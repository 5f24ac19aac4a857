use fuzzy_psi::data::field::FieldElement;
use fuzzy_psi::data::point::Point;
use fuzzy_psi::data::vector::Vector;
use fuzzy_psi::okvs::error::Error;
use fuzzy_psi::okvs::lagrange_polynomial_okvs::LagrangePolynomialOKVS;
use fuzzy_psi::okvs::{Encoder, Store, OKVS};

#[test]
fn okvs_test_encode() {
    let data = vec![
        (1u64, 2u32),
        (2u64, 16u32),
        (3u64, 6u32),
        (4u64, 28u32),
        (5u64, 10u32),
        (6u64, 555u32),
        (7u64, 7777u32),
        (8u64, 42u32),
    ];
    let okvs = OKVS::encode(&data).unwrap();

    // Verify that the OKVS is constructed correctly
    assert!(
        okvs.degree() >= data.len() - 1,
        "Polynomial degree should accommodate all key-value pairs."
    );
}

#[test]
fn okvs_test_decode_valid_key() {
    let data = vec![
        (1u64, 2u32),
        (2u64, 16u32),
        (3u64, 6u32),
        (4u64, 28u32),
        (5u64, 10u32),
        (16u64, 555u32),
        (7u64, 7777u32),
        (8u64, 42u32),
    ];
    let okvs = OKVS::encode(&data).unwrap();

    for (key, value) in data {
        let decoded_value = okvs.decode(key);
        assert_eq!(
            decoded_value,
            FieldElement::from(value),
            "Decoded value should match the encoded value."
        );
    }
}

#[test]
fn okvs_test_decode_invalid_key() {
    let data = vec![
        (1u64, 2u32),
        (2u64, 16u32),
        (3u64, 6u32),
        (4u64, 28u32),
        (5u64, 10u32),
        (16u64, 555u32),
        (7u64, 7777u32),
        (8u64, 42u32),
    ];
    let okvs = OKVS::encode(&data).unwrap();

    let decoded_value = okvs.decode(42u64);
    assert_ne!(
        decoded_value,
        FieldElement::from(0u64),
        "Decoded value for an invalid key should not be zero (random value expected)."
    );
}

#[test]
fn lagrange_polynomial_okvs_test_encode() {
    let data = [vec![
        Point::new(1u64, 2u64),
        Point::new(2u64, 16u64),
        Point::new(3u64, 6u64),
        Point::new(4u64, 28u64),
        Point::new(5u64, 10u64),
        Point::new(6u64, 555u64),
        Point::new(7u64, 7777u64),
        Point::new(8u64, 42u64),
    ]];
    let okvs = LagrangePolynomialOKVS::encode(&data).unwrap();

    // Verify that the OKVS is constructed correctly
    assert!(
        okvs.degree(0) >= data.len() - 1,
        "Polynomial degree should accommodate all key-value pairs."
    );
    assert_eq!(okvs.degree(0), 7);
}

#[test]
fn lagrange_polynomial_okvs_test_decode_valid_key() {
    let raw = [
        (1u64, 2u64),
        (2u64, 16u64),
        (3u64, 6u64),
        (4u64, 28u64),
        (5u64, 10u64),
        (6u64, 555u64),
        (7u64, 7777u64),
        (8u64, 42u64),
    ];
    let data = [vec![
        Point::new(1u64, 2u64),
        Point::new(2u64, 16u64),
        Point::new(3u64, 6u64),
        Point::new(4u64, 28u64),
        Point::new(5u64, 10u64),
        Point::new(6u64, 555u64),
        Point::new(7u64, 7777u64),
        Point::new(8u64, 42u64),
    ]];
    let okvs = LagrangePolynomialOKVS::encode(&data).unwrap();

    for (index, point) in data[0].iter().enumerate() {
        assert_eq!(point.x, FieldElement::from(raw[index].0));
        let decoded_point = okvs.decode(raw[index].0);
        assert_eq!(
            FieldElement::from(decoded_point[0]),
            point.y,
            "Decoded value should match the encoded value."
        );
        assert_eq!(decoded_point[0], raw[index].1);
    }
}

#[test]
fn lagrange_polynomial_okvs_test_decode_invalid_key() {
    let data = [vec![
        Point::new(1u64, 2u64),
        Point::new(2u64, 16u64),
        Point::new(3u64, 6u64),
        Point::new(4u64, 28u64),
        Point::new(5u64, 10u64),
        Point::new(6u64, 555u64),
        Point::new(7u64, 7777u64),
        Point::new(8u64, 42u64),
    ]];
    let okvs = LagrangePolynomialOKVS::encode(&data).unwrap();

    let invalid_key = 42u64;
    let decoded_point = okvs.decode(invalid_key);
    assert_ne!(
        decoded_point[0], 0,
        "Decoded value for an invalid key should not be zero (random value expected)."
    );
}

#[test]
fn duplicate_keys_are_rejected() {
    let result = OKVS::encode(&[(5u64, 1u64), (5u64, 2u64)]);
    assert!(matches!(result, Err(Error::DuplicateKey)));
    let result = OKVS::encode(&[(5u64, 1u64), (6u64, 2u64), (5u64, 1u64)]);
    assert!(matches!(result, Err(Error::DuplicateKey)));
    let data = [vec![Point::new(1u64, 1u64)], vec![Point::new(5u64, 1u64), Point::new(5u64, 2u64)]];
    let result = LagrangePolynomialOKVS::encode(&data);
    assert!(matches!(result, Err(Error::DuplicateKey)));
}

#[test]
fn few_points_give_low_degrees() {
    // No point: the zero polynomial.
    let none: [(u64, u64); 0] = [];
    let okvs = OKVS::encode(&none).unwrap();
    assert_eq!(okvs.degree(), 0);
    assert_eq!(okvs.decode(9u64), FieldElement::from(0u64));
    // One point: a constant.
    let okvs = OKVS::encode(&[(3u64, 11u64)]).unwrap();
    assert_eq!(okvs.degree(), 0);
    assert_eq!(okvs.decode(3u64), FieldElement::from(11u64));
    assert_eq!(okvs.decode(1000u64), FieldElement::from(11u64));
    // Two points: the line through them, y = 2x + 1.
    let okvs = OKVS::encode(&[(1u64, 3u64), (2u64, 5u64)]).unwrap();
    assert_eq!(okvs.degree(), 1);
    assert_eq!(okvs.decode(0u64), FieldElement::from(1u64));
    assert_eq!(okvs.decode(10u64), FieldElement::from(21u64));
}

#[test]
fn interpolation_through_a_parabola() {
    // y = x^2 + 1 at 0, 1, 2.
    let points = [Point::new(0u64, 1u64), Point::new(1u64, 2u64), Point::new(2u64, 5u64)];
    let poly = LagrangePolynomialOKVS::<1>::interpolate(&points).unwrap();
    assert_eq!(
        poly,
        vec![FieldElement::from(1u64), FieldElement::from(0u64), FieldElement::from(1u64)]
    );
}

#[test]
fn decoding_is_repeatable() {
    let data = [
        vec![Point::new(1u64, 2u64), Point::new(2u64, 16u64), Point::new(3u64, 6u64)],
        vec![Point::new(1u64, 7u64), Point::new(9u64, 1u64)],
    ];
    let okvs = LagrangePolynomialOKVS::encode(&data).unwrap();
    for key in [1u64, 2, 3, 9, 42, u64::MAX] {
        assert_eq!(okvs.decode(key), okvs.decode(key));
    }
    assert_eq!(okvs.decode(1u64), [2, 7]);
    assert_eq!(okvs.decode(9u64)[1], 1);
}

#[test]
fn field_elements_from_numbers_and_limbs() {
    assert_eq!(FieldElement::from(7u8), FieldElement::from(7u64));
    assert_eq!(FieldElement::from(7u16), FieldElement::from(7u128));
    assert_eq!(FieldElement::from(7u32).limbs(), [7, 0, 0, 0]);
    assert_eq!(FieldElement::from(u128::MAX).limbs(), [u64::MAX, u64::MAX, 0, 0]);
    assert_eq!(FieldElement::from(u64::MAX).low_u64(), u64::MAX);
    assert_eq!(FieldElement::from(0u64).low_u64(), 0);
    assert_eq!(FieldElement::from((1u128 << 64) + 5).low_u64(), 5);
    let modulus = [
        0xffff_ffff_0000_0001u64,
        0x53bd_a402_fffe_5bfe,
        0x3339_d808_09a1_d805,
        0x73ed_a753_299d_7d48,
    ];
    assert!(FieldElement::from_limbs(modulus).is_none());
    let below = [modulus[0] - 1, modulus[1], modulus[2], modulus[3]];
    assert_eq!(FieldElement::from_limbs(below).unwrap().limbs(), below);
    assert!(FieldElement::from_limbs([0, 0, 0, u64::MAX]).is_none());
    assert!(FieldElement::from_limbs([u64::MAX, u64::MAX, u64::MAX, 0]).is_some());
}

#[test]
fn values_wrap_round_the_modulus() {
    // The line through (0, 0) and (1, p - 1) takes the value p - 2 at 2.
    let modulus = [
        0xffff_ffff_0000_0001u64,
        0x53bd_a402_fffe_5bfe,
        0x3339_d808_09a1_d805,
        0x73ed_a753_299d_7d48,
    ];
    let minus_one = FieldElement::from_limbs([modulus[0] - 1, modulus[1], modulus[2], modulus[3]]).unwrap();
    let minus_two = FieldElement::from_limbs([modulus[0] - 2, modulus[1], modulus[2], modulus[3]]).unwrap();
    let okvs = OKVS::encode(&[(FieldElement::from(0u64), FieldElement::from(0u64)), (FieldElement::from(1u64), minus_one)]).unwrap();
    assert_eq!(okvs.decode(2u64), minus_two);
    assert_eq!(okvs.evaluate(&minus_one), FieldElement::from(1u64));
}

#[test]
fn test_from() {
    let v1 = Vector::from(1u8);
    let v2 = Vector::from(vec![1u8, 2u8, 3u8]);
    let v3 = Vector::from(vec![1u8, 2u8, 3u8].as_slice());
    let v4 = Vector::from(&[1u8, 2u8, 3u8]);

    let r = Vector::from_numbers(&[FieldElement::from(1u8), FieldElement::from(2u8), FieldElement::from(3u8)]);
    assert_eq!(v1, Vector::from_numbers(&[FieldElement::from(1u8)]));
    assert_eq!(v2, r);
    assert_eq!(v3, r);
    assert_eq!(v4, r);
}

#[test]
fn vectors_from_wider_numbers() {
    assert_eq!(Vector::from(7u16), Vector::from(7u128));
    assert_eq!(Vector::from(vec![1u32, 2]), Vector::from(&[1u64, 2]));
    assert_eq!(Vector::from(vec![u64::MAX]).elements()[0].limbs(), [u64::MAX, 0, 0, 0]);
    assert_eq!(Vector::from(u128::MAX).elements()[0].limbs(), [u64::MAX, u64::MAX, 0, 0]);
    let none: Vec<u8> = Vec::new();
    assert!(Vector::from(none).elements().is_empty());
    assert_ne!(Vector::from(vec![1u8, 2]), Vector::from(vec![2u8, 1]));
}

#[test]
fn points_from_pairs() {
    assert_eq!(Point::from((3u64, 4u8)), Point::new(3u8, 4u64));
    assert_eq!(Point::from(&(3u64, 4u32)), Point::new(3u16, 4u128));
    assert_eq!(Point::new(5u64, 6u64).x, FieldElement::from(5u64));
    assert_eq!(Point::new(5u64, 6u64).y, FieldElement::from(6u64));
}

#[test]
fn a_member_key_with_the_value_zero_decodes_to_zero() {
    let data = [vec![Point::new(1u64, 0u64), Point::new(2u64, 5u64)]];
    let okvs = LagrangePolynomialOKVS::encode(&data).unwrap();
    assert_eq!(okvs.decode(1u64), [0u64]);
    assert_eq!(okvs.decode(2u64), [5u64]);
    assert_eq!(okvs.decode(1u64), okvs.decode(1u64));
}

#[test]
fn the_first_failing_dimension_names_the_error() {
    let twice = vec![Point::new(5u64, 1u64), Point::new(5u64, 2u64)];
    let fine = vec![Point::new(1u64, 1u64)];
    let result = LagrangePolynomialOKVS::encode(&[fine.clone(), twice.clone(), fine.clone()]);
    assert!(matches!(result, Err(Error::DuplicateKey)));
    let result = LagrangePolynomialOKVS::encode(&[twice]);
    assert!(matches!(result, Err(Error::DuplicateKey)));
    assert!(LagrangePolynomialOKVS::encode(&[fine.clone(), fine]).is_ok());
}
