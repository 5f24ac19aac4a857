use fuzzy_psi::okvs::error::Error;
use fuzzy_psi::okvs::near_optimal::band::PackedBand;
use fuzzy_psi::okvs::near_optimal::okvs::utils::{
    bit, blake2b, count_sort, hash, inner_product, radix_sort, simple_gauss, xor,
};
use fuzzy_psi::okvs::near_optimal::okvs::{Okvs, OkvsK, OkvsKey, OkvsV, OkvsValue, RbOkvs};

fn pairs(n: usize) -> Vec<(OkvsKey<8>, OkvsValue<8>)> {
    (1..=n as u64)
        .map(|i| (OkvsKey(i.to_le_bytes()), OkvsValue((i * 31 + 7).to_le_bytes())))
        .collect()
}

#[test]
fn every_pair_decodes_to_its_value() {
    for n in [9usize, 64, 100, 500, 2000, 5000] {
        let store = RbOkvs::new(n);
        let input = pairs(n);
        let encoding = store.encode(input.clone()).unwrap();
        assert_eq!(encoding.len(), store.dimensions().0);
        for (key, value) in &input {
            let decoded: OkvsValue<8> = store.decode(&encoding, key);
            assert_eq!(&decoded, value);
        }
    }
}

#[test]
fn fewer_pairs_than_sized_for_still_decode() {
    let store = RbOkvs::new(200);
    let input = pairs(20);
    let encoding = store.encode(input.clone()).unwrap();
    for (key, value) in &input {
        let decoded: OkvsValue<8> = store.decode(&encoding, key);
        assert_eq!(&decoded, value);
    }
    let empty: Vec<(OkvsKey<8>, OkvsValue<8>)> = Vec::new();
    let encoding = store.encode(empty).unwrap();
    assert_eq!(encoding.len(), 220);
    assert!(encoding.iter().all(|v| v.is_zero()));
}

#[test]
fn values_of_other_widths() {
    let store = RbOkvs::new(80);
    let input: Vec<(OkvsKey<4>, OkvsValue<3>)> = (0..50u32)
        .map(|i| (OkvsKey(i.to_le_bytes()), OkvsValue([i as u8, (i * 3) as u8, 0xab])))
        .collect();
    let encoding = store.encode(input.clone()).unwrap();
    for (key, value) in &input {
        let decoded: OkvsValue<3> = store.decode(&encoding, key);
        assert_eq!(&decoded, value);
    }
}

#[test]
fn decoding_twice_gives_the_same_bytes() {
    let store = RbOkvs::new(64);
    let encoding = store.encode(pairs(64)).unwrap();
    for k in [0u64, 1, 64, 65, 1 << 40, u64::MAX] {
        let key = OkvsKey(k.to_le_bytes());
        let first: OkvsValue<8> = store.decode(&encoding, &key);
        let second: OkvsValue<8> = store.decode(&encoding, &key);
        assert_eq!(first, second);
    }
}

#[test]
fn too_many_pairs_are_refused() {
    let store = RbOkvs::new(10);
    let result = store.encode(pairs(11));
    assert_eq!(result, Err(Error::InputTooLarge));
    assert!(store.encode(pairs(10)).is_ok());
}

#[test]
fn a_full_small_store_can_run_out_of_pivots() {
    // Eight rows over the eight columns that bands of eight bits reach from start 0.
    let store = RbOkvs::new(8);
    assert_eq!(store.encode(pairs(8)), Err(Error::ZeroRow(7)));
    let roomier = RbOkvs::new(9);
    assert!(roomier.encode(pairs(8)).is_ok());
}

#[test]
fn the_same_key_twice_leaves_a_zero_row() {
    let store = RbOkvs::new(16);
    let mut input = pairs(10);
    input.push((OkvsKey(3u64.to_le_bytes()), OkvsValue(99u64.to_le_bytes())));
    let result = store.encode(input);
    assert!(matches!(result, Err(Error::ZeroRow(_))));
}

#[test]
fn sizes_follow_the_pair_count() {
    assert_eq!(RbOkvs::new(64).dimensions(), (71, 56));
    assert_eq!(RbOkvs::new(8).dimensions(), (9, 8));
    assert_eq!(RbOkvs::new(10).dimensions(), (11, 8));
    assert_eq!(RbOkvs::new(20).dimensions(), (22, 17));
    assert_eq!(RbOkvs::new(100).dimensions(), (110, 88));
    assert_eq!(RbOkvs::new(145).dimensions(), (160, 128));
    assert_eq!(RbOkvs::new(146).dimensions(), (161, 128));
    assert_eq!(RbOkvs::new(1000).dimensions(), (1100, 128));
    assert_eq!(RbOkvs::new(0).dimensions(), (0, 8));
}

#[test]
fn bands_have_their_low_bit_set_and_stay_in_their_width() {
    for k in 0..200u64 {
        let key = OkvsKey(k.to_le_bytes());
        for width in [8usize, 17, 56, 128, 256] {
            let band = key.hash_to_band(width);
            assert!(bit(&band, 0));
            for place in (width / 8 * 8)..256 {
                assert!(!bit(&band, place));
            }
        }
    }
}

#[test]
fn band_is_the_stretched_digest_with_the_low_bit_forced() {
    let key = OkvsKey(*b"hello wo");
    let digest = hash(b"hello wo", 16);
    let band = key.hash_to_band(128);
    let mut low = [0u8; 8];
    low.copy_from_slice(&digest[0..8]);
    let mut high = [0u8; 8];
    high.copy_from_slice(&digest[8..16]);
    assert_eq!(band.0, [u64::from_le_bytes(low) | 1, u64::from_le_bytes(high), 0, 0]);
}

#[test]
fn index_is_the_short_digest_modulo_the_range() {
    let key = OkvsKey(7u64.to_le_bytes());
    let digest = blake2b::<8>(&7u64.to_le_bytes());
    let number = u64::from_le_bytes(digest);
    for range in [1usize, 2, 15, 1000, 1 << 20] {
        assert_eq!(key.hash_to_index(range), (number % range as u64) as usize);
        assert!(key.hash_to_index(range) < range);
    }
    assert_eq!(key.to_bytes(), 7u64.to_le_bytes().to_vec());
}

#[test]
fn blake2b_of_known_inputs() {
    assert_eq!(
        blake2b::<10>(b"my_input"),
        [0x2c, 0xc5, 0x5c, 0x84, 0xe4, 0x16, 0x92, 0x4e, 0x64, 0x00]
    );
    let digest = hash(b"hello world", 64);
    assert_eq!(&digest[0..8], &[0x02, 0x1c, 0xed, 0x87, 0x99, 0x29, 0x6c, 0xec]);
    assert_eq!(&digest[60..64], &[0x7c, 0xbc, 0x7f, 0xd0]);
}

#[test]
fn hash_repeats_the_digest() {
    let digest = hash(b"abc", 64);
    assert_eq!(digest.len(), 64);
    assert_eq!(hash(b"abc", 0), Vec::<u8>::new());
    assert_eq!(hash(b"abc", 5), digest[0..5].to_vec());
    let long = hash(b"abc", 150);
    assert_eq!(long.len(), 150);
    assert_eq!(&long[0..64], &digest[..]);
    assert_eq!(&long[64..128], &digest[..]);
    assert_eq!(&long[128..150], &digest[0..22]);
    assert_eq!(hash(b"abc", 128), [digest.clone(), digest.clone()].concat());
}

#[test]
fn bit_reads_all_four_limbs() {
    let band = PackedBand([0b101, 1 << 63, 1, 1 << 5]);
    assert!(bit(&band, 0));
    assert!(!bit(&band, 1));
    assert!(bit(&band, 2));
    assert!(!bit(&band, 63));
    assert!(!bit(&band, 64));
    assert!(bit(&band, 127));
    assert!(bit(&band, 128));
    assert!(!bit(&band, 129));
    assert!(bit(&band, 197));
    assert!(!bit(&band, 255));
}

#[test]
fn xor_lines_the_bands_up() {
    let a = PackedBand([0b1100, 0, 0, 0]);
    let b = PackedBand([0b0101, 0, 0, 0]);
    // Same place: plain exclusive or.
    assert_eq!(xor(a, b, 2, 2).0, [0b1001, 0, 0, 0]);
    // Bit 2 of `a` lies on bit 0 of `b`: `a` moves down by two.
    assert_eq!(xor(a, b, 2, 0).0, [0b0110, 0, 0, 0]);
    // Bit 0 of `a` lies on bit 2 of `b`: `a` moves up by two, and the low two bits of `b` go.
    assert_eq!(xor(a, b, 0, 2).0, [0b110100, 0, 0, 0]);
    // Across limbs.
    let a = PackedBand([0, 1, 0, 0]);
    let b = PackedBand([1, 0, 0, 0]);
    assert_eq!(xor(a, b, 64, 0).0, [0, 0, 0, 0]);
    assert_eq!(xor(a, b, 70, 6).0, [0, 0, 0, 0]);
    assert_eq!(xor(a, PackedBand([0, 0, 0, 0]), 70, 6).0, [1, 0, 0, 0]);
    assert_eq!(xor(a, b, 0, 6).0, [0, 1 << 6, 0, 0]);
    let b = PackedBand([0b11, 0, 0, 0]);
    assert_eq!(xor(a, b, 65, 1).0, [0b10, 0, 0, 0]);
}

#[test]
fn inner_product_adds_the_values_of_the_set_bits() {
    let x: Vec<OkvsValue<2>> = (0..130u8).map(|i| OkvsValue([i, 1])).collect();
    let none = PackedBand([0, 0, 0, 0]);
    assert_eq!(inner_product(&none, &x), OkvsValue([0, 0]));
    let one = PackedBand([0b100, 0, 0, 0]);
    assert_eq!(inner_product(&one, &x), OkvsValue([2, 1]));
    let three = PackedBand([0b101, 1, 0, 0]);
    assert_eq!(inner_product(&three, &x), OkvsValue([0 ^ 2 ^ 64, 1]));
    let high = PackedBand([1 << 63, 0, 0b11, 0]);
    assert_eq!(inner_product(&high, &x), OkvsValue([63 ^ 128 ^ 129, 1]));
    let short: Vec<OkvsValue<2>> = vec![OkvsValue([9, 9])];
    assert_eq!(inner_product(&PackedBand([1, 0, 0, 0]), &short), OkvsValue([9, 9]));
    assert_eq!(inner_product(&none, &[] as &[OkvsValue<2>]), OkvsValue([0, 0]));
}

#[test]
fn value_operations() {
    let a = OkvsValue([0x0f, 0xf0, 0xaa]);
    let b = OkvsValue([0xff, 0x0f, 0xaa]);
    assert_eq!(a.xor(&b), OkvsValue([0xf0, 0xff, 0x00]));
    let mut c = a;
    c.in_place_xor(&b);
    assert_eq!(c, OkvsValue([0xf0, 0xff, 0x00]));
    c.in_place_xor(&c.clone());
    assert!(c.is_zero());
    assert!(!a.is_zero());
    assert!(!OkvsValue([0, 0, 1]).is_zero());
    assert_eq!(<OkvsValue<3> as OkvsV>::default(), OkvsValue([0, 0, 0]));
    assert!(<OkvsValue<0> as OkvsV>::default().is_zero());
}

#[test]
fn gauss_solves_a_small_system() {
    // x0 + x1 = a, x1 + x2 = b over four columns.
    let a = OkvsValue([0x12u8]);
    let b = OkvsValue([0x34u8]);
    let bands = vec![PackedBand([0b11, 0, 0, 0]), PackedBand([0b11, 0, 0, 0])];
    let x = simple_gauss(vec![a, b], bands, vec![0, 1], 4).unwrap();
    assert_eq!(x, vec![OkvsValue([0x12 ^ 0x34]), OkvsValue([0x34]), OkvsValue([0]), OkvsValue([0])]);
}

#[test]
fn gauss_eliminates_below_the_pivot() {
    // Rows: x0 + x2 = a; x0 + x1 = b (same start); x1 + x2 = c is their sum, so a + b + c must be 0
    // for a solution: with c != a + b the third row ends as a nonzero value on a zero band.
    let a = OkvsValue([1u8]);
    let b = OkvsValue([2u8]);
    let bands = vec![PackedBand([0b101, 0, 0, 0]), PackedBand([0b011, 0, 0, 0])];
    let x = simple_gauss(vec![a, b], bands, vec![0, 0], 3).unwrap();
    // Row 0 takes column 0; row 1 becomes x1 + x2 = a + b and takes column 1; x2 stays 0.
    assert_eq!(x, vec![OkvsValue([1]), OkvsValue([3]), OkvsValue([0])]);
    let bands = vec![
        PackedBand([0b101, 0, 0, 0]),
        PackedBand([0b011, 0, 0, 0]),
        PackedBand([0b11, 0, 0, 0]),
    ];
    let result = simple_gauss(vec![a, b, OkvsValue([9u8])], bands, vec![0, 0, 1], 3);
    assert_eq!(result, Err(Error::ZeroRow(2)));
}

#[test]
fn gauss_reports_the_first_zero_row() {
    let v = OkvsValue([1u8]);
    let bands = vec![PackedBand([0, 0, 0, 0]), PackedBand([1, 0, 0, 0])];
    assert_eq!(simple_gauss(vec![v, v], bands, vec![0, 0], 2), Err(Error::ZeroRow(0)));
    let bands = vec![PackedBand([1, 0, 0, 0]), PackedBand([1, 0, 0, 0])];
    assert_eq!(simple_gauss(vec![v, v], bands, vec![0, 0], 2), Err(Error::ZeroRow(1)));
    let none: Vec<OkvsValue<1>> = Vec::new();
    assert_eq!(simple_gauss(none, Vec::new(), Vec::new(), 3), Ok(vec![OkvsValue([0]); 3]));
}

#[test]
fn radix_sort_orders_by_the_second_component() {
    let mut arr = vec![(0, 170), (1, 45), (2, 75), (3, 90), (4, 802), (5, 24), (6, 2), (7, 66)];
    radix_sort(&mut arr, 802);
    assert_eq!(arr, vec![(6, 2), (5, 24), (1, 45), (7, 66), (2, 75), (3, 90), (0, 170), (4, 802)]);
}

#[test]
fn radix_sort_keeps_equal_items_in_order() {
    let mut arr = vec![(0, 5), (1, 3), (2, 5), (3, 3), (4, 0), (5, 5)];
    radix_sort(&mut arr, 9);
    assert_eq!(arr, vec![(4, 0), (1, 3), (3, 3), (0, 5), (2, 5), (5, 5)]);
    let mut arr = vec![(9, 0), (8, 0), (7, 0)];
    radix_sort(&mut arr, 0);
    assert_eq!(arr, vec![(9, 0), (8, 0), (7, 0)]);
    let mut arr: Vec<(usize, usize)> = Vec::new();
    radix_sort(&mut arr, 100);
    assert!(arr.is_empty());
}

#[test]
fn radix_sort_agrees_with_a_stable_sort() {
    let mut state = 12345u64;
    let mut arr: Vec<(usize, usize)> = Vec::new();
    for i in 0..1000 {
        state = state.wrapping_mul(6364136223846793005).wrapping_add(1442695040888963407);
        arr.push((i, (state >> 33) as usize % 5000));
    }
    let mut expected = arr.clone();
    expected.sort_by_key(|e| e.1);
    radix_sort(&mut arr, 4999);
    assert_eq!(arr, expected);
    let mut big = vec![(0, usize::MAX), (1, 7), (2, usize::MAX - 1)];
    radix_sort(&mut big, usize::MAX);
    assert_eq!(big, vec![(1, 7), (2, usize::MAX - 1), (0, usize::MAX)]);
}

#[test]
fn count_sort_orders_by_one_digit() {
    let arr = vec![(0, 170), (1, 45), (2, 75), (3, 9)];
    assert_eq!(count_sort(&arr, 10), vec![(3, 9), (1, 45), (0, 170), (2, 75)]);
    assert_eq!(count_sort(&arr, 1), vec![(0, 170), (1, 45), (2, 75), (3, 9)]);
    assert_eq!(count_sort(&arr, 100), vec![(1, 45), (2, 75), (3, 9), (0, 170)]);
}

#[test]
fn sorted_matrix_comes_in_start_order() {
    let store = RbOkvs::new(64);
    let input = pairs(40);
    let (bands, starts, values) = store.create_sorted_matrix(input.clone()).unwrap();
    assert_eq!(bands.len(), 40);
    assert_eq!(values.len(), 40);
    assert!(starts.windows(2).all(|w| w[0] <= w[1]));
    assert!(starts.iter().all(|s| *s < 71 - 56));
    for (row, value) in values.iter().enumerate() {
        let at = input.iter().position(|(_, v)| v == value).unwrap();
        assert_eq!(starts[row], input[at].0.hash_to_index(71 - 56));
        assert_eq!(bands[row].0, input[at].0.hash_to_band(56).0);
    }
    assert!(matches!(store.create_sorted_matrix(pairs(65)), Err(Error::InputTooLarge)));
}
