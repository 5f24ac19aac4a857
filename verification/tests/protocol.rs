use fuzzy_psi::okvs::error::Error;
use fuzzy_psi::{Encoding, FuzzyPSI, OKVSEncoder, SubProtocol};
use rand_chacha::rand_core::SeedableRng;
use rand_chacha::ChaCha20Rng;

fn padding(seed: u64, n: usize) -> Vec<(u64, u64)> {
    let mut state = seed;
    let mut out = Vec::new();
    for _ in 0..n {
        state = state.wrapping_mul(6364136223846793005).wrapping_add(1442695040888963407);
        let key = state ^ (state >> 29);
        state = state.wrapping_mul(6364136223846793005).wrapping_add(1442695040888963407);
        out.push((key | (1 << 63), state));
    }
    out
}

fn scenario(encoder: OKVSEncoder) -> FuzzyPSI {
    FuzzyPSI::new()
        .with_h1(1)
        .with_h2(2)
        .with_threshold(2)
        .with_items_party_a(vec![1, 10, 100, 1000, 10000])
        .with_items_party_b(vec![1, 1000, 100])
        .with_encoder(encoder)
        .with_sub_protocol(SubProtocol::Insecure)
}

#[test]
fn end_to_end_with_the_band_matrix() {
    let psi = scenario(OKVSEncoder::RandomBand);
    assert!(psi.can_run());
    let mut found = psi.run_with_padding(&padding(1, 64), &padding(2, 64)).unwrap();
    found.sort();
    assert_eq!(found, vec![1, 100, 1000]);
}

#[test]
fn end_to_end_with_the_polynomial() {
    let psi = scenario(OKVSEncoder::LagrangePolynomial);
    assert!(psi.can_run());
    let mut found = psi.run_with_padding(&padding(3, 64), &padding(4, 64)).unwrap();
    found.sort();
    assert_eq!(found, vec![1, 100, 1000]);
}

#[test]
fn end_to_end_with_a_seeded_generator() {
    for encoder in [OKVSEncoder::RandomBand, OKVSEncoder::LagrangePolynomial] {
        let psi = scenario(encoder);
        let mut rng = ChaCha20Rng::seed_from_u64(2024);
        let mut found = psi.run(&mut rng).unwrap();
        found.sort();
        assert_eq!(found, vec![1, 100, 1000]);
    }
}

#[test]
fn end_to_end_without_padding() {
    let psi = scenario(OKVSEncoder::LagrangePolynomial);
    let mut found = psi.run_with_padding(&Vec::new(), &Vec::new()).unwrap();
    found.sort();
    assert_eq!(found[0..3], [1, 100, 1000][..]);
}

#[test]
fn close_points_in_one_bin_are_matched() {
    // Bins are 20 wide: 41 and 59 share bin 2, 100 and 119 share bin 5 but lie 19 apart.
    let psi = FuzzyPSI::new()
        .with_h1(3)
        .with_h2(3)
        .with_threshold(10)
        .with_items_party_a(vec![41, 100, 500])
        .with_items_party_b(vec![59, 119, 777])
        .with_encoder(OKVSEncoder::RandomBand);
    let mut rng = ChaCha20Rng::seed_from_u64(5);
    let found = psi.run(&mut rng).unwrap();
    assert_eq!(found, vec![]);
    let psi = psi.with_threshold(20);
    // Bins are 40 wide: 41 and 59 share bin 1 and lie 18 apart; 100 and 119 share bin 2.
    let mut found = psi.run(&mut rng).unwrap();
    found.sort();
    assert_eq!(found, vec![59, 119]);
}

#[test]
fn only_the_first_point_of_a_bin_is_used() {
    let psi = FuzzyPSI::new()
        .with_threshold(5)
        .with_items_party_a(vec![21, 25])
        .with_items_party_b(vec![29, 22])
        .with_encoder(OKVSEncoder::LagrangePolynomial);
    let mut rng = ChaCha20Rng::seed_from_u64(11);
    // Bin 2 holds 21 and 25 of A and 29 and 22 of B: 21 is compared with 29.
    assert_eq!(psi.run(&mut rng).unwrap(), Vec::<u64>::new());
    let psi = psi.with_items_party_b(vec![22, 29]);
    assert_eq!(psi.run(&mut rng).unwrap(), vec![22]);
}

#[test]
fn empty_parties_match_nothing() {
    for encoder in [OKVSEncoder::RandomBand, OKVSEncoder::LagrangePolynomial] {
        let psi = FuzzyPSI::new().with_encoder(encoder);
        assert!(psi.can_run());
        let mut rng = ChaCha20Rng::seed_from_u64(1);
        assert_eq!(psi.run(&mut rng).unwrap(), Vec::<u64>::new());
        let psi = psi.with_items_party_a(vec![5, 6, 7]);
        assert_eq!(psi.run(&mut rng).unwrap(), Vec::<u64>::new());
    }
}

#[test]
fn settings_that_cannot_run() {
    assert!(!FuzzyPSI::new().with_threshold(0).can_run());
    assert!(!FuzzyPSI::new().with_threshold(u64::MAX).can_run());
    assert!(!FuzzyPSI::new().with_items_party_a(vec![u64::MAX]).can_run());
    assert!(!FuzzyPSI::new().with_items_party_b(vec![1, u64::MAX - 9]).can_run());
    assert!(FuzzyPSI::new().with_items_party_b(vec![1, u64::MAX - 10]).can_run());
    assert!(!FuzzyPSI::new().with_items_party_a(vec![1, 2]).with_h1(u64::MAX).can_run());
    assert!(FuzzyPSI::new().with_h1(u64::MAX).can_run());
}

#[test]
fn encodings_of_both_strategies_decode_their_pairs() {
    let pairs: Vec<(u64, u64)> = (0..64u64).map(|i| (i * i + 3, i ^ 0xdead_beef_0000_0000)).collect();
    for encoder in [OKVSEncoder::RandomBand, OKVSEncoder::LagrangePolynomial] {
        let encoding = Encoding::encode(encoder, pairs.clone(), 64).unwrap();
        for (key, value) in &pairs {
            assert_eq!(encoding.decode(*key), *value);
            assert_eq!(encoding.decode(*key), encoding.decode(*key));
        }
    }
}

#[test]
fn encodings_report_their_errors() {
    let pairs: Vec<(u64, u64)> = (0..20u64).map(|i| (i, i)).collect();
    let result = Encoding::encode(OKVSEncoder::RandomBand, pairs.clone(), 19);
    assert!(matches!(result, Err(Error::InputTooLarge)));
    assert!(Encoding::encode(OKVSEncoder::LagrangePolynomial, pairs, 19).is_ok());
    let twice = vec![(5u64, 1u64), (5u64, 2u64)];
    let result = Encoding::encode(OKVSEncoder::LagrangePolynomial, twice.clone(), 8);
    assert!(matches!(result, Err(Error::DuplicateKey)));
    let result = Encoding::encode(OKVSEncoder::RandomBand, twice, 8);
    assert!(matches!(result, Err(Error::ZeroRow(_))));
}

#[test]
fn padding_that_repeats_a_bin_fails_the_polynomial() {
    // Bin 0 is a key of the first party's messages; padding with the key 0 repeats it.
    let psi = scenario(OKVSEncoder::LagrangePolynomial);
    let result = psi.run_with_padding(&vec![(0, 7)], &Vec::new());
    assert_eq!(result, Err(Error::DuplicateKey));
    let result = psi.run_with_padding(&Vec::new(), &vec![(250, 7)]);
    assert_eq!(result, Err(Error::DuplicateKey));
    let psi = scenario(OKVSEncoder::RandomBand);
    let result = psi.run_with_padding(&vec![(0, 7)], &Vec::new());
    assert!(matches!(result, Err(Error::ZeroRow(_))));
}

#[test]
fn a_factor_of_zero_can_leave_the_band_matrix_too_small() {
    let items: Vec<u64> = (0..70u64).map(|i| i * 100).collect();
    let psi = FuzzyPSI::new()
        .with_h1(0)
        .with_threshold(2)
        .with_items_party_a(items)
        .with_encoder(OKVSEncoder::RandomBand);
    assert!(psi.can_run());
    assert_eq!(psi.run_with_padding(&Vec::new(), &Vec::new()), Err(Error::InputTooLarge));
}

#[test]
fn the_polynomial_needs_no_size() {
    let pairs: Vec<(u64, u64)> = (0..5u64).map(|i| (i, i + 1)).collect();
    let encoding = Encoding::encode(OKVSEncoder::LagrangePolynomial, pairs, 0).unwrap();
    assert_eq!(encoding.decode(3), 4);
}
