use bfield::bitops::popcount;
use bfield::codec::{rank, unrank};

#[test]
fn test_codec_round_trip() {
    // unrank(rank(v, kappa)) == v and popcount(rank(v, kappa)) == kappa
    for kappa in 1u8..=8 {
        // values must stay below C(128, kappa); kappa = 1 admits only 128
        let vmax = if kappa == 1 { 128 } else { 200 };
        for v in 0u32..vmax {
            let marker = rank(v, kappa);
            assert_eq!(popcount(marker), kappa as u32);
            assert_eq!(unrank(marker), v as u128);
        }
    }
}

#[test]
fn test_codec_colex_order() {
    // weight-2 patterns in colexicographic order
    assert_eq!(rank(0, 2), 0b011);
    assert_eq!(rank(1, 2), 0b101);
    assert_eq!(rank(2, 2), 0b110);
    assert_eq!(rank(3, 2), 0b1001);
    assert_eq!(rank(4, 2), 0b1010);
    assert_eq!(rank(5, 2), 0b1100);
    // value 0 is always the lowest kappa bits
    assert_eq!(rank(0, 4), 0b1111);
    assert_eq!(rank(0, 1), 0b1);
}

#[test]
fn test_codec_large_values() {
    // the largest value a 16-bit-wide weight-4 marker can carry is
    // C(16, 4) - 1 = 1819
    let marker = rank(1819, 4);
    assert!(marker < (1u128 << 16));
    assert_eq!(popcount(marker), 4);
    assert_eq!(unrank(marker), 1819);
    // one more needs a 17th bit
    let marker = rank(1820, 4);
    assert!(marker >= (1u128 << 16));
    assert_eq!(unrank(marker), 1820);
}

#[test]
fn test_unrank_weight_one() {
    // a single set bit at position p decodes to p
    for p in 0..128u32 {
        assert_eq!(unrank(1u128 << p), p as u128);
    }
}
