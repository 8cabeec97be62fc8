use bfield::member::{align_bits, marker_pos, BFieldLookup, BFieldMember};

#[test]
fn test_align_bits() {
    assert_eq!(align_bits(0b0011, 4), 0b1100);
    assert_eq!(align_bits(0b10011, 5), 0b11001);
}

#[test]
fn test_align_bits_edges() {
    assert_eq!(align_bits(0b1010, 0), 0);
    assert_eq!(align_bits(u128::MAX, 128), u128::MAX);
}

#[test]
fn test_marker_pos() {
    // (h0 + n * h1) mod 2^64, then mod (total - width)
    assert_eq!(marker_pos((10, 7), 3, 134, 6), 31);
    assert_eq!(marker_pos((1000, 0), 9, 74, 10), 1000 % 64);
    // the addition wraps at 64 bits
    assert_eq!(marker_pos((u64::MAX, 1), 1, 138, 10), 0);
}

#[test]
fn test_bfield() {
    let mut bfield: BFieldMember<usize> = BFieldMember::in_memory(1024, 3, 64, 4).unwrap();
    // check that inserting keys adds new entries
    bfield.insert(b"test", 2);
    assert_eq!(bfield.get(b"test"), BFieldLookup::Found(2));

    bfield.insert(b"test2", 106);
    assert_eq!(bfield.get(b"test2"), BFieldLookup::Found(106));

    // test3 was never added
    assert_eq!(bfield.get(b"test3"), BFieldLookup::Missing);
}

#[test]
fn test_bfield_collisions() {
    // comically small bfield with too many (16) hashes
    // and too many bits (8) to cause saturation
    let mut bfield: BFieldMember<usize> = BFieldMember::in_memory(128, 16, 64, 8).unwrap();

    bfield.insert(b"test", 100);
    assert_eq!(bfield.get(b"test"), BFieldLookup::Indeterminate);
}

#[test]
fn test_bfield_bits_set() {
    let mut bfield: BFieldMember<usize> = BFieldMember::in_memory(128, 2, 16, 4).unwrap();

    bfield.insert(b"test", 100);
    assert_eq!(bfield.count_set_bits(), 8);
    bfield.insert(b"test2", 200);
    assert_eq!(bfield.count_set_bits(), 16);
    bfield.insert(b"test3", 300);
    assert!(bfield.count_set_bits() < 24); // 23 bits set
}

#[test]
fn test_bfield_mask_or_insert() {
    let mut bfield: BFieldMember<usize> = BFieldMember::in_memory(1024, 2, 16, 4).unwrap();

    bfield.insert(b"test", 2);
    assert_eq!(bfield.get(b"test"), BFieldLookup::Found(2));

    // `mask_or_insert`ing the same value doesn't change anything
    assert_eq!(bfield.mask_or_insert(b"test", 2), true);
    assert_eq!(bfield.get(b"test"), BFieldLookup::Found(2));

    // `mask_or_insert`ing a new value results in an indeterminate
    assert_eq!(bfield.mask_or_insert(b"test", 3), false);
    assert_eq!(bfield.get(b"test"), BFieldLookup::Indeterminate);

    // `mask_or_insert`ing an indeterminate value is still indeterminate
    assert_eq!(bfield.mask_or_insert(b"test", 3), false);
    assert_eq!(bfield.get(b"test"), BFieldLookup::Indeterminate);

    // `mask_or_insert`ing a new key just sets that key
    assert_eq!(bfield.mask_or_insert(b"test2", 2), true);
    assert_eq!(bfield.get(b"test2"), BFieldLookup::Found(2));
}

#[test]
fn test_member_monotone_bits() {
    // the popcount of the bit vector never decreases across inserts
    let mut bfield: BFieldMember<usize> = BFieldMember::in_memory(256, 3, 16, 3).unwrap();
    let mut last: usize = 0;
    for (i, key) in [&b"a"[..], b"b", b"c", b"longer key", b""].iter().enumerate() {
        bfield.insert(key, i as u32);
        let now = bfield.count_set_bits();
        assert!(now >= last);
        last = now;
    }
}

#[test]
fn test_member_fresh_is_empty() {
    // a freshly created member reports every key missing
    let bfield: BFieldMember<usize> = BFieldMember::in_memory(1024, 4, 32, 3).unwrap();
    assert_eq!(bfield.count_set_bits(), 0);
    for key in [&b""[..], b"x", b"another key", b"0123456789abcdef"] {
        assert_eq!(bfield.get(key), BFieldLookup::Missing);
    }
}

#[test]
fn test_member_info() {
    let bfield: BFieldMember<usize> = BFieldMember::in_memory(2048, 5, 24, 6).unwrap();
    assert_eq!(bfield.info(), (2048, 5, 24, 6));
}
