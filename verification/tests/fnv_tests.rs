use arceos_core::fnv::{hash, FnvHasher, FNV_OFFSET_BASIS};

#[test]
fn fresh_hasher_finishes_with_offset_basis() {
    let h = FnvHasher::new();
    assert_eq!(h.finish(), 0xcbf2_9ce4_8422_2325);
    assert_eq!(h.finish(), FNV_OFFSET_BASIS);
}

#[test]
fn hasher_matches_fnv1a_vectors() {
    let mut h = FnvHasher::new();
    h.write(b"a");
    assert_eq!(h.finish(), 0xaf63_dc4c_8601_ec8c);
    let mut h = FnvHasher::new();
    h.write(b"foobar");
    assert_eq!(h.finish(), 0x8594_4171_f739_67e8);
    let mut h = FnvHasher::new();
    h.write(b"");
    assert_eq!(h.finish(), FNV_OFFSET_BASIS);
}

#[test]
fn writing_in_pieces_equals_writing_at_once() {
    let mut whole = FnvHasher::new();
    whole.write(b"foobar");
    let mut parts = FnvHasher::new();
    parts.write(b"foo");
    parts.write(b"bar");
    assert_eq!(whole.finish(), parts.finish());
}

#[test]
fn hash_of_u64_keys() {
    assert_eq!(hash(&0), 0xa8c7_f832_281a_39c5);
    assert_eq!(hash(&1), 0x89cd_3129_1d2a_efa4);
    assert_eq!(hash(&42), 0xff3a_dd6b_3789_daef);
    assert_eq!(hash(&0xdead_beef), 0x7513_fc78_a110_e05b);
}

#[test]
fn hash_of_u64_is_hash_of_its_little_endian_bytes() {
    let mut h = FnvHasher::new();
    h.write(&12345u64.to_le_bytes());
    assert_eq!(hash(&12345), h.finish());
}
