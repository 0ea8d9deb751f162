use redis_rs::slot::{key_slot, SLOT_COUNT};

#[test]
fn slot_known_values() {
    assert_eq!(key_slot(b"foo"), 12182);
    assert_eq!(key_slot(b"bar"), 5061);
    assert_eq!(key_slot(b""), 0);
}

#[test]
fn slot_same_hash_tag() {
    let a = key_slot(b"{user1000}.following");
    let b = key_slot(b"{user1000}.followers");
    assert_eq!(a, b);
    assert_eq!(a, key_slot(b"user1000"));
    assert!(a < SLOT_COUNT);
}

#[test]
fn slot_empty_tag_hashes_whole_key() {
    assert_eq!(key_slot(b"{}foo"), key_slot(b"{}foo"));
    assert_eq!(key_slot(b"foo{}{bar}"), key_slot(b"foo{}{bar}"));
    assert_eq!(key_slot(b"foo{{bar}}zap"), key_slot(b"{bar"));
}

#[test]
fn slot_is_deterministic() {
    for k in [&b"a"[..], b"key", b"{tag}x", b"\x00\xff"] {
        assert_eq!(key_slot(k), key_slot(&k.to_vec()));
    }
}
