use vstd::prelude::*;

verus! {

/// Number of hash slots the key space is divided into.
pub const SLOT_COUNT: u16 = 16384;

/// The slot that the CRC16 (XMODEM) of `data`, reduced modulo the slot
/// count, designates.
pub uninterp spec fn crc_slot(data: Seq<u8>) -> u16;

/// Position of the first byte equal to `b` at or after `from`, if any.
pub open spec fn first_from(s: Seq<u8>, b: u8, from: int) -> Option<int>
    decreases s.len() - from,
{
    if from < 0 || from >= s.len() {
        None
    } else if s[from] == b {
        Some(from)
    } else {
        first_from(s, b, from + 1)
    }
}

/// The hash tag of a key: the bytes between the first `{` and the first `}`
/// after it, when that range is not empty.
pub open spec fn hash_tag(key: Seq<u8>) -> Option<Seq<u8>> {
    match first_from(key, 0x7b, 0) {
        None => None,
        Some(open) => match first_from(key, 0x7d, open) {
            None => None,
            Some(close) => if close == open + 1 {
                None
            } else {
                Some(key.subrange(open + 1, close))
            },
        },
    }
}

/// The bytes of a key that decide its slot: its hash tag, or the whole key.
pub open spec fn routing_bytes(key: Seq<u8>) -> Seq<u8> {
    match hash_tag(key) {
        Some(tag) => tag,
        None => key,
    }
}

/// The slot of a key.
pub open spec fn key_slot_spec(key: Seq<u8>) -> u16 {
    crc_slot(routing_bytes(key))
}

/// Relies on redis::cluster_routing::get_slot: the CRC16 (XMODEM) of the
/// key's hash tag, or of the whole key when it has none, modulo 16384.
#[verifier::external_body]
fn redis_get_slot(key: &[u8]) -> (r: u16)
    ensures
        r == crc_slot(routing_bytes(key@)),
        r < SLOT_COUNT,
{
    redis::cluster_routing::get_slot(key)
}

/// The hash slot that owns `key`.
pub fn key_slot(key: &[u8]) -> (r: u16)
    ensures
        r == key_slot_spec(key@),
        r < SLOT_COUNT,
{
    redis_get_slot(key)
}

/// Keys that carry the same hash tag land in the same slot.
pub proof fn lemma_same_tag_same_slot(k1: Seq<u8>, k2: Seq<u8>, tag: Seq<u8>)
    requires
        hash_tag(k1) == Some(tag),
        hash_tag(k2) == Some(tag),
    ensures
        key_slot_spec(k1) == key_slot_spec(k2),
{
}

/// The slot of a key depends on the key's bytes alone: equal keys always
/// land in the same slot.
pub proof fn lemma_slot_deterministic(k1: Seq<u8>, k2: Seq<u8>)
    requires
        k1 == k2,
    ensures
        key_slot_spec(k1) == key_slot_spec(k2),
{
}

} // verus!
