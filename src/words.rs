use vstd::prelude::*;

verus! {

// Command names and keywords of the protocol, as the bytes on the wire.

/// `CLUSTER`
pub const KW_CLUSTER: [u8; 7] = [0x43u8, 0x4c, 0x55, 0x53, 0x54, 0x45, 0x52];

/// `KEYSLOT`
pub const KW_KEYSLOT: [u8; 7] = [0x4bu8, 0x45, 0x59, 0x53, 0x4c, 0x4f, 0x54];

/// `SLOTS`
pub const KW_SLOTS: [u8; 5] = [0x53u8, 0x4c, 0x4f, 0x54, 0x53];

/// `MYID`
pub const KW_MYID: [u8; 4] = [0x4du8, 0x59, 0x49, 0x44];

/// `XGROUP`
pub const KW_XGROUP: [u8; 6] = [0x58u8, 0x47, 0x52, 0x4f, 0x55, 0x50];

/// `XINFO`
pub const KW_XINFO: [u8; 5] = [0x58u8, 0x49, 0x4e, 0x46, 0x4f];

/// `ZMPOP`
pub const KW_ZMPOP: [u8; 5] = [0x5au8, 0x4d, 0x50, 0x4f, 0x50];

/// `BZMPOP`
pub const KW_BZMPOP: [u8; 6] = [0x42u8, 0x5a, 0x4d, 0x50, 0x4f, 0x50];

/// `ZDIFF`
pub const KW_ZDIFF: [u8; 5] = [0x5au8, 0x44, 0x49, 0x46, 0x46];

/// `ZINTER`
pub const KW_ZINTER: [u8; 6] = [0x5au8, 0x49, 0x4e, 0x54, 0x45, 0x52];

/// `ZINTERCARD`
pub const KW_ZINTERCARD: [u8; 10] = [0x5au8, 0x49, 0x4e, 0x54, 0x45, 0x52, 0x43, 0x41, 0x52, 0x44];

/// `ZINTERSTORE`
pub const KW_ZINTERSTORE: [u8; 11] = [0x5au8, 0x49, 0x4e, 0x54, 0x45, 0x52, 0x53, 0x54, 0x4f, 0x52, 0x45];

/// `ZUNION`
pub const KW_ZUNION: [u8; 6] = [0x5au8, 0x55, 0x4e, 0x49, 0x4f, 0x4e];

/// `EVAL`
pub const KW_EVAL: [u8; 4] = [0x45u8, 0x56, 0x41, 0x4c];

/// `ZDIFFSTORE`
pub const KW_ZDIFFSTORE: [u8; 10] = [0x5au8, 0x44, 0x49, 0x46, 0x46, 0x53, 0x54, 0x4f, 0x52, 0x45];

/// `ZUNIONSTORE`
pub const KW_ZUNIONSTORE: [u8; 11] = [0x5au8, 0x55, 0x4e, 0x49, 0x4f, 0x4e, 0x53, 0x54, 0x4f, 0x52, 0x45];

/// `XREAD`
pub const KW_XREAD: [u8; 5] = [0x58u8, 0x52, 0x45, 0x41, 0x44];

/// `XREADGROUP`
pub const KW_XREADGROUP: [u8; 10] = [0x58u8, 0x52, 0x45, 0x41, 0x44, 0x47, 0x52, 0x4f, 0x55, 0x50];

/// `BLOCK`
pub const KW_BLOCK: [u8; 5] = [0x42u8, 0x4c, 0x4f, 0x43, 0x4b];

/// `STREAMS`
pub const KW_STREAMS: [u8; 7] = [0x53u8, 0x54, 0x52, 0x45, 0x41, 0x4d, 0x53];

/// `MIGRATE`
pub const KW_MIGRATE: [u8; 7] = [0x4du8, 0x49, 0x47, 0x52, 0x41, 0x54, 0x45];

/// `KEYS`
pub const KW_KEYS: [u8; 4] = [0x4bu8, 0x45, 0x59, 0x53];

/// `INFO`
pub const KW_INFO: [u8; 4] = [0x49u8, 0x4e, 0x46, 0x4f];

/// `CLIENT`
pub const KW_CLIENT: [u8; 6] = [0x43u8, 0x4c, 0x49, 0x45, 0x4e, 0x54];

/// `BLPOP`
pub const KW_BLPOP: [u8; 5] = [0x42u8, 0x4c, 0x50, 0x4f, 0x50];

/// `BRPOP`
pub const KW_BRPOP: [u8; 5] = [0x42u8, 0x52, 0x50, 0x4f, 0x50];

/// `AUTH`
pub const KW_AUTH: [u8; 4] = [0x41u8, 0x55, 0x54, 0x48];

/// `ACL`
pub const KW_ACL: [u8; 3] = [0x41u8, 0x43, 0x4c];

/// `GENPASS`
pub const KW_GENPASS: [u8; 7] = [0x47u8, 0x45, 0x4e, 0x50, 0x41, 0x53, 0x53];

/// `WHOAMI`
pub const KW_WHOAMI: [u8; 6] = [0x57u8, 0x48, 0x4f, 0x41, 0x4d, 0x49];

/// `SET`
pub const KW_SET: [u8; 3] = [0x53u8, 0x45, 0x54];

/// `GET`
pub const KW_GET: [u8; 3] = [0x47u8, 0x45, 0x54];

/// `EX`
pub const KW_EX: [u8; 2] = [0x45u8, 0x58];

/// `PX`
pub const KW_PX: [u8; 2] = [0x50u8, 0x58];

/// `TTL`
pub const KW_TTL: [u8; 3] = [0x54u8, 0x54, 0x4c];

/// `EXPIRE`
pub const KW_EXPIRE: [u8; 6] = [0x45u8, 0x58, 0x50, 0x49, 0x52, 0x45];

/// `EXISTS`
pub const KW_EXISTS: [u8; 6] = [0x45u8, 0x58, 0x49, 0x53, 0x54, 0x53];

/// `DEL`
pub const KW_DEL: [u8; 3] = [0x44u8, 0x45, 0x4c];

/// `HGETALL`
pub const KW_HGETALL: [u8; 7] = [0x48u8, 0x47, 0x45, 0x54, 0x41, 0x4c, 0x4c];

/// `HSET`
pub const KW_HSET: [u8; 4] = [0x48u8, 0x53, 0x45, 0x54];

/// `HDEL`
pub const KW_HDEL: [u8; 4] = [0x48u8, 0x44, 0x45, 0x4c];

/// `HMGET`
pub const KW_HMGET: [u8; 5] = [0x48u8, 0x4d, 0x47, 0x45, 0x54];

/// `HGET`
pub const KW_HGET: [u8; 4] = [0x48u8, 0x47, 0x45, 0x54];

/// `HEXISTS`
pub const KW_HEXISTS: [u8; 7] = [0x48u8, 0x45, 0x58, 0x49, 0x53, 0x54, 0x53];

/// `LPUSH`
pub const KW_LPUSH: [u8; 5] = [0x4cu8, 0x50, 0x55, 0x53, 0x48];

/// `RPUSH`
pub const KW_RPUSH: [u8; 5] = [0x52u8, 0x50, 0x55, 0x53, 0x48];

/// `LPOP`
pub const KW_LPOP: [u8; 4] = [0x4cu8, 0x50, 0x4f, 0x50];

/// `LLEN`
pub const KW_LLEN: [u8; 4] = [0x4cu8, 0x4c, 0x45, 0x4e];

/// `LRANGE`
pub const KW_LRANGE: [u8; 6] = [0x4cu8, 0x52, 0x41, 0x4e, 0x47, 0x45];

/// `LREM`
pub const KW_LREM: [u8; 4] = [0x4cu8, 0x52, 0x45, 0x4d];

/// `XADD`
pub const KW_XADD: [u8; 4] = [0x58u8, 0x41, 0x44, 0x44];

/// `NOMKSTREAM`
pub const KW_NOMKSTREAM: [u8; 10] = [0x4eu8, 0x4f, 0x4d, 0x4b, 0x53, 0x54, 0x52, 0x45, 0x41, 0x4d];

/// `CREATE`
pub const KW_CREATE: [u8; 6] = [0x43u8, 0x52, 0x45, 0x41, 0x54, 0x45];

/// `GROUP`
pub const KW_GROUP: [u8; 5] = [0x47u8, 0x52, 0x4f, 0x55, 0x50];

/// `XACK`
pub const KW_XACK: [u8; 4] = [0x58u8, 0x41, 0x43, 0x4b];

/// `STREAM`
pub const KW_STREAM: [u8; 6] = [0x53u8, 0x54, 0x52, 0x45, 0x41, 0x4d];

/// `GROUPS`
pub const KW_GROUPS: [u8; 6] = [0x47u8, 0x52, 0x4f, 0x55, 0x50, 0x53];

/// `CONSUMERS`
pub const KW_CONSUMERS: [u8; 9] = [0x43u8, 0x4f, 0x4e, 0x53, 0x55, 0x4d, 0x45, 0x52, 0x53];

/// `PFADD`
pub const KW_PFADD: [u8; 5] = [0x50u8, 0x46, 0x41, 0x44, 0x44];

/// `PFCOUNT`
pub const KW_PFCOUNT: [u8; 7] = [0x50u8, 0x46, 0x43, 0x4f, 0x55, 0x4e, 0x54];

/// `PFMERGE`
pub const KW_PFMERGE: [u8; 7] = [0x50u8, 0x46, 0x4d, 0x45, 0x52, 0x47, 0x45];

/// `ZADD`
pub const KW_ZADD: [u8; 4] = [0x5au8, 0x41, 0x44, 0x44];

/// `ZREM`
pub const KW_ZREM: [u8; 4] = [0x5au8, 0x52, 0x45, 0x4d];

/// `ZCARD`
pub const KW_ZCARD: [u8; 5] = [0x5au8, 0x43, 0x41, 0x52, 0x44];

/// The byte sequences held by a list of byte strings.
pub open spec fn bytes_views(v: Seq<Vec<u8>>) -> Seq<Seq<u8>> {
    Seq::new(v.len(), |i: int| v[i]@)
}

/// Whether two byte strings are equal.
pub fn bytes_eq(a: &[u8], b: &[u8]) -> (r: bool)
    ensures
        r == (a@ == b@),
{
    if a.len() != b.len() {
        return false;
    }
    let mut i: usize = 0;
    while i < a.len()
        invariant
            a@.len() == b@.len(),
            0 <= i <= a@.len(),
            forall|j: int| 0 <= j < i ==> a@[j] == b@[j],
        decreases a@.len() - i,
    {
        if a[i] != b[i] {
            return false;
        }
        i += 1;
    }
    assert(a@ =~= b@);
    true
}

/// A copy of a list of byte strings.
pub fn copy_bytes_list(v: &Vec<Vec<u8>>) -> (r: Vec<Vec<u8>>)
    ensures
        bytes_views(r@) == bytes_views(v@),
{
    let mut r: Vec<Vec<u8>> = Vec::new();
    let mut i: usize = 0;
    while i < v.len()
        invariant
            0 <= i <= v@.len(),
            bytes_views(r@) == bytes_views(v@.take(i as int)),
        decreases v@.len() - i,
    {
        let x = vstd::slice::slice_to_vec(v[i].as_slice());
        let ghost before = r@;
        r.push(x);
        assert(bytes_views(r@) =~= bytes_views(v@.take(i + 1))) by {
            assert(bytes_views(before).len() == i);
            assert(before.len() == i);
            assert(r@ == before.push(x));
            assert(x@ == v@[i as int]@);
            assert forall|j: int| 0 <= j < i implies r@[j]@ == v@[j]@ by {
                assert(r@[j] == before[j]);
                assert(bytes_views(before)[j] == bytes_views(v@.take(i as int))[j]);
                assert(v@.take(i as int)[j] == v@[j]);
            }
        }
        i += 1;
    }
    assert(v@.take(i as int) =~= v@);
    r
}

/// Appends the bytes of `s` to `out`.
pub fn append_bytes(out: &mut Vec<u8>, s: &[u8])
    ensures
        final(out)@ == old(out)@ + s@,
{
    let ghost start = out@;
    let mut i: usize = 0;
    while i < s.len()
        invariant
            0 <= i <= s@.len(),
            out@ == start + s@.take(i as int),
        decreases s@.len() - i,
    {
        out.push(s[i]);
        assert(s@.take(i + 1) =~= s@.take(i as int).push(s@[i as int]));
        i += 1;
    }
    assert(s@.take(i as int) =~= s@);
}

/// Whether every byte is an ASCII digit.
pub open spec fn all_digits(s: Seq<u8>) -> bool {
    forall|i: int| 0 <= i < s.len() ==> 0x30 <= #[trigger] s[i] <= 0x39
}

/// The number that a string of decimal digits spells.
pub open spec fn digits_value(s: Seq<u8>) -> nat
    decreases s.len(),
{
    if s.len() == 0 {
        0
    } else {
        digits_value(s.drop_last()) * 10 + (s.last() - 0x30) as nat
    }
}

/// An unsigned number as text: an optional `+`, then decimal digits whose
/// value is at most `max`.
pub open spec fn parse_dec(s: Seq<u8>, max: nat) -> Option<nat> {
    let d = if s.len() > 0 && s[0] == 0x2b {
        s.subrange(1, s.len() as int)
    } else {
        s
    };
    if d.len() > 0 && all_digits(d) && digits_value(d) <= max {
        Some(digits_value(d))
    } else {
        None
    }
}

/// A longer prefix of digits never spells a smaller number.
pub proof fn lemma_digits_grow(d: Seq<u8>, n: int)
    requires
        0 <= n <= d.len(),
        all_digits(d),
    ensures
        digits_value(d.take(n)) <= digits_value(d),
    decreases d.len() - n,
{
    if n < d.len() {
        lemma_digits_grow(d, n + 1);
        let t = d.take(n + 1);
        assert(t.drop_last() =~= d.take(n));
        assert(0x30 <= t.last());
    } else {
        assert(d.take(n) =~= d);
    }
}

/// Reads an unsigned number of at most `max`.
pub fn read_dec(s: &[u8], max: u64) -> (r: Option<u64>)
    ensures
        match r {
            Some(v) => parse_dec(s@, max as nat) == Some(v as nat),
            None => parse_dec(s@, max as nat).is_none(),
        },
{
    let start: usize = if s.len() > 0 && s[0] == 0x2bu8 { 1 } else { 0 };
    let ghost d = if s@.len() > 0 && s@[0] == 0x2b { s@.subrange(1, s@.len() as int) } else { s@ };
    assert(d =~= s@.subrange(start as int, s@.len() as int));
    if start >= s.len() {
        return None;
    }
    let mut val: u64 = 0;
    let mut j: usize = start;
    while j < s.len()
        invariant
            d == s@.subrange(start as int, s@.len() as int),
            parse_dec(s@, max as nat) == (if d.len() > 0 && all_digits(d) && digits_value(d) <= max {
                Some(digits_value(d))
            } else {
                None::<nat>
            }),
            d.len() > 0,
            start <= j <= s@.len(),
            all_digits(d.take(j - start)),
            val as nat == digits_value(d.take(j - start)),
            val <= max,
        decreases s@.len() - j,
    {
        let b = s[j];
        let ghost t = d.take(j - start + 1);
        assert(t.drop_last() =~= d.take(j - start));
        assert(t.last() == b);
        if b < 0x30u8 || b > 0x39u8 {
            assert(!all_digits(d)) by {
                assert(d[j - start] == b);
            }
            return None;
        }
        let next: u128 = val as u128 * 10 + (b - 0x30u8) as u128;
        assert(next as nat == digits_value(t));
        if next > max as u128 {
            proof {
                if all_digits(d) {
                    lemma_digits_grow(d, j - start + 1);
                }
            }
            return None;
        }
        val = next as u64;
        j += 1;
    }
    assert(d.take(j - start) =~= d);
    Some(val)
}

/// The decimal digits of a natural number.
pub open spec fn dec_nat(n: nat) -> Seq<u8>
    decreases n,
{
    if n < 10 {
        seq![(0x30 + n) as u8]
    } else {
        dec_nat(n / 10).push((0x30 + n % 10) as u8)
    }
}

/// The decimal text of an integer, with a leading `-` when negative.
pub open spec fn dec_int(n: int) -> Seq<u8> {
    if n < 0 {
        seq![0x2du8] + dec_nat((-n) as nat)
    } else {
        dec_nat(n as nat)
    }
}

/// Appends the decimal digits of `n`.
pub fn push_dec(n: u64, out: &mut Vec<u8>)
    ensures
        final(out)@ == old(out)@ + dec_nat(n as nat),
    decreases n,
{
    if n < 10 {
        out.push((0x30 + n) as u8);
    } else {
        push_dec(n / 10, out);
        out.push((0x30 + n % 10) as u8);
    }
    assert(final(out)@ =~= old(out)@ + dec_nat(n as nat));
}

/// The decimal text of an integer.
pub fn dec_text(n: i64) -> (r: Vec<u8>)
    ensures
        r@ == dec_int(n as int),
{
    let mut out: Vec<u8> = Vec::new();
    if n < 0 {
        out.push(0x2du8);
        let m: u64 = (0i128 - n as i128) as u64;
        push_dec(m, &mut out);
    } else {
        push_dec(n as u64, &mut out);
    }
    assert(out@ =~= dec_int(n as int));
    out
}

} // verus!
