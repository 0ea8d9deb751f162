//! Stream commands: appending, consumer groups, reads and descriptions.
use vstd::prelude::*;
use crate::assoc::{assoc, find_key, keys_unique, lemma_assoc_len, lemma_assoc_push, lemma_assoc_unique, lemma_assoc_update};
use crate::error::RedisError;
use crate::mock::{Data, DataView, Entry, EntryView, MockRedis, StreamEntry, StreamEntryView, StreamId, bulk_is, count_int, count_reply, entries_reply_is, entry_reply, entry_reply_is, group_views, id_after, id_text, id_text_of, ids_increase, int_is, is_nil, meta_at, pair_views, simple_is, stream_views, tail_from};
use crate::reply::Reply;
use crate::words::{KW_CONSUMERS, KW_CREATE, KW_GROUP, KW_GROUPS, KW_NOMKSTREAM, KW_STREAM, KW_STREAMS, bytes_eq, bytes_views};

verus! {

/// The entries of the stream under a key: none when the key holds no stream.
pub open spec fn stream_at(old: Map<Seq<u8>, EntryView>, k: Seq<u8>) -> Seq<StreamEntryView> {
    if old.contains_key(k) {
        match old[k].0 {
            DataView::Stream(s) => s,
            _ => seq![],
        }
    } else {
        seq![]
    }
}

/// The id of the next entry of a stream: the clock's milliseconds with
/// sequence 0 when the clock is past the last id, else the last id's
/// successor. The first id is never `0-0`. None when no id is left.
pub open spec fn next_id(s: Seq<StreamEntryView>, now: u64) -> Option<StreamId> {
    if s.len() == 0 {
        if now == 0 {
            Some((0, 1))
        } else {
            Some((now, 0))
        }
    } else {
        let l = s.last().0;
        if now > l.0 {
            Some((now, 0))
        } else if l.1 < u64::MAX {
            Some((l.0, (l.1 + 1) as u64))
        } else if l.0 < u64::MAX {
            Some(((l.0 + 1) as u64, 0))
        } else {
            None
        }
    }
}

/// The tokens other than `w`, in order.
pub open spec fn drop_word(s: Seq<Seq<u8>>, w: Seq<u8>) -> Seq<Seq<u8>>
    decreases s.len(),
{
    if s.len() == 0 {
        seq![]
    } else if s.last() == w {
        drop_word(s.drop_last(), w)
    } else {
        drop_word(s.drop_last(), w).push(s.last())
    }
}

/// Field/value pairs of a token list; with an odd count the first token
/// (the id argument) is not part of them.
pub open spec fn field_pairs(s: Seq<Seq<u8>>) -> Seq<(Seq<u8>, Seq<u8>)> {
    let o = s.len() % 2;
    Seq::new(s.len() / 2, |i: int| (s[o + 2 * i], s[o + 2 * i + 1]))
}

/// `XADD key [NOMKSTREAM] [id] field value...`: appends an entry with the
/// next id to the stream (a key holding something else becomes a stream)
/// and replies with the id. With `NOMKSTREAM` and no such key, or when no id
/// is left, nothing changes and the reply is nil.
pub open spec fn xadd_post(old: Map<Seq<u8>, EntryView>, new: Map<Seq<u8>, EntryView>, a: Seq<Seq<u8>>, now: u64, r: Reply) -> bool {
    if a.len() < 2 {
        new == old && is_nil(r)
    } else {
        let k = a[1];
        let rest = tail_from(a, 2);
        if (rest.contains(KW_NOMKSTREAM@) && !old.contains_key(k)) || next_id(stream_at(old, k), now).is_none() {
            new == old && is_nil(r)
        } else {
            let id = next_id(stream_at(old, k), now).unwrap();
            &&& new == old.insert(
                k,
                (DataView::Stream(stream_at(old, k).push((id, field_pairs(drop_word(rest, KW_NOMKSTREAM@))))), meta_at(old, k).0, meta_at(old, k).1),
            )
            &&& simple_is(r, id_text(id))
        }
    }
}

/// The id of a stream's last entry, or `0-0`.
pub open spec fn last_id(s: Seq<StreamEntryView>) -> StreamId {
    if s.len() > 0 {
        s.last().0
    } else {
        (0, 0)
    }
}

/// `XGROUP CREATE stream [group ...]`: makes the key a stream if it is not
/// one, and records the group at the stream's last id. Other forms change
/// nothing. The reply is nil.
pub open spec fn xgroup_post(old: Map<Seq<u8>, EntryView>, new: Map<Seq<u8>, EntryView>, a: Seq<Seq<u8>>, r: Reply) -> bool {
    &&& is_nil(r)
    &&& if a.len() >= 3 && a[1] == KW_CREATE@ {
        let k = a[2];
        let s = stream_at(old, k);
        let groups = if a.len() >= 4 {
            meta_at(old, k).1.insert(a[3], last_id(s))
        } else {
            meta_at(old, k).1
        };
        new == old.insert(k, (DataView::Stream(s), meta_at(old, k).0, groups))
    } else {
        new == old
    }
}

/// The entries after `start`, in order.
pub open spec fn entries_after(s: Seq<StreamEntryView>, start: StreamId) -> Seq<StreamEntryView>
    decreases s.len(),
{
    if s.len() == 0 {
        seq![]
    } else if id_after(s.last().0, start) {
        entries_after(s.drop_last(), start).push(s.last())
    } else {
        entries_after(s.drop_last(), start)
    }
}

/// A stream id as text: `ms-seq`, or `ms` for sequence 0.
pub open spec fn parse_id(t: Seq<u8>) -> Option<StreamId> {
    match crate::slot::first_from(t, 0x2d, 0) {
        Some(d) => match (
            crate::words::parse_dec(t.take(d), u64::MAX as nat),
            crate::words::parse_dec(t.subrange(d + 1, t.len() as int), u64::MAX as nat),
        ) {
            (Some(ms), Some(sq)) => Some((ms as u64, sq as u64)),
            _ => None,
        },
        None => match crate::words::parse_dec(t, u64::MAX as nat) {
            Some(ms) => Some((ms as u64, 0)),
            None => None,
        },
    }
}

/// Where a read of a stream starts (exclusive): `>` is the group's offset,
/// `$` is now, other ids as written. An id that does not read, and `>`
/// without a group or for a group the stream lacks, start past every id.
pub open spec fn start_id(e: EntryView, idt: Seq<u8>, group: Option<Seq<u8>>, now: u64) -> StreamId {
    if idt == seq![0x3eu8] {
        match group {
            Some(g) => if e.2.contains_key(g) {
                e.2[g]
            } else {
                (u64::MAX, u64::MAX)
            },
            None => (u64::MAX, u64::MAX),
        }
    } else if idt == seq![0x24u8] {
        (now, u64::MAX)
    } else {
        match parse_id(idt) {
            Some(id) => id,
            None => (u64::MAX, u64::MAX),
        }
    }
}

/// Reading one stream: the store after moving the group's offset to the
/// last entry delivered, and the entries delivered. A missing key delivers
/// nothing.
pub open spec fn read_step(st: Map<Seq<u8>, EntryView>, name: Seq<u8>, idt: Seq<u8>, group: Option<Seq<u8>>, now: u64) -> (Map<Seq<u8>, EntryView>, Seq<StreamEntryView>) {
    if !st.contains_key(name) {
        (st, seq![])
    } else {
        let e = st[name];
        let items = entries_after(stream_at(st, name), start_id(e, idt, group, now));
        match group {
            Some(g) => if items.len() > 0 {
                (st.insert(name, (e.0, e.1, e.2.insert(g, items.last().0))), items)
            } else {
                (st, items)
            },
            None => (st, items),
        }
    }
}

/// Reading the streams in order: the store after, and each stream that
/// delivered entries with those entries.
pub open spec fn read_fold(st: Map<Seq<u8>, EntryView>, pairs: Seq<(Seq<u8>, Seq<u8>)>, group: Option<Seq<u8>>, now: u64) -> (Map<Seq<u8>, EntryView>, Seq<(Seq<u8>, Seq<StreamEntryView>)>)
    decreases pairs.len(),
{
    if pairs.len() == 0 {
        (st, seq![])
    } else {
        let (st1, out1) = read_fold(st, pairs.drop_last(), group, now);
        let (st2, items) = read_step(st1, pairs.last().0, pairs.last().1, group, now);
        (st2, if items.len() > 0 { out1.push((pairs.last().0, items)) } else { out1 })
    }
}

/// The options of a stream read from index `i`: the group named after
/// `GROUP` (which is followed by a consumer), and the index after `STREAMS`.
pub open spec fn read_opts(a: Seq<Seq<u8>>, i: int, group: Option<Seq<u8>>) -> (Option<Seq<u8>>, int)
    decreases a.len() - i,
{
    if i < 0 || i >= a.len() {
        (group, a.len() as int)
    } else if a[i] == KW_GROUP@ {
        read_opts(
            a,
            if i + 3 <= a.len() { i + 3 } else { a.len() as int },
            if i + 1 < a.len() { Some(a[i + 1]) } else { None },
        )
    } else if a[i] == KW_STREAMS@ {
        (group, i + 1)
    } else {
        read_opts(a, i + 1, group)
    }
}

/// The (stream, id) pairs after `STREAMS`: the ids are the last half of the
/// tokens, the streams the first half.
pub open spec fn stream_pairs(rest: Seq<Seq<u8>>) -> Seq<(Seq<u8>, Seq<u8>)> {
    let n = rest.len() / 2;
    Seq::new(n, |j: int| (rest[j], rest[rest.len() - n + j]))
}

/// A group read names a group that a stream read with `>` lacks.
pub open spec fn lacks_group(st: Map<Seq<u8>, EntryView>, pairs: Seq<(Seq<u8>, Seq<u8>)>, group: Option<Seq<u8>>) -> bool {
    match group {
        Some(g) => exists|j: int|
            0 <= j < pairs.len() && (#[trigger] pairs[j]).1 == seq![0x3eu8] && st.contains_key(pairs[j].0)
                && !st[pairs[j].0].2.contains_key(g),
        None => false,
    }
}

/// `r` lists each stream with its entries: `[name, [entry...], ...]`.
pub open spec fn streams_reply_is(r: Reply, out: Seq<(Seq<u8>, Seq<StreamEntryView>)>) -> bool {
    match r {
        Reply::Array(v) => v@.len() == 2 * out.len() && forall|j: int|
            0 <= j < out.len() ==> simple_is(v@[2 * j], (#[trigger] out[j]).0) && entries_reply_is(
                v@[2 * j + 1],
                out[j].1,
            ),
        _ => false,
    }
}

/// `XREAD`/`XREADGROUP ... STREAMS stream... id...`: the entries of each
/// stream after its id, a group read moving the group's offset to the last
/// entry delivered. A group read that names a group a stream lacks fails and
/// changes nothing, with an error whose text starts with `NOGROUP`.
pub open spec fn xread_post(old: Map<Seq<u8>, EntryView>, new: Map<Seq<u8>, EntryView>, a: Seq<Seq<u8>>, now: u64, r: Result<Reply, RedisError>) -> bool {
    let (group, start) = read_opts(a, 1, None);
    let pairs = stream_pairs(tail_from(a, start));
    if lacks_group(old, pairs, group) {
        new == old && (r matches Err(RedisError::CommandError(t)) && t@ == NOGROUP_TEXT@)
    } else {
        let (st, out) = read_fold(old, pairs, group, now);
        new == st && match r {
            Ok(rep) => streams_reply_is(rep, out),
            Err(_) => false,
        }
    }
}

/// `XACK key ...`: 1 when the key holds a stream, else 0.
pub open spec fn xack_post(old: Map<Seq<u8>, EntryView>, a: Seq<Seq<u8>>, r: Reply) -> bool {
    int_is(r, if a.len() >= 2 && old.contains_key(a[1]) && old[a[1]].0 matches DataView::Stream(_) { 1 } else { 0 })
}

/// `name`
pub const T_NAME: [u8; 4] = [0x6eu8, 0x61, 0x6d, 0x65];

/// `messages`
pub const T_MESSAGES: [u8; 8] = [0x6du8, 0x65, 0x73, 0x73, 0x61, 0x67, 0x65, 0x73];

/// `groups`
pub const T_GROUPS_L: [u8; 6] = [0x67u8, 0x72, 0x6f, 0x75, 0x70, 0x73];

/// `a`
pub const T_A: [u8; 1] = [0x61u8];

/// `b`
pub const T_B: [u8; 1] = [0x62u8];

/// `c`
pub const T_C: [u8; 1] = [0x63u8];

/// `d`
pub const T_D: [u8; 1] = [0x64u8];

/// `stream`
pub const T_STREAM_L: [u8; 6] = [0x73u8, 0x74, 0x72, 0x65, 0x61, 0x6d];

/// `group`
pub const T_GROUP_L: [u8; 5] = [0x67u8, 0x72, 0x6f, 0x75, 0x70];

/// `id`
pub const T_ID_L: [u8; 2] = [0x69u8, 0x64];

/// `consumers`
pub const T_CONSUMERS_L: [u8; 9] = [0x63u8, 0x6f, 0x6e, 0x73, 0x75, 0x6d, 0x65, 0x72, 0x73];

/// `1`
pub const T_ONE: [u8; 1] = [0x31u8];

/// `r` is the integer 0.
pub open spec fn zero_is(r: Reply) -> bool {
    int_is(r, 0)
}

/// The reply of `XINFO STREAM`: name, message count, group count, and four
/// fixed fields.
pub open spec fn stream_info_is(r: Reply, k: Seq<u8>, messages: nat, groups: nat) -> bool {
    match r {
        Reply::Array(v) => {
            &&& v@.len() == 14
            &&& simple_is(v@[0], T_NAME@) && bulk_is(v@[1], k)
            &&& simple_is(v@[2], T_MESSAGES@) && int_is(v@[3], count_int(messages))
            &&& simple_is(v@[4], T_GROUPS_L@) && int_is(v@[5], count_int(groups))
            &&& simple_is(v@[6], T_A@) && zero_is(v@[7])
            &&& simple_is(v@[8], T_B@) && zero_is(v@[9])
            &&& simple_is(v@[10], T_C@) && zero_is(v@[11])
            &&& simple_is(v@[12], T_D@) && zero_is(v@[13])
        },
        _ => false,
    }
}

/// One group as `XINFO GROUPS` lists it.
pub open spec fn group_info_is(r: Reply, k: Seq<u8>, g: (Seq<u8>, StreamId)) -> bool {
    match r {
        Reply::Array(v) => {
            &&& v@.len() == 8
            &&& simple_is(v@[0], T_STREAM_L@) && bulk_is(v@[1], k)
            &&& simple_is(v@[2], T_GROUP_L@) && simple_is(v@[3], g.0)
            &&& simple_is(v@[4], T_ID_L@) && simple_is(v@[5], id_text(g.1))
            &&& simple_is(v@[6], T_CONSUMERS_L@) && bulk_is(v@[7], T_ONE@)
        },
        _ => false,
    }
}

/// The reply of `XINFO GROUPS`: each group once.
pub open spec fn groups_info_is(r: Reply, k: Seq<u8>, gs: Map<Seq<u8>, StreamId>) -> bool {
    match r {
        Reply::Array(v) => exists|p: Seq<(Seq<u8>, StreamId)>|
            #[trigger] assoc(p) == gs && keys_unique(p) && v@.len() == p.len() && forall|i: int|
                0 <= i < v@.len() ==> group_info_is(#[trigger] v@[i], k, p[i]),
        _ => false,
    }
}

/// The reply of `XINFO CONSUMERS`: one consumer record naming the stream
/// and group, with one consumer when the group exists.
pub open spec fn consumers_info_is(r: Reply, k: Seq<u8>, g: Option<Seq<u8>>, has: bool) -> bool {
    match r {
        Reply::Array(outer) => outer@.len() == 1 && match outer@[0] {
            Reply::Array(v) => match g {
                None => v@.len() == 0,
                Some(g) => {
                    &&& v@.len() == (if has { 6int } else { 4int })
                    &&& simple_is(v@[0], T_STREAM_L@) && bulk_is(v@[1], k)
                    &&& simple_is(v@[2], T_GROUP_L@) && bulk_is(v@[3], g)
                    &&& has ==> simple_is(v@[4], T_CONSUMERS_L@) && bulk_is(v@[5], T_ONE@)
                },
            },
            _ => false,
        },
        _ => false,
    }
}

/// `XINFO STREAM|GROUPS|CONSUMERS key [group]`: describes the stream (a
/// key holding no stream becomes an empty one); other forms change nothing
/// and reply nil.
pub open spec fn xinfo_post(old: Map<Seq<u8>, EntryView>, new: Map<Seq<u8>, EntryView>, a: Seq<Seq<u8>>, r: Reply) -> bool {
    if a.len() >= 3 && (a[1] == KW_STREAM@ || a[1] == KW_GROUPS@ || a[1] == KW_CONSUMERS@) {
        let k = a[2];
        let s = stream_at(old, k);
        let gs = meta_at(old, k).1;
        &&& new == old.insert(k, (DataView::Stream(s), meta_at(old, k).0, gs))
        &&& if a[1] == KW_STREAM@ {
            stream_info_is(r, k, s.len(), gs.dom().len())
        } else if a[1] == KW_GROUPS@ {
            groups_info_is(r, k, gs)
        } else {
            consumers_info_is(r, k, if a.len() >= 4 { Some(a[3]) } else { None }, a.len() >= 4 && gs.contains_key(a[3]))
        }
    } else {
        new == old && is_nil(r)
    }
}

/// The id of the next entry of a stream; see `next_id`.
fn next_id_of(v: &Vec<StreamEntry>, now: u64) -> (r: Option<StreamId>)
    ensures
        r == next_id(stream_views(v@), now),
{
    if v.len() == 0 {
        if now == 0 {
            Some((0, 1))
        } else {
            Some((now, 0))
        }
    } else {
        let l = v[v.len() - 1].id;
        if now > l.0 {
            Some((now, 0))
        } else if l.1 < u64::MAX {
            Some((l.0, l.1 + 1))
        } else if l.0 < u64::MAX {
            Some((l.0 + 1, 0))
        } else {
            None
        }
    }
}

/// A new id comes after every id of an increasing stream.
proof fn lemma_next_id_after(s: Seq<StreamEntryView>, now: u64)
    requires
        ids_increase(s),
        next_id(s, now).is_some(),
    ensures
        forall|i: int| 0 <= i < s.len() ==> id_after(next_id(s, now).unwrap(), #[trigger] s[i].0),
{
    assert forall|i: int| 0 <= i < s.len() implies id_after(next_id(s, now).unwrap(), #[trigger] s[i].0) by {
        if i < s.len() - 1 {
            assert(id_after(s[s.len() - 1].0, s[i].0));
        }
    }
}

/// The tokens from index 2 on without `w`, and whether `w` was among them.
fn split_word(args: &Vec<Vec<u8>>, w: &[u8]) -> (r: (Vec<Vec<u8>>, bool))
    requires
        args@.len() >= 2,
    ensures
        bytes_views(r.0@) == drop_word(tail_from(bytes_views(args@), 2), w@),
        r.1 == tail_from(bytes_views(args@), 2).contains(w@),
{
    let ghost t = tail_from(bytes_views(args@), 2);
    let mut out: Vec<Vec<u8>> = Vec::new();
    let mut found = false;
    let mut j: usize = 2;
    assert(t.take(0) =~= Seq::<Seq<u8>>::empty());
    assert(bytes_views(out@) =~= Seq::<Seq<u8>>::empty());
    while j < args.len()
        invariant
            t == tail_from(bytes_views(args@), 2),
            t.len() == args@.len() - 2,
            2 <= j <= args@.len(),
            bytes_views(out@) == drop_word(t.take(j - 2), w@),
            found == t.take(j - 2).contains(w@),
        decreases args@.len() - j,
    {
        let ghost p = t.take(j - 2);
        let ghost q = t.take(j - 1);
        let ghost before = out@;
        proof {
            assert(q.drop_last() =~= p);
            assert(q.last() == args@[j as int]@);
            assert(q.contains(w@) == (p.contains(w@) || q.last() == w@)) by {
                if p.contains(w@) {
                    let x = choose|x: int| 0 <= x < p.len() && p[x] == w@;
                    assert(q[x] == p[x]);
                }
                if q.contains(w@) {
                    let x = choose|x: int| 0 <= x < q.len() && q[x] == w@;
                    if x < p.len() {
                        assert(p[x] == q[x]);
                    }
                }
                if q.last() == w@ {
                    assert(q[q.len() - 1] == w@);
                }
            }
        }
        if bytes_eq(args[j].as_slice(), w) {
            found = true;
        } else {
            out.push(vstd::slice::slice_to_vec(args[j].as_slice()));
            proof {
                assert(bytes_views(out@) =~= bytes_views(before).push(args@[j as int]@)) by {
                    assert(before.len() == bytes_views(before).len());
                    assert forall|x: int| 0 <= x < before.len() implies out@[x]@ == before[x]@ by {
                        assert(out@[x] == before[x]);
                    }
                }
            }
        }
        j += 1;
    }
    assert(t.take(j - 2) =~= t);
    (out, found)
}

/// The field/value pairs of a token list; see `field_pairs`.
fn field_pairs_of(rest: &Vec<Vec<u8>>) -> (r: Vec<(Vec<u8>, Vec<u8>)>)
    ensures
        pair_views(r@) == field_pairs(bytes_views(rest@)),
{
    let ghost f = field_pairs(bytes_views(rest@));
    let o: usize = rest.len() % 2;
    let n: usize = rest.len() / 2;
    let mut r: Vec<(Vec<u8>, Vec<u8>)> = Vec::new();
    let mut i: usize = 0;
    assert(rest@.len() == 2 * n + o) by (nonlinear_arith)
        requires
            n == rest@.len() / 2,
            o == rest@.len() % 2,
    ;
    let len: usize = rest.len();
    while i < n
        invariant
            len == rest@.len(),
            rest@.len() == 2 * n + o,
            f == field_pairs(bytes_views(rest@)),
            o == rest@.len() % 2,
            n == rest@.len() / 2,
            0 <= i <= n,
            pair_views(r@) == f.take(i as int),
        decreases n - i,
    {
        let ghost before = r@;
        assert(o + 2 * i + 1 < rest@.len());
        let k: usize = o + i + i;
        r.push(
            (
                vstd::slice::slice_to_vec(rest[k].as_slice()),
                vstd::slice::slice_to_vec(rest[k + 1].as_slice()),
            ),
        );
        proof {
            assert(pair_views(r@) =~= f.take(i + 1)) by {
                assert(before.len() == pair_views(before).len());
                assert forall|x: int| 0 <= x < i implies pair_views(r@)[x] == f.take(i + 1)[x] by {
                    assert(r@[x] == before[x]);
                    assert(pair_views(before)[x] == f.take(i as int)[x]);
                }
            }
        }
        i += 1;
    }
    assert(f.take(n as int) =~= f);
    r
}

/// The group named by a read, given the index of its name.
pub open spec fn group_view(a: Seq<Seq<u8>>, gi: Option<usize>) -> Option<Seq<u8>> {
    match gi {
        Some(g) => Some(a[g as int]),
        None => None,
    }
}

/// The options of a stream read; see `read_opts`. The group comes back as
/// the index of its name.
fn read_opts_of(args: &Vec<Vec<u8>>) -> (r: (Option<usize>, usize))
    ensures
        r.1 <= args@.len(),
        r.0 matches Some(g) ==> g < args@.len(),
        read_opts(bytes_views(args@), 1, None) == (group_view(bytes_views(args@), r.0), r.1 as int),
{
    let ghost a = bytes_views(args@);
    let mut gi: Option<usize> = None;
    let mut i: usize = 1;
    if args.len() == 0 {
        return (None, 0);
    }
    while i < args.len()
        invariant
            a == bytes_views(args@),
            1 <= i <= args@.len(),
            gi matches Some(g) ==> g < args@.len(),
            read_opts(a, 1, None) == read_opts(a, i as int, group_view(a, gi)),
        decreases args@.len() - i,
    {
        let t = args[i].as_slice();
        if bytes_eq(t, &KW_GROUP) {
            gi = if i + 1 < args.len() { Some(i + 1) } else { None };
            i = if args.len() - i >= 3 { i + 3 } else { args.len() };
        } else if bytes_eq(t, &KW_STREAMS) {
            return (gi, i + 1);
        } else {
            i += 1;
        }
    }
    (gi, args.len())
}

/// The text of the error for a group read of a stream that lacks the group.
fn no_group_text() -> (r: Vec<u8>)
    ensures
        r@ == NOGROUP_TEXT@,
{
    let mut r: Vec<u8> = Vec::new();
    crate::words::append_bytes(&mut r, &NOGROUP_TEXT);
    assert(r@ =~= NOGROUP_TEXT@);
    r
}

/// `NOGROUP No such consumer group`
pub const NOGROUP_TEXT: [u8; 30] = [
    0x4eu8, 0x4f, 0x47, 0x52, 0x4f, 0x55, 0x50, 0x20, 0x4e, 0x6f, 0x20, 0x73, 0x75, 0x63, 0x68,
    0x20, 0x63, 0x6f, 0x6e, 0x73, 0x75, 0x6d, 0x65, 0x72, 0x20, 0x67, 0x72, 0x6f, 0x75, 0x70,
];

/// Reads a stream id; see `parse_id`.
fn parse_id_of(t: &[u8]) -> (r: Option<StreamId>)
    ensures
        r == parse_id(t@),
{
    let mut d: usize = 0;
    while d < t.len() && t[d] != 0x2du8
        invariant
            0 <= d <= t@.len(),
            crate::slot::first_from(t@, 0x2d, 0) == crate::slot::first_from(t@, 0x2d, d as int),
        decreases t@.len() - d,
    {
        d += 1;
    }
    if d < t.len() {
        let ms = crate::words::read_dec(vstd::slice::slice_subrange(t, 0, d), u64::MAX);
        let sq = crate::words::read_dec(vstd::slice::slice_subrange(t, d + 1, t.len()), u64::MAX);
        assert(t@.subrange(0, d as int) =~= t@.take(d as int));
        match (ms, sq) {
            (Some(ms), Some(sq)) => Some((ms, sq)),
            _ => None,
        }
    } else {
        match crate::words::read_dec(t, u64::MAX) {
            Some(ms) => Some((ms, 0)),
            None => None,
        }
    }
}

/// Where a read of a stream starts; see `start_id`.
fn start_of(e: &Entry, idt: &[u8], group: Option<&[u8]>, now: u64) -> (r: StreamId)
    requires
        e.wf(),
    ensures
        r == start_id(e@, idt@, match group {
            Some(g) => Some(g@),
            None => None,
        }, now),
{
    if idt.len() == 1 && idt[0] == 0x3eu8 {
        assert(idt@ =~= seq![0x3eu8]);
        match group {
            Some(g) => {
                let ghost ge = group_views(e.groups@);
                proof {
                    lemma_assoc_unique(ge);
                }
                match find_key(&e.groups, g) {
                    Some(i) => {
                        assert(ge[i as int].0 == g@);
                        e.groups[i].1
                    },
                    None => {
                        proof {
                            if assoc(ge).contains_key(g@) {
                                let q = choose|q: int| 0 <= q < ge.len() && (#[trigger] ge[q]).0 == g@;
                                assert(e.groups@[q].0@ == g@);
                            }
                        }
                        (u64::MAX, u64::MAX)
                    },
                }
            },
            None => (u64::MAX, u64::MAX),
        }
    } else if idt.len() == 1 && idt[0] == 0x24u8 {
        assert(idt@ =~= seq![0x24u8]);
        (now, u64::MAX)
    } else {
        proof {
            if idt@ == seq![0x3eu8] || idt@ == seq![0x24u8] {
                assert(idt@.len() == 1);
            }
        }
        match parse_id_of(idt) {
            Some(id) => id,
            None => (u64::MAX, u64::MAX),
        }
    }
}

/// The entries of a stream after `start`, as the server sends them, and
/// the id of the last one.
fn entries_after_of(s: &Vec<StreamEntry>, start: StreamId) -> (r: (Vec<Reply>, Option<StreamId>))
    ensures
        ({
            let items = entries_after(stream_views(s@), start);
            &&& entries_reply_is(Reply::Array(r.0), items)
            &&& r.0@.len() == items.len()
            &&& r.1 == (if items.len() > 0 {
                Some(items.last().0)
            } else {
                None
            })
        }),
{
    let ghost sv = stream_views(s@);
    let mut v: Vec<Reply> = Vec::new();
    let mut last: Option<StreamId> = None;
    let mut i: usize = 0;
    while i < s.len()
        invariant
            sv == stream_views(s@),
            0 <= i <= s@.len(),
            v@.len() == entries_after(sv.take(i as int), start).len(),
            forall|q: int| 0 <= q < v@.len() ==> entry_reply_is(#[trigger] v@[q], entries_after(sv.take(i as int), start)[q]),
            last == (if entries_after(sv.take(i as int), start).len() > 0 {
                Some(entries_after(sv.take(i as int), start).last().0)
            } else {
                None
            }),
        decreases s@.len() - i,
    {
        let ghost t = sv.take(i + 1);
        let ghost prev = entries_after(sv.take(i as int), start);
        proof {
            assert(t.drop_last() =~= sv.take(i as int));
            assert(t.last() == sv[i as int]);
        }
        let id = s[i].id;
        if id.0 > start.0 || (id.0 == start.0 && id.1 > start.1) {
            let ghost vb = v@;
            v.push(entry_reply(&s[i]));
            proof {
                let now_items = prev.push(sv[i as int]);
                assert(entries_after(t, start) == now_items);
                assert forall|q: int| 0 <= q < v@.len() implies entry_reply_is(#[trigger] v@[q], now_items[q]) by {
                    if q < vb.len() {
                        assert(v@[q] == vb[q]);
                    }
                }
            }
            last = Some(id);
        }
        i += 1;
    }
    assert(sv.take(i as int) =~= sv);
    (v, last)
}

/// Stores `(k, id)` in a group list with unique names, replacing the pair
/// under `k`.
fn upsert_group(h: &mut Vec<(Vec<u8>, StreamId)>, k: Vec<u8>, id: StreamId)
    requires
        keys_unique(group_views(old(h)@)),
    ensures
        keys_unique(group_views(final(h)@)),
        assoc(group_views(final(h)@)) == assoc(group_views(old(h)@)).insert(k@, id),
{
    let ghost e = group_views(h@);
    let ghost kv = k@;
    match find_key(h, k.as_slice()) {
        Some(i) => {
            h.set(i, (k, id));
            proof {
                lemma_assoc_update(e, i as int, id);
                assert(group_views(h@) =~= e.update(i as int, (e[i as int].0, id)));
            }
        },
        None => {
            h.push((k, id));
            proof {
                lemma_assoc_push(e, kv, id);
                assert(group_views(h@) =~= e.push((kv, id)));
            }
        },
    }
}

/// Each entry that `XADD` appends carries an id after every id already in
/// the stream, and after `0-0`; the earlier entries stay as they were.
pub proof fn lemma_xadd_later_id(
    s0: Map<Seq<u8>, EntryView>,
    s1: Map<Seq<u8>, EntryView>,
    a: Seq<Seq<u8>>,
    now: u64,
    r: Reply,
)
    requires
        xadd_post(s0, s1, a, now, r),
        a.len() >= 2,
        !is_nil(r),
        ids_increase(stream_at(s0, a[1])),
    ensures
        stream_at(s1, a[1]).len() == stream_at(s0, a[1]).len() + 1,
        stream_at(s1, a[1]).drop_last() == stream_at(s0, a[1]),
        id_after(stream_at(s1, a[1]).last().0, (0, 0)),
        forall|i: int|
            0 <= i < stream_at(s0, a[1]).len() ==> id_after(
                stream_at(s1, a[1]).last().0,
                #[trigger] stream_at(s0, a[1])[i].0,
            ),
        ids_increase(stream_at(s1, a[1])),
{
    let s = stream_at(s0, a[1]);
    let id = next_id(s, now).unwrap();
    lemma_next_id_after(s, now);
    let t = stream_at(s1, a[1]);
    assert(t == s.push((id, field_pairs(drop_word(tail_from(a, 2), KW_NOMKSTREAM@)))));
    assert(t.drop_last() =~= s);
    if s.len() > 0 {
        assert(id_after(id, s[s.len() - 1].0));
    }
    assert forall|i: int, j: int| 0 <= i < j < t.len() implies id_after(t[j].0, t[i].0) by {
        if j == s.len() {
            assert(t[i] == s[i]);
        } else {
            assert(t[i] == s[i] && t[j] == s[j]);
        }
    }
}

/// Reading a stream from `0-0` gives all of its entries, in order, when no
/// entry has the id `0-0`.
pub proof fn lemma_read_from_zero(s: Seq<StreamEntryView>)
    requires
        forall|i: int| 0 <= i < s.len() ==> id_after(#[trigger] s[i].0, (0, 0)),
    ensures
        entries_after(s, (0, 0)) == s,
    decreases s.len(),
{
    if s.len() > 0 {
        let t = s.drop_last();
        assert forall|i: int| 0 <= i < t.len() implies id_after(#[trigger] t[i].0, (0, 0)) by {
            assert(t[i] == s[i]);
        }
        lemma_read_from_zero(t);
        assert(id_after(s[s.len() - 1].0, (0, 0)));
        assert(t.push(s.last()) =~= s);
    }
}

/// No entry of a stream whose ids are all at most `id` comes after it.
proof fn lemma_none_after(s: Seq<StreamEntryView>, id: StreamId)
    requires
        forall|i: int| 0 <= i < s.len() ==> !id_after(#[trigger] s[i].0, id),
    ensures
        entries_after(s, id).len() == 0,
    decreases s.len(),
{
    if s.len() > 0 {
        let t = s.drop_last();
        assert forall|i: int| 0 <= i < t.len() implies !id_after(#[trigger] t[i].0, id) by {
            assert(t[i] == s[i]);
        }
        lemma_none_after(t, id);
    }
}

/// The entries after a start, in a stream with increasing ids, end with
/// the stream's last entry whenever there are any.
proof fn lemma_after_ends_last(s: Seq<StreamEntryView>, start: StreamId)
    requires
        ids_increase(s),
        entries_after(s, start).len() > 0,
    ensures
        entries_after(s, start).last() == s.last(),
{
    if !id_after(s.last().0, start) {
        let t = s.drop_last();
        assert forall|i: int| 0 <= i < t.len() implies !id_after(#[trigger] t[i].0, start) by {
            assert(t[i] == s[i]);
            assert(id_after(s[s.len() - 1].0, s[i].0));
        }
        lemma_none_after(t, start);
    }
}

/// A group read with `>` moves the group's offset to the last entry it
/// delivers, and the same read right after delivers nothing.
pub proof fn lemma_group_read_twice(
    st: Map<Seq<u8>, EntryView>,
    name: Seq<u8>,
    g: Seq<u8>,
    now: u64,
)
    requires
        st.contains_key(name),
        st[name].2.contains_key(g),
        ids_increase(stream_at(st, name)),
    ensures
        ({
            let (st1, items) = read_step(st, name, seq![0x3eu8], Some(g), now);
            &&& items.len() > 0 ==> st1[name].2[g] == items.last().0
            &&& read_step(st1, name, seq![0x3eu8], Some(g), now).1.len() == 0
        }),
{
    let (st1, items) = read_step(st, name, seq![0x3eu8], Some(g), now);
    let s = stream_at(st, name);
    assert(stream_at(st1, name) == s);
    if items.len() > 0 {
        lemma_after_ends_last(s, st[name].2[g]);
        let last = s.last().0;
        assert(st1[name].2[g] == last);
        assert forall|i: int| 0 <= i < s.len() implies !id_after(#[trigger] s[i].0, last) by {
            if i < s.len() - 1 {
                assert(id_after(s[s.len() - 1].0, s[i].0));
            }
        }
        lemma_none_after(s, last);
    }
}

impl MockRedis {
    /// `XADD`; see `xadd_post`.
    pub fn cmd_xadd(&mut self, args: &Vec<Vec<u8>>, now: u64) -> (r: Reply)
        requires
            old(self).wf(),
        ensures
            final(self).wf(),
            final(self).db_index() == old(self).db_index(),
            xadd_post(old(self).store(), final(self).store(), bytes_views(args@), now, r),
    {
        let ghost a = bytes_views(args@);
        if args.len() < 2 {
            return Reply::Nil;
        }
        let key = args[1].as_slice();
        let (rest, nomk) = split_word(args, &KW_NOMKSTREAM);
        let found = self.index_of(key);
        if nomk && found.is_none() {
            return Reply::Nil;
        }
        let id = match found {
            Some(i) => match &self.values[i].1.data {
                Data::Stream(v) => next_id_of(v, now),
                _ => {
                    let empty: Vec<StreamEntry> = Vec::new();
                    assert(stream_views(empty@) =~= Seq::<StreamEntryView>::empty());
                    next_id_of(&empty, now)
                },
            },
            None => {
                let empty: Vec<StreamEntry> = Vec::new();
                assert(stream_views(empty@) =~= Seq::<StreamEntryView>::empty());
                next_id_of(&empty, now)
            },
        };
        let id = match id {
            Some(id) => id,
            None => {
                return Reply::Nil;
            },
        };
        let fields = field_pairs_of(&rest);
        let prev = self.take(key);
        let (mut v, deadline, groups) = match prev {
            Some(e) => match e.data {
                Data::Stream(v) => (v, e.deadline, e.groups),
                _ => (Vec::new(), e.deadline, e.groups),
            },
            None => (Vec::new(), None, Vec::new()),
        };
        proof {
            if !old(self).store().contains_key(a[1]) {
                assert(group_views(groups@) =~= Seq::<(Seq<u8>, StreamId)>::empty());
            }
            if stream_views(v@).len() == 0 {
                assert(stream_views(v@) =~= Seq::<StreamEntryView>::empty());
            }
            assert(stream_views(v@) == stream_at(old(self).store(), a[1]));
            lemma_next_id_after(stream_views(v@), now);
        }
        let ghost sv = stream_views(v@);
        let entry_new = StreamEntry { id, fields };
        v.push(entry_new);
        proof {
            assert(stream_views(v@) =~= sv.push(entry_new@));
            assert forall|i: int, j: int| 0 <= i < j < stream_views(v@).len() implies id_after(stream_views(v@)[j].0, stream_views(v@)[i].0) by {
                if j == sv.len() {
                    assert(stream_views(v@)[i] == sv[i]);
                } else {
                    assert(stream_views(v@)[i] == sv[i] && stream_views(v@)[j] == sv[j]);
                }
            }
        }
        let entry = Entry { data: Data::Stream(v), deadline, groups };
        self.put(key, entry);
        proof {
            assert(bytes_views(rest@) == drop_word(tail_from(a, 2), KW_NOMKSTREAM@));
            assert(next_id(stream_at(old(self).store(), a[1]), now) == Some(id));
            assert(self.store() =~= old(self).store().insert(
                a[1],
                (DataView::Stream(stream_at(old(self).store(), a[1]).push((id, field_pairs(drop_word(tail_from(a, 2), KW_NOMKSTREAM@))))), meta_at(old(self).store(), a[1]).0, meta_at(old(self).store(), a[1]).1),
            ));
        }
        Reply::SimpleString(id_text_of(id))
    }

    /// `XGROUP`; see `xgroup_post`.
    pub fn cmd_xgroup(&mut self, args: &Vec<Vec<u8>>) -> (r: Reply)
        requires
            old(self).wf(),
        ensures
            final(self).wf(),
            final(self).db_index() == old(self).db_index(),
            xgroup_post(old(self).store(), final(self).store(), bytes_views(args@), r),
    {
        let ghost a = bytes_views(args@);
        if !(args.len() >= 3 && bytes_eq(args[1].as_slice(), &KW_CREATE)) {
            return Reply::Nil;
        }
        let key = args[2].as_slice();
        let prev = self.take(key);
        let (v, deadline, mut groups) = match prev {
            Some(e) => match e.data {
                Data::Stream(v) => (v, e.deadline, e.groups),
                _ => (Vec::new(), e.deadline, e.groups),
            },
            None => (Vec::new(), None, Vec::new()),
        };
        proof {
            if !old(self).store().contains_key(a[2]) {
                assert(group_views(groups@) =~= Seq::<(Seq<u8>, StreamId)>::empty());
            }
            if stream_views(v@).len() == 0 {
                assert(stream_views(v@) =~= Seq::<StreamEntryView>::empty());
            }
            assert(stream_views(v@) == stream_at(old(self).store(), a[2]));
        }
        if args.len() >= 4 {
            let lid: StreamId = if v.len() > 0 { v[v.len() - 1].id } else { (0, 0) };
            assert(lid == last_id(stream_views(v@)));
            upsert_group(&mut groups, vstd::slice::slice_to_vec(args[3].as_slice()), lid);
        }
        let ghost gs = if a.len() >= 4 {
            meta_at(old(self).store(), a[2]).1.insert(a[3], last_id(stream_at(old(self).store(), a[2])))
        } else {
            meta_at(old(self).store(), a[2]).1
        };
        assert(assoc(group_views(groups@)) == gs);
        let entry = Entry { data: Data::Stream(v), deadline, groups };
        self.put(key, entry);
        assert(self.store() =~= old(self).store().insert(
            a[2],
            (DataView::Stream(stream_at(old(self).store(), a[2])), meta_at(old(self).store(), a[2]).0, gs),
        ));
        Reply::Nil
    }

    /// `XREAD` and `XREADGROUP`; see `xread_post`.
    pub fn cmd_xread(&mut self, args: &Vec<Vec<u8>>, now: u64) -> (r: Result<Reply, RedisError>)
        requires
            old(self).wf(),
        ensures
            final(self).wf(),
            final(self).db_index() == old(self).db_index(),
            xread_post(old(self).store(), final(self).store(), bytes_views(args@), now, r),
    {
        let ghost a = bytes_views(args@);
        let (gi, start) = read_opts_of(args);
        let ghost group = group_view(a, gi);
        let ghost rest = tail_from(a, start as int);
        let ghost pairs = stream_pairs(rest);
        let len: usize = args.len();
        let rl: usize = len - start;
        let n: usize = rl / 2;
        assert(rest.len() == rl);
        // A group read fails before reading anything when a stream lacks the group.
        match gi {
            Some(g) => {
                let mut j: usize = 0;
                while j < n
                    invariant
                        a == bytes_views(args@),
                        self.wf(),
                        self.store() == old(self).store(),
                        read_opts(a, 1, None) == (group, start as int),
                        len == args@.len(),
                        start <= args@.len(),
                        rl == args@.len() - start,
                        n == rl / 2,
                        rest == tail_from(a, start as int),
                        pairs == stream_pairs(rest),
                        g < args@.len(),
                        group == Some(a[g as int]),
                        0 <= j <= n,
                        forall|q: int|
                            0 <= q < j ==> !((#[trigger] pairs[q]).1 == seq![0x3eu8] && self.store().contains_key(pairs[q].0)
                                && !self.store()[pairs[q].0].2.contains_key(a[g as int])),
                    decreases n - j,
                {
                    let name = args[start + j].as_slice();
                    let idt = args[start + (rl - n) + j].as_slice();
                    assert(pairs[j as int] == (name@, idt@));
                    if idt.len() == 1 && idt[0] == 0x3eu8 {
                        match self.index_of(name) {
                            Some(i) => {
                                assert(self.values@[i as int].1.wf());
                                let ghost ge = group_views(self.values@[i as int].1.groups@);
                                proof {
                                    lemma_assoc_unique(ge);
                                }
                                match find_key(&self.values[i].1.groups, args[g].as_slice()) {
                                    Some(k) => {
                                        assert(ge[k as int].0 == a[g as int]);
                                        assert(self.store()[name@].2 == assoc(ge));
                                    },
                                    None => {
                                        proof {
                                            assert(idt@ =~= seq![0x3eu8]);
                                            if assoc(ge).contains_key(a[g as int]) {
                                                let q = choose|q: int| 0 <= q < ge.len() && (#[trigger] ge[q]).0 == a[g as int];
                                                assert(self.values@[i as int].1.groups@[q].0@ == a[g as int]);
                                            }
                                            assert(self.store()[name@].2 == assoc(ge));
                                            assert(pairs[j as int].1 == seq![0x3eu8]);
                                            assert(lacks_group(self.store(), pairs, group));
                                            assert(read_opts(a, 1, None) == (group, start as int));
                                        }
                                        return Err(RedisError::CommandError(no_group_text()));
                                    },
                                }
                            },
                            None => {},
                        }
                    } else {
                        assert(idt@ != seq![0x3eu8]) by {
                            if idt@ == seq![0x3eu8] {
                                assert(idt@.len() == 1);
                            }
                        }
                    }
                    j += 1;
                }
                assert(!lacks_group(old(self).store(), pairs, group));
            },
            None => {},
        }
        let mut v: Vec<Reply> = Vec::new();
        let ghost mut out: Seq<(Seq<u8>, Seq<StreamEntryView>)> = seq![];
        let mut j: usize = 0;
        assert(pairs.take(0) =~= Seq::<(Seq<u8>, Seq<u8>)>::empty());
        while j < n
            invariant
                a == bytes_views(args@),
                self.wf(),
                self.db_index() == old(self).db_index(),
                len == args@.len(),
                start <= args@.len(),
                rl == args@.len() - start,
                n == rl / 2,
                rest == tail_from(a, start as int),
                pairs == stream_pairs(rest),
                pairs.len() == n,
                group == group_view(a, gi),
                gi matches Some(g) ==> g < args@.len(),
                0 <= j <= n,
                (self.store(), out) == read_fold(old(self).store(), pairs.take(j as int), group, now),
                v@.len() == 2 * out.len(),
                forall|q: int|
                    0 <= q < out.len() ==> simple_is(v@[2 * q], (#[trigger] out[q]).0) && entries_reply_is(
                        v@[2 * q + 1],
                        out[q].1,
                    ),
            decreases n - j,
        {
            let name = args[start + j].as_slice();
            let idt = args[start + (rl - n) + j].as_slice();
            let ghost st1 = self.store();
            let ghost pj = pairs.take(j + 1);
            proof {
                assert(pairs[j as int] == (name@, idt@));
                assert(pj.drop_last() =~= pairs.take(j as int));
                assert(pj.last() == pairs[j as int]);
            }
            let ghost step = read_step(st1, name@, idt@, group, now);
            match self.index_of(name) {
                Some(i) => {
                    assert(self.values@[i as int].1.wf());
                    let gs: Option<&[u8]> = match gi {
                        Some(g) => Some(args[g].as_slice()),
                        None => None,
                    };
                    let st = start_of(&self.values[i].1, idt, gs, now);
                    let (items, last) = match &self.values[i].1.data {
                        Data::Stream(sv) => {
                            assert(stream_at(st1, name@) == stream_views(sv@));
                            entries_after_of(sv, st)
                        },
                        _ => {
                            let empty: Vec<StreamEntry> = Vec::new();
                            assert(stream_views(empty@) =~= Seq::<StreamEntryView>::empty());
                            assert(stream_at(st1, name@) == stream_views(empty@));
                            entries_after_of(&empty, st)
                        },
                    };
                    let ghost iv = step.1;
                    proof {
                        let gsv = match gs {
                            Some(x) => Some(x@),
                            None => None,
                        };
                        assert(gsv == group);
                        assert(st1.contains_key(name@));
                        assert(st1[name@] == self.values@[i as int].1@);
                        assert(st == start_id(st1[name@], idt@, group, now));
                        assert(iv == entries_after(stream_at(st1, name@), st));
                    }
                    match (gs, last) {
                        (Some(g), Some(lid)) => {
                            let taken = self.take(name);
                            match taken {
                                Some(mut e) => {
                                    upsert_group(&mut e.groups, vstd::slice::slice_to_vec(g), lid);
                                    self.put(name, e);
                                    assert(self.store() =~= step.0);
                                },
                                None => {},
                            }
                        },
                        _ => {
                            assert(self.store() =~= step.0);
                        },
                    }
                    if items.len() > 0 {
                        let ghost vb = v@;
                        v.push(Reply::SimpleString(vstd::slice::slice_to_vec(name)));
                        v.push(Reply::Array(items));
                        proof {
                            let o2 = out.push((name@, iv));
                            assert forall|q: int| 0 <= q < o2.len() implies simple_is(v@[2 * q], (#[trigger] o2[q]).0)
                                && entries_reply_is(v@[2 * q + 1], o2[q].1) by {
                                if q < out.len() {
                                    assert(v@[2 * q] == vb[2 * q]);
                                    assert(v@[2 * q + 1] == vb[2 * q + 1]);
                                }
                            }
                            out = o2;
                        }
                    } else {
                        assert(iv.len() == 0);
                        assert(out == read_fold(old(self).store(), pairs.take(j + 1), group, now).1);
                    }
                },
                None => {},
            }
            j += 1;
        }
        assert(pairs.take(n as int) =~= pairs);
        Ok(Reply::Array(v))
    }

    /// `XACK`; see `xack_post`.
    pub fn cmd_xack(&self, args: &Vec<Vec<u8>>) -> (r: Reply)
        requires
            self.wf(),
        ensures
            xack_post(self.store(), bytes_views(args@), r),
    {
        let found = if args.len() >= 2 { self.index_of(args[1].as_slice()) } else { None };
        match found {
            Some(i) => match &self.values[i].1.data {
                Data::Stream(_) => Reply::Int(1),
                _ => Reply::Int(0),
            },
            None => Reply::Int(0),
        }
    }

    /// `XINFO`; see `xinfo_post`.
    pub fn cmd_xinfo(&mut self, args: &Vec<Vec<u8>>) -> (r: Reply)
        requires
            old(self).wf(),
        ensures
            final(self).wf(),
            final(self).db_index() == old(self).db_index(),
            xinfo_post(old(self).store(), final(self).store(), bytes_views(args@), r),
    {
        let ghost a = bytes_views(args@);
        if args.len() < 3 {
            return Reply::Nil;
        }
        let sub = args[1].as_slice();
        let is_stream = bytes_eq(sub, &KW_STREAM);
        let is_groups = bytes_eq(sub, &KW_GROUPS);
        let is_consumers = bytes_eq(sub, &KW_CONSUMERS);
        if !(is_stream || is_groups || is_consumers) {
            return Reply::Nil;
        }
        let key = args[2].as_slice();
        let prev = self.take(key);
        let (v, deadline, groups) = match prev {
            Some(e) => match e.data {
                Data::Stream(v) => (v, e.deadline, e.groups),
                _ => (Vec::new(), e.deadline, e.groups),
            },
            None => (Vec::new(), None, Vec::new()),
        };
        proof {
            if !old(self).store().contains_key(a[2]) {
                assert(group_views(groups@) =~= Seq::<(Seq<u8>, StreamId)>::empty());
            }
            if stream_views(v@).len() == 0 {
                assert(stream_views(v@) =~= Seq::<StreamEntryView>::empty());
            }
            assert(stream_views(v@) == stream_at(old(self).store(), a[2]));
        }
        let ghost gv = group_views(groups@);
        let ghost gs = assoc(gv);
        let mut out: Vec<Reply> = Vec::new();
        if is_stream {
            proof {
                lemma_assoc_len(gv);
            }
            out.push(Reply::SimpleString(vstd::slice::slice_to_vec(&T_NAME)));
            out.push(Reply::BulkString(vstd::slice::slice_to_vec(key)));
            out.push(Reply::SimpleString(vstd::slice::slice_to_vec(&T_MESSAGES)));
            out.push(count_reply(v.len()));
            out.push(Reply::SimpleString(vstd::slice::slice_to_vec(&T_GROUPS_L)));
            out.push(count_reply(groups.len()));
            out.push(Reply::SimpleString(vstd::slice::slice_to_vec(&T_A)));
            out.push(Reply::Int(0));
            out.push(Reply::SimpleString(vstd::slice::slice_to_vec(&T_B)));
            out.push(Reply::Int(0));
            out.push(Reply::SimpleString(vstd::slice::slice_to_vec(&T_C)));
            out.push(Reply::Int(0));
            out.push(Reply::SimpleString(vstd::slice::slice_to_vec(&T_D)));
            out.push(Reply::Int(0));
        } else if is_groups {
            let mut i: usize = 0;
            while i < groups.len()
                invariant
                    gv == group_views(groups@),
                    key@ == a[2],
                    0 <= i <= groups@.len(),
                    out@.len() == i,
                    forall|q: int| 0 <= q < i ==> group_info_is(#[trigger] out@[q], a[2], gv[q]),
                decreases groups@.len() - i,
            {
                let mut g: Vec<Reply> = Vec::new();
                g.push(Reply::SimpleString(vstd::slice::slice_to_vec(&T_STREAM_L)));
                g.push(Reply::BulkString(vstd::slice::slice_to_vec(key)));
                g.push(Reply::SimpleString(vstd::slice::slice_to_vec(&T_GROUP_L)));
                g.push(Reply::SimpleString(vstd::slice::slice_to_vec(groups[i].0.as_slice())));
                g.push(Reply::SimpleString(vstd::slice::slice_to_vec(&T_ID_L)));
                g.push(Reply::SimpleString(id_text_of(groups[i].1)));
                g.push(Reply::SimpleString(vstd::slice::slice_to_vec(&T_CONSUMERS_L)));
                g.push(Reply::BulkString(vstd::slice::slice_to_vec(&T_ONE)));
                out.push(Reply::Array(g));
                i += 1;
            }
        } else {
            let mut c: Vec<Reply> = Vec::new();
            if args.len() >= 4 {
                let gname = args[3].as_slice();
                c.push(Reply::SimpleString(vstd::slice::slice_to_vec(&T_STREAM_L)));
                c.push(Reply::BulkString(vstd::slice::slice_to_vec(key)));
                c.push(Reply::SimpleString(vstd::slice::slice_to_vec(&T_GROUP_L)));
                c.push(Reply::BulkString(vstd::slice::slice_to_vec(gname)));
                proof {
                    lemma_assoc_unique(gv);
                }
                match find_key(&groups, gname) {
                    Some(j) => {
                        assert(gv[j as int].0 == gname@);
                        c.push(Reply::SimpleString(vstd::slice::slice_to_vec(&T_CONSUMERS_L)));
                        c.push(Reply::BulkString(vstd::slice::slice_to_vec(&T_ONE)));
                    },
                    None => {
                        assert(!gs.contains_key(gname@)) by {
                            if gs.contains_key(gname@) {
                                let q = choose|q: int| 0 <= q < gv.len() && (#[trigger] gv[q]).0 == gname@;
                                assert(groups@[q].0@ == gname@);
                            }
                        }
                    },
                }
            }
            out.push(Reply::Array(c));
        }
        let ghost sv = stream_views(v@);
        let entry = Entry { data: Data::Stream(v), deadline, groups };
        self.put(key, entry);
        assert(self.store() =~= old(self).store().insert(
            a[2],
            (DataView::Stream(sv), meta_at(old(self).store(), a[2]).0, gs),
        ));
        Reply::Array(out)
    }
}

} // verus!
