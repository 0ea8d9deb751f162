use vstd::prelude::*;
use crate::assoc::{assoc, find_key, keys_unique, lemma_assoc_push, lemma_assoc_remove, lemma_assoc_unique};
use crate::error::RedisError;
use crate::mock::hashes::{hdel_post, hexists_post, hget_post, hgetall_post, hmget_post, hset_post};
use crate::mock::lists::{blpop_post, llen_post, lpop_post, lrange_post, lrem_post, push_post};
use crate::mock::sets::{pfadd_post, pfcount_post, pfmerge_post, zadd_post, zcard_post, zrem_post};
use crate::mock::streams::{lemma_read_from_zero, parse_id, start_id, read_fold, lemma_xadd_later_id, lemma_group_read_twice, lacks_group, read_opts, read_step, stream_pairs, streams_reply_is, stream_at, xack_post, xadd_post, xgroup_post, xinfo_post, xread_post};
use crate::mock::strings::{lemma_del_then_exists, del_post, exists_post, expire_post, get_post, keys_post, set_post, ttl_post};
use crate::reply::Reply;
use crate::words::{bytes_eq, bytes_views, KW_ACL, KW_AUTH, KW_BLPOP, KW_DEL, KW_EVAL, KW_EXISTS, KW_EXPIRE, KW_GENPASS, KW_GET, KW_GROUP, KW_HDEL, KW_HEXISTS, KW_HGET, KW_HGETALL, KW_HMGET, KW_HSET, KW_INFO, KW_KEYS, KW_LLEN, KW_LPOP, KW_LPUSH, KW_LRANGE, KW_LREM, KW_PFADD, KW_PFCOUNT, KW_PFMERGE, KW_RPUSH, KW_SET, KW_STREAMS, KW_TTL, KW_WHOAMI, KW_XACK, KW_XADD, KW_XGROUP, KW_XINFO, KW_XREAD, KW_XREADGROUP, KW_ZADD, KW_ZCARD, KW_ZREM};

pub mod strings;
pub mod hashes;
pub mod lists;
pub mod streams;
pub mod sets;

verus! {

/// A stream entry id: milliseconds and sequence number, ordered as a pair.
pub type StreamId = (u64, u64);

/// Whether id `a` comes after id `b`.
pub open spec fn id_after(a: StreamId, b: StreamId) -> bool {
    a.0 > b.0 || (a.0 == b.0 && a.1 > b.1)
}

/// One entry of a stream: its id and its field/value pairs.
#[derive(Debug)]
pub struct StreamEntry {
    pub id: StreamId,
    pub fields: Vec<(Vec<u8>, Vec<u8>)>,
}

/// A field/value list as values.
pub open spec fn pair_views(v: Seq<(Vec<u8>, Vec<u8>)>) -> Seq<(Seq<u8>, Seq<u8>)> {
    Seq::new(v.len(), |i: int| (v[i].0@, v[i].1@))
}

/// A stream entry as values.
pub type StreamEntryView = (StreamId, Seq<(Seq<u8>, Seq<u8>)>);

impl View for StreamEntry {
    type V = StreamEntryView;

    open spec fn view(&self) -> StreamEntryView {
        (self.id, pair_views(self.fields@))
    }
}

/// What a key holds.
#[derive(Debug)]
pub enum Data {
    Bytes(Vec<u8>),
    List(Vec<Vec<u8>>),
    Hash(Vec<(Vec<u8>, Vec<u8>)>),
    Members(Vec<Vec<u8>>),
    Stream(Vec<StreamEntry>),
    /// A sorted set: member and score, the score as the text it was given.
    Scores(Vec<(Vec<u8>, Vec<u8>)>),
}

/// What a key holds, as values.
pub enum DataView {
    Bytes(Seq<u8>),
    List(Seq<Seq<u8>>),
    Hash(Map<Seq<u8>, Seq<u8>>),
    Members(Set<Seq<u8>>),
    Stream(Seq<StreamEntryView>),
    Scores(Map<Seq<u8>, Seq<u8>>),
}

/// The entries of a stream as values.
pub open spec fn stream_views(v: Seq<StreamEntry>) -> Seq<StreamEntryView> {
    Seq::new(v.len(), |i: int| v[i]@)
}

impl View for Data {
    type V = DataView;

    open spec fn view(&self) -> DataView {
        match self {
            Data::Bytes(b) => DataView::Bytes(b@),
            Data::List(l) => DataView::List(bytes_views(l@)),
            Data::Hash(h) => DataView::Hash(assoc(pair_views(h@))),
            Data::Members(m) => DataView::Members(bytes_views(m@).to_set()),
            Data::Stream(s) => DataView::Stream(stream_views(s@)),
            Data::Scores(z) => DataView::Scores(assoc(pair_views(z@))),
        }
    }
}

/// Stream ids strictly increase along the stream.
pub open spec fn ids_increase(s: Seq<StreamEntryView>) -> bool {
    forall|i: int, j: int| 0 <= i < j < s.len() ==> id_after(s[j].0, s[i].0)
}

impl Data {
    /// Hash fields and members are unique and stream ids increase.
    pub open spec fn wf(&self) -> bool {
        match self {
            Data::Hash(h) => keys_unique(pair_views(h@)),
            Data::Members(m) => bytes_views(m@).no_duplicates(),
            Data::Stream(s) => ids_increase(stream_views(s@)),
            Data::Scores(z) => keys_unique(pair_views(z@)),
            _ => true,
        }
    }
}

/// A stored value: what it holds, when it expires (milliseconds since the
/// epoch), and the consumer groups of a stream with their offsets.
#[derive(Debug)]
pub struct Entry {
    pub data: Data,
    pub deadline: Option<u64>,
    pub groups: Vec<(Vec<u8>, StreamId)>,
}

/// The consumer groups of an entry as values.
pub open spec fn group_views(v: Seq<(Vec<u8>, StreamId)>) -> Seq<(Seq<u8>, StreamId)> {
    Seq::new(v.len(), |i: int| (v[i].0@, v[i].1))
}

/// A stored value as values.
pub type EntryView = (DataView, Option<u64>, Map<Seq<u8>, StreamId>);

impl View for Entry {
    type V = EntryView;

    open spec fn view(&self) -> EntryView {
        (self.data@, self.deadline, assoc(group_views(self.groups@)))
    }
}

impl Entry {
    pub open spec fn wf(&self) -> bool {
        self.data.wf() && keys_unique(group_views(self.groups@))
    }
}

/// An in-memory stand-in for one database of a server: it answers the
/// commands that tests need, with the server's reply shapes.
#[derive(Debug)]
pub struct MockRedis {
    db: i64,
    values: Vec<(Vec<u8>, Entry)>,
}

/// The stored pairs as values.
pub open spec fn store_views(v: Seq<(Vec<u8>, Entry)>) -> Seq<(Seq<u8>, EntryView)> {
    Seq::new(v.len(), |i: int| (v[i].0@, v[i].1@))
}

// Reply shapes.

/// `r` is a bulk string holding `b`.
pub open spec fn bulk_is(r: Reply, b: Seq<u8>) -> bool {
    match r {
        Reply::BulkString(x) => x@ == b,
        _ => false,
    }
}

/// `r` is the integer `n`.
pub open spec fn int_is(r: Reply, n: int) -> bool {
    match r {
        Reply::Int(x) => x as int == n,
        _ => false,
    }
}

/// `r` is the boolean `b`.
pub open spec fn bool_is(r: Reply, b: bool) -> bool {
    match r {
        Reply::Boolean(x) => x == b,
        _ => false,
    }
}

/// `r` is nil.
pub open spec fn is_nil(r: Reply) -> bool {
    r matches Reply::Nil
}

/// The replies are bulk strings holding `s`, in order.
pub open spec fn bulks_are(v: Seq<Reply>, s: Seq<Seq<u8>>) -> bool {
    v.len() == s.len() && forall|i: int| 0 <= i < v.len() ==> bulk_is(#[trigger] v[i], s[i])
}

/// `r` is an array of bulk strings holding `s`, in order.
pub open spec fn array_of_bulks(r: Reply, s: Seq<Seq<u8>>) -> bool {
    match r {
        Reply::Array(v) => bulks_are(v@, s),
        _ => false,
    }
}

/// The pairs are bulk strings holding `p`, in order.
pub open spec fn bulk_pairs_are(v: Seq<(Reply, Reply)>, p: Seq<(Seq<u8>, Seq<u8>)>) -> bool {
    v.len() == p.len() && forall|i: int|
        0 <= i < v.len() ==> bulk_is((#[trigger] v[i]).0, p[i].0) && bulk_is(v[i].1, p[i].1)
}

/// `r` is a map reply of bulk strings with unique fields, holding `m`.
pub open spec fn dict_of(r: Reply, m: Map<Seq<u8>, Seq<u8>>) -> bool {
    match r {
        Reply::Dict(v) => exists|p: Seq<(Seq<u8>, Seq<u8>)>|
            bulk_pairs_are(v@, p) && keys_unique(p) && #[trigger] assoc(p) == m,
        _ => false,
    }
}

/// The pairs are bulk members with double scores, holding `p`.
pub open spec fn score_pairs_are(v: Seq<(Reply, Reply)>, p: Seq<(Seq<u8>, Seq<u8>)>) -> bool {
    v.len() == p.len() && forall|i: int|
        0 <= i < v.len() ==> bulk_is((#[trigger] v[i]).0, p[i].0) && (v[i].1 matches Reply::Double(t) && t@ == p[i].1)
}

/// `r` is a map reply from members to double scores, holding `m`.
pub open spec fn scores_dict_of(r: Reply, m: Map<Seq<u8>, Seq<u8>>) -> bool {
    match r {
        Reply::Dict(v) => exists|p: Seq<(Seq<u8>, Seq<u8>)>|
            score_pairs_are(v@, p) && keys_unique(p) && #[trigger] assoc(p) == m,
        _ => false,
    }
}

/// `r` is a set reply of bulk strings holding exactly `m`.
pub open spec fn members_of(r: Reply, m: Set<Seq<u8>>) -> bool {
    match r {
        Reply::Members(v) => exists|s: Seq<Seq<u8>>|
            bulks_are(v@, s) && s.no_duplicates() && #[trigger] s.to_set() == m,
        _ => false,
    }
}

/// `r` is a simple string holding `b`.
pub open spec fn simple_is(r: Reply, b: Seq<u8>) -> bool {
    match r {
        Reply::SimpleString(x) => x@ == b,
        _ => false,
    }
}

/// The text of a stream id: `ms-seq`.
pub open spec fn id_text(id: StreamId) -> Seq<u8> {
    crate::words::dec_nat(id.0 as nat) + seq![0x2du8] + crate::words::dec_nat(id.1 as nat)
}

/// The field/value pairs flattened: field, value, field, value, ...
pub open spec fn flat_pairs(p: Seq<(Seq<u8>, Seq<u8>)>) -> Seq<Seq<u8>>
    decreases p.len(),
{
    if p.len() == 0 {
        seq![]
    } else {
        flat_pairs(p.drop_last()) + seq![p.last().0, p.last().1]
    }
}

/// `r` is a stream entry as the server sends it: `[id, [field, value, ...]]`.
pub open spec fn entry_reply_is(r: Reply, e: StreamEntryView) -> bool {
    match r {
        Reply::Array(v) => v@.len() == 2 && simple_is(v@[0], id_text(e.0)) && array_of_bulks(
            v@[1],
            flat_pairs(e.1),
        ),
        _ => false,
    }
}

/// `r` is an array of stream entries as the server sends them.
pub open spec fn entries_reply_is(r: Reply, es: Seq<StreamEntryView>) -> bool {
    match r {
        Reply::Array(v) => v@.len() == es.len() && forall|i: int|
            0 <= i < v@.len() ==> entry_reply_is(#[trigger] v@[i], es[i]),
        _ => false,
    }
}

/// The reply that reads back what a key holds.
pub open spec fn data_reply_is(r: Reply, d: DataView) -> bool {
    match d {
        DataView::Bytes(b) => bulk_is(r, b),
        DataView::List(l) => array_of_bulks(r, l),
        DataView::Hash(h) => dict_of(r, h),
        DataView::Members(m) => members_of(r, m),
        DataView::Stream(s) => entries_reply_is(r, s),
        DataView::Scores(z) => scores_dict_of(r, z),
    }
}

/// The arguments after the key: from index 2 on.
pub open spec fn tail_from(a: Seq<Seq<u8>>, i: int) -> Seq<Seq<u8>> {
    if i <= a.len() {
        a.subrange(i, a.len() as int)
    } else {
        seq![]
    }
}

/// The deadline and groups of the value under a key, kept when the value is
/// changed in place.
pub open spec fn meta_at(old: Map<Seq<u8>, EntryView>, k: Seq<u8>) -> (Option<u64>, Map<Seq<u8>, StreamId>) {
    if old.contains_key(k) {
        (old[k].1, old[k].2)
    } else {
        (None, Map::empty())
    }
}

/// `redis_version:7.2.0`
pub const INFO_TEXT: [u8; 19] = [
    0x72u8, 0x65, 0x64, 0x69, 0x73, 0x5f, 0x76, 0x65, 0x72, 0x73, 0x69, 0x6f, 0x6e, 0x3a, 0x37,
    0x2e, 0x32, 0x2e, 0x30,
];

/// What one command does to the store and what it replies, by its name.
/// Commands this stand-in does not know change nothing and reply nil.
pub open spec fn command_post(old: Map<Seq<u8>, EntryView>, new: Map<Seq<u8>, EntryView>, a: Seq<Seq<u8>>, now: u64, r: Result<Reply, RedisError>) -> bool {
    let n = a[0];
    if a.len() == 0 {
        new == old && r matches Ok(Reply::Nil)
    } else if n == KW_XREAD@ || n == KW_XREADGROUP@ {
        xread_post(old, new, a, now, r)
    } else {
        match r {
            Ok(x) => if n == KW_SET@ {
                set_post(old, new, a, now, x)
            } else if n == KW_GET@ {
                new == old && get_post(old, a, x)
            } else if n == KW_DEL@ {
                del_post(old, new, a, x)
            } else if n == KW_EXISTS@ {
                new == old && exists_post(old, a, x)
            } else if n == KW_HSET@ {
                hset_post(old, new, a, x)
            } else if n == KW_HGET@ {
                new == old && hget_post(old, a, x)
            } else if n == KW_HGETALL@ {
                new == old && hgetall_post(old, a, x)
            } else if n == KW_XADD@ {
                xadd_post(old, new, a, now, x)
            } else if n == KW_XGROUP@ {
                xgroup_post(old, new, a, x)
            } else if n == KW_LPUSH@ {
                push_post(old, new, a, true, x)
            } else if n == KW_RPUSH@ {
                push_post(old, new, a, false, x)
            } else if n == KW_LPOP@ {
                lpop_post(old, new, a, x)
            } else if n == KW_BLPOP@ {
                blpop_post(old, new, a, x)
            } else if n == KW_LLEN@ {
                new == old && llen_post(old, a, x)
            } else if n == KW_LRANGE@ {
                new == old && lrange_post(old, a, x)
            } else if n == KW_HEXISTS@ {
                new == old && hexists_post(old, a, x)
            } else if n == KW_HMGET@ {
                new == old && hmget_post(old, a, x)
            } else if n == KW_HDEL@ {
                hdel_post(old, new, a, x)
            } else if n == KW_TTL@ {
                new == old && ttl_post(old, a, now, x)
            } else if n == KW_EXPIRE@ {
                expire_post(old, new, a, now, x)
            } else if n == KW_PFADD@ {
                pfadd_post(old, new, a, x)
            } else if n == KW_PFCOUNT@ {
                new == old && pfcount_post(old, a, x)
            } else if n == KW_PFMERGE@ {
                pfmerge_post(old, new, a, x)
            } else if n == KW_XACK@ {
                new == old && xack_post(old, a, x)
            } else if n == KW_ZADD@ {
                zadd_post(old, new, a, x)
            } else if n == KW_ZREM@ {
                zrem_post(old, new, a, x)
            } else if n == KW_ZCARD@ {
                new == old && zcard_post(old, a, x)
            } else if n == KW_XINFO@ {
                xinfo_post(old, new, a, x)
            } else if n == KW_LREM@ {
                lrem_post(old, new, a, x)
            } else if n == KW_KEYS@ {
                new == old && keys_post(old, a, x)
            } else if n == KW_ACL@ {
                new == old && acl_post(a, x)
            } else if n == KW_EVAL@ {
                new == old && eval_post(a, x)
            } else if n == KW_AUTH@ {
                new == old && bool_is(x, true)
            } else if n == KW_INFO@ {
                new == old && bulk_is(x, INFO_TEXT@)
            } else {
                new == old && is_nil(x)
            },
            Err(_) => false,
        }
    }
}

/// A count as an integer reply holds it: capped at the largest integer.
pub open spec fn count_int(n: nat) -> int {
    if n <= i64::MAX {
        n as int
    } else {
        i64::MAX as int
    }
}

/// `test`
pub const T_TEST: [u8; 4] = [0x74u8, 0x65, 0x73, 0x74];

/// `return ARGV[1]`
pub const T_RETURN_ARGV: [u8; 14] = [0x72u8, 0x65, 0x74, 0x75, 0x72, 0x6e, 0x20, 0x41, 0x52, 0x47, 0x56, 0x5b, 0x31, 0x5d];

/// `0`
pub const T_ZERO: [u8; 1] = [0x30u8];

/// `ACL GENPASS` and `ACL WHOAMI` answer fixed text; any other `ACL`
/// command answers true.
pub open spec fn acl_post(a: Seq<Seq<u8>>, r: Reply) -> bool {
    if a.len() >= 2 && a[1] == KW_GENPASS@ {
        bulk_is(r, KW_GENPASS@)
    } else if a.len() >= 2 && a[1] == KW_WHOAMI@ {
        bulk_is(r, T_TEST@)
    } else {
        bool_is(r, true)
    }
}

/// `EVAL "return ARGV[1]" 0 arg` answers `arg`; any other script nil.
pub open spec fn eval_post(a: Seq<Seq<u8>>, r: Reply) -> bool {
    if a.len() >= 4 && a[1] == T_RETURN_ARGV@ && a[2] == T_ZERO@ {
        bulk_is(r, a[3])
    } else {
        is_nil(r)
    }
}

/// `ACL`; see `acl_post`.
fn acl_reply(args: &Vec<Vec<u8>>) -> (r: Reply)
    ensures
        acl_post(bytes_views(args@), r),
{
    if args.len() >= 2 && bytes_eq(args[1].as_slice(), &KW_GENPASS) {
        Reply::BulkString(vstd::slice::slice_to_vec(&KW_GENPASS))
    } else if args.len() >= 2 && bytes_eq(args[1].as_slice(), &KW_WHOAMI) {
        Reply::BulkString(vstd::slice::slice_to_vec(&T_TEST))
    } else {
        Reply::Boolean(true)
    }
}

/// `EVAL`; see `eval_post`.
fn eval_reply(args: &Vec<Vec<u8>>) -> (r: Reply)
    ensures
        eval_post(bytes_views(args@), r),
{
    if args.len() >= 4 && bytes_eq(args[1].as_slice(), &T_RETURN_ARGV) && bytes_eq(args[2].as_slice(), &T_ZERO) {
        Reply::BulkString(vstd::slice::slice_to_vec(args[3].as_slice()))
    } else {
        Reply::Nil
    }
}

/// An integer reply for a count, capped at the largest integer.
pub(crate) fn count_reply(n: usize) -> (r: Reply)
    ensures
        int_is(r, count_int(n as nat)),
{
    if n as u128 <= i64::MAX as u128 {
        Reply::Int(n as i64)
    } else {
        Reply::Int(i64::MAX)
    }
}

/// Whether the list holds the byte string.
pub(crate) fn contains_bytes(v: &Vec<Vec<u8>>, x: &[u8]) -> (r: bool)
    ensures
        r == bytes_views(v@).contains(x@),
{
    let mut i: usize = 0;
    while i < v.len()
        invariant
            0 <= i <= v@.len(),
            forall|j: int| 0 <= j < i ==> v@[j]@ != x@,
        decreases v@.len() - i,
    {
        if bytes_eq(v[i].as_slice(), x) {
            assert(bytes_views(v@)[i as int] == x@);
            return true;
        }
        i += 1;
    }
    assert(!bytes_views(v@).contains(x@)) by {
        if bytes_views(v@).contains(x@) {
            let j = choose|j: int| 0 <= j < bytes_views(v@).len() && bytes_views(v@)[j] == x@;
            assert(v@[j]@ == x@);
        }
    }
    false
}

/// Relies on std::time::SystemTime::elapsed, on the epoch: the wall clock in
/// milliseconds since the epoch, 0 for a clock set before it and the largest
/// value past the 64-bit range. Nothing is assumed of the value.
#[verifier::external_body]
fn now_millis() -> (r: u64) {
    match std::time::UNIX_EPOCH.elapsed() {
        Ok(d) => u64::try_from(d.as_millis()).unwrap_or(u64::MAX),
        Err(_) => 0,
    }
}

/// The reply that reads back what a key holds.
pub fn data_reply(d: &Data) -> (r: Reply)
    requires
        d.wf(),
    ensures
        data_reply_is(r, d@),
{
    match d {
        Data::Bytes(b) => Reply::BulkString(vstd::slice::slice_to_vec(b.as_slice())),
        Data::List(l) => Reply::Array(bulks_of(l)),
        Data::Hash(h) => {
            let v = bulk_pairs_of(h);
            proof {
                assert(bulk_pairs_are(v@, pair_views(h@)));
            }
            Reply::Dict(v)
        },
        Data::Members(m) => {
            let v = bulks_of(m);
            proof {
                assert(bulks_are(v@, bytes_views(m@)));
            }
            Reply::Members(v)
        },
        Data::Stream(s) => Reply::Array(entries_of(s)),
        Data::Scores(z) => {
            let v = score_pairs_of(z);
            proof {
                assert(score_pairs_are(v@, pair_views(z@)));
            }
            Reply::Dict(v)
        },
    }
}

/// Members as bulk strings with their scores as doubles.
fn score_pairs_of(h: &Vec<(Vec<u8>, Vec<u8>)>) -> (r: Vec<(Reply, Reply)>)
    ensures
        score_pairs_are(r@, pair_views(h@)),
{
    let mut r: Vec<(Reply, Reply)> = Vec::new();
    let mut i: usize = 0;
    while i < h.len()
        invariant
            0 <= i <= h@.len(),
            r@.len() == i,
            forall|j: int|
                0 <= j < i ==> bulk_is((#[trigger] r@[j]).0, h@[j].0@) && (r@[j].1 matches Reply::Double(t) && t@ == h@[j].1@),
        decreases h@.len() - i,
    {
        r.push(
            (
                Reply::BulkString(vstd::slice::slice_to_vec(h[i].0.as_slice())),
                Reply::Double(vstd::slice::slice_to_vec(h[i].1.as_slice())),
            ),
        );
        i += 1;
    }
    r
}

/// Bulk strings holding the given byte strings.
pub fn bulks_of(l: &Vec<Vec<u8>>) -> (r: Vec<Reply>)
    ensures
        bulks_are(r@, bytes_views(l@)),
{
    let mut r: Vec<Reply> = Vec::new();
    let mut i: usize = 0;
    while i < l.len()
        invariant
            0 <= i <= l@.len(),
            r@.len() == i,
            forall|j: int| 0 <= j < i ==> bulk_is(#[trigger] r@[j], l@[j]@),
        decreases l@.len() - i,
    {
        r.push(Reply::BulkString(vstd::slice::slice_to_vec(l[i].as_slice())));
        i += 1;
    }
    r
}

/// Pairs of bulk strings holding the given pairs.
pub fn bulk_pairs_of(h: &Vec<(Vec<u8>, Vec<u8>)>) -> (r: Vec<(Reply, Reply)>)
    ensures
        bulk_pairs_are(r@, pair_views(h@)),
{
    let mut r: Vec<(Reply, Reply)> = Vec::new();
    let mut i: usize = 0;
    while i < h.len()
        invariant
            0 <= i <= h@.len(),
            r@.len() == i,
            forall|j: int|
                0 <= j < i ==> bulk_is((#[trigger] r@[j]).0, h@[j].0@) && bulk_is(r@[j].1, h@[j].1@),
        decreases h@.len() - i,
    {
        r.push(
            (
                Reply::BulkString(vstd::slice::slice_to_vec(h[i].0.as_slice())),
                Reply::BulkString(vstd::slice::slice_to_vec(h[i].1.as_slice())),
            ),
        );
        i += 1;
    }
    r
}

/// The text of a stream id.
pub fn id_text_of(id: StreamId) -> (r: Vec<u8>)
    ensures
        r@ == id_text(id),
{
    let mut out: Vec<u8> = Vec::new();
    crate::words::push_dec(id.0, &mut out);
    out.push(0x2du8);
    crate::words::push_dec(id.1, &mut out);
    assert(out@ =~= id_text(id));
    out
}

/// Field, value, field, value, ... as bulk strings.
fn flat_bulks(p: &Vec<(Vec<u8>, Vec<u8>)>) -> (r: Vec<Reply>)
    ensures
        bulks_are(r@, flat_pairs(pair_views(p@))),
{
    let ghost pv = pair_views(p@);
    let mut r: Vec<Reply> = Vec::new();
    let mut i: usize = 0;
    while i < p.len()
        invariant
            pv == pair_views(p@),
            0 <= i <= p@.len(),
            bulks_are(r@, flat_pairs(pv.take(i as int))),
        decreases p@.len() - i,
    {
        let ghost before = r@;
        let ghost fb = flat_pairs(pv.take(i as int));
        r.push(Reply::BulkString(vstd::slice::slice_to_vec(p[i].0.as_slice())));
        r.push(Reply::BulkString(vstd::slice::slice_to_vec(p[i].1.as_slice())));
        proof {
            let t = pv.take(i + 1);
            assert(t.drop_last() =~= pv.take(i as int));
            assert(t.last() == pv[i as int]);
            let f = flat_pairs(t);
            assert(f == fb + seq![pv[i as int].0, pv[i as int].1]);
            assert forall|j: int| 0 <= j < r@.len() implies bulk_is(#[trigger] r@[j], f[j]) by {
                if j < before.len() {
                    assert(r@[j] == before[j]);
                    assert(bulk_is(before[j], fb[j]));
                }
            }
        }
        i += 1;
    }
    assert(pv.take(i as int) =~= pv);
    r
}

/// A stream entry as the server sends it.
pub fn entry_reply(e: &StreamEntry) -> (r: Reply)
    ensures
        entry_reply_is(r, e@),
{
    let mut v: Vec<Reply> = Vec::new();
    v.push(Reply::SimpleString(id_text_of(e.id)));
    v.push(Reply::Array(flat_bulks(&e.fields)));
    Reply::Array(v)
}

/// Stream entries as the server sends them.
fn entries_of(s: &Vec<StreamEntry>) -> (r: Vec<Reply>)
    ensures
        r@.len() == s@.len(),
        forall|i: int| 0 <= i < r@.len() ==> entry_reply_is(#[trigger] r@[i], s@[i]@),
{
    let mut r: Vec<Reply> = Vec::new();
    let mut i: usize = 0;
    while i < s.len()
        invariant
            0 <= i <= s@.len(),
            r@.len() == i,
            forall|j: int| 0 <= j < i ==> entry_reply_is(#[trigger] r@[j], s@[j]@),
        decreases s@.len() - i,
    {
        r.push(entry_reply(&s[i]));
        i += 1;
    }
    r
}

impl MockRedis {
    /// The stored values by key.
    pub closed spec fn store(&self) -> Map<Seq<u8>, EntryView> {
        assoc(store_views(self.values@))
    }

    /// The index of the database this stands for.
    pub closed spec fn db_index(&self) -> i64 {
        self.db
    }

    /// The index of the database this stands for.
    pub fn db(&self) -> (r: i64)
        ensures
            r == self.db_index(),
    {
        self.db
    }

    /// Keys are unique and every stored value is well formed.
    pub closed spec fn wf(&self) -> bool {
        &&& keys_unique(store_views(self.values@))
        &&& forall|i: int| 0 <= i < self.values@.len() ==> (#[trigger] self.values@[i]).1.wf()
    }

    /// An empty database with index `db`.
    pub fn new(db: i64) -> (r: MockRedis)
        ensures
            r.wf(),
            r.db_index() == db,
            r.store() == Map::<Seq<u8>, EntryView>::empty(),
    {
        let r = MockRedis { db, values: Vec::new() };
        assert(store_views(r.values@) =~= Seq::<(Seq<u8>, EntryView)>::empty());
        r
    }

    /// The index of the entry stored under `key`.
    fn index_of(&self, key: &[u8]) -> (r: Option<usize>)
        requires
            self.wf(),
        ensures
            match r {
                Some(i) => i < self.values@.len() && self.values@[i as int].0@ == key@
                    && self.store().contains_key(key@) && self.store()[key@] == self.values@[i as int].1@,
                None => !self.store().contains_key(key@),
            },
    {
        let ghost e = store_views(self.values@);
        proof {
            lemma_assoc_unique(e);
        }
        match find_key(&self.values, key) {
            Some(i) => {
                assert(e[i as int].0 == key@);
                Some(i)
            },
            None => {
                assert(!self.store().contains_key(key@)) by {
                    if self.store().contains_key(key@) {
                        let j = choose|j: int| 0 <= j < e.len() && (#[trigger] e[j]).0 == key@;
                        assert(self.values@[j].0@ == key@);
                    }
                }
                None
            },
        }
    }

    /// Removes the entry under `key` and hands it back.
    fn take(&mut self, key: &[u8]) -> (r: Option<Entry>)
        requires
            old(self).wf(),
        ensures
            final(self).wf(),
            final(self).db_index() == old(self).db_index(),
            final(self).store() == old(self).store().remove(key@),
            match r {
                Some(e) => old(self).store().contains_key(key@) && e@ == old(self).store()[key@] && e.wf(),
                None => !old(self).store().contains_key(key@),
            },
    {
        match self.index_of(key) {
            Some(i) => {
                let ghost e = store_views(self.values@);
                let (_, entry) = self.values.remove(i);
                proof {
                    lemma_assoc_remove(e, i as int);
                    assert(store_views(self.values@) =~= e.remove(i as int));
                    assert forall|j: int| 0 <= j < self.values@.len() implies (#[trigger] self.values@[j]).1.wf() by {
                        if j < i {
                            assert(self.values@[j] == old(self).values@[j]);
                        } else {
                            assert(self.values@[j] == old(self).values@[j + 1]);
                        }
                    }
                    assert(old(self).values@[i as int].1.wf());
                }
                Some(entry)
            },
            None => {
                assert(self.store().remove(key@) =~= self.store());
                None
            },
        }
    }

    /// Stores `entry` under `key`, which holds nothing.
    fn put(&mut self, key: &[u8], entry: Entry)
        requires
            old(self).wf(),
            !old(self).store().contains_key(key@),
            entry.wf(),
        ensures
            final(self).wf(),
            final(self).db_index() == old(self).db_index(),
            final(self).store() == old(self).store().insert(key@, entry@),
    {
        let ghost e = store_views(self.values@);
        let ghost ev = entry@;
        proof {
            lemma_assoc_unique(e);
            assert forall|i: int| 0 <= i < e.len() implies (#[trigger] e[i]).0 != key@ by {
                assert(self.store().contains_key(e[i].0));
            }
            lemma_assoc_push(e, key@, ev);
        }
        self.values.push((vstd::slice::slice_to_vec(key), entry));
        proof {
            assert(store_views(self.values@) =~= e.push((key@, ev)));
            assert forall|j: int| 0 <= j < self.values@.len() implies (#[trigger] self.values@[j]).1.wf() by {
                if j < e.len() {
                    assert(self.values@[j] == old(self).values@[j]);
                }
            }
        }
    }

    /// Runs one command, given as its name followed by its arguments, at
    /// clock time `now` (milliseconds since the epoch).
    pub fn execute_at(&mut self, args: &Vec<Vec<u8>>, now: u64) -> (r: Result<Reply, RedisError>)
        requires
            old(self).wf(),
            args@.len() <= i64::MAX,
        ensures
            final(self).wf(),
            final(self).db_index() == old(self).db_index(),
            command_post(old(self).store(), final(self).store(), bytes_views(args@), now, r),
    {
        if args.len() == 0 {
            return Ok(Reply::Nil);
        }
        let n = args[0].as_slice();
        if bytes_eq(n, &KW_XREAD) || bytes_eq(n, &KW_XREADGROUP) {
            self.cmd_xread(args, now)
        } else if bytes_eq(n, &KW_SET) {
            Ok(self.cmd_set(args, now))
        } else if bytes_eq(n, &KW_GET) {
            Ok(self.cmd_get(args))
        } else if bytes_eq(n, &KW_DEL) {
            Ok(self.cmd_del(args))
        } else if bytes_eq(n, &KW_EXISTS) {
            Ok(self.cmd_exists(args))
        } else if bytes_eq(n, &KW_HSET) {
            Ok(self.cmd_hset(args))
        } else if bytes_eq(n, &KW_HGET) {
            Ok(self.cmd_hget(args))
        } else if bytes_eq(n, &KW_HGETALL) {
            Ok(self.cmd_hgetall(args))
        } else if bytes_eq(n, &KW_XADD) {
            Ok(self.cmd_xadd(args, now))
        } else if bytes_eq(n, &KW_XGROUP) {
            Ok(self.cmd_xgroup(args))
        } else if bytes_eq(n, &KW_LPUSH) {
            Ok(self.cmd_push(args, true))
        } else if bytes_eq(n, &KW_RPUSH) {
            Ok(self.cmd_push(args, false))
        } else if bytes_eq(n, &KW_LPOP) {
            Ok(self.cmd_lpop(args))
        } else if bytes_eq(n, &KW_BLPOP) {
            Ok(self.cmd_blpop(args))
        } else if bytes_eq(n, &KW_LLEN) {
            Ok(self.cmd_llen(args))
        } else if bytes_eq(n, &KW_LRANGE) {
            Ok(self.cmd_lrange(args))
        } else if bytes_eq(n, &KW_HEXISTS) {
            Ok(self.cmd_hexists(args))
        } else if bytes_eq(n, &KW_HMGET) {
            Ok(self.cmd_hmget(args))
        } else if bytes_eq(n, &KW_HDEL) {
            Ok(self.cmd_hdel(args))
        } else if bytes_eq(n, &KW_TTL) {
            Ok(self.cmd_ttl(args, now))
        } else if bytes_eq(n, &KW_EXPIRE) {
            Ok(self.cmd_expire(args, now))
        } else if bytes_eq(n, &KW_PFADD) {
            Ok(self.cmd_pfadd(args))
        } else if bytes_eq(n, &KW_PFCOUNT) {
            Ok(self.cmd_pfcount(args))
        } else if bytes_eq(n, &KW_PFMERGE) {
            Ok(self.cmd_pfmerge(args))
        } else if bytes_eq(n, &KW_XACK) {
            Ok(self.cmd_xack(args))
        } else if bytes_eq(n, &KW_ZADD) {
            Ok(self.cmd_zadd(args))
        } else if bytes_eq(n, &KW_ZREM) {
            Ok(self.cmd_zrem(args))
        } else if bytes_eq(n, &KW_ZCARD) {
            Ok(self.cmd_zcard(args))
        } else if bytes_eq(n, &KW_XINFO) {
            Ok(self.cmd_xinfo(args))
        } else if bytes_eq(n, &KW_LREM) {
            Ok(self.cmd_lrem(args))
        } else if bytes_eq(n, &KW_KEYS) {
            Ok(self.cmd_keys(args))
        } else if bytes_eq(n, &KW_ACL) {
            Ok(acl_reply(args))
        } else if bytes_eq(n, &KW_EVAL) {
            Ok(eval_reply(args))
        } else if bytes_eq(n, &KW_AUTH) {
            Ok(Reply::Boolean(true))
        } else if bytes_eq(n, &KW_INFO) {
            let mut t: Vec<u8> = Vec::new();
            crate::words::append_bytes(&mut t, &INFO_TEXT);
            Ok(Reply::BulkString(t))
        } else {
            Ok(Reply::Nil)
        }
    }

    /// Runs one command at the current time; see `execute_at`.
    pub fn execute(&mut self, args: &Vec<Vec<u8>>) -> (r: Result<Reply, RedisError>)
        requires
            old(self).wf(),
            args@.len() <= i64::MAX,
        ensures
            final(self).wf(),
            final(self).db_index() == old(self).db_index(),
            exists|now: u64| command_post(old(self).store(), final(self).store(), bytes_views(args@), now, r),
    {
        let now = now_millis();
        self.execute_at(args, now)
    }

    /// The status snapshot: `closed` (false), `impl` (`mock`) and `db`.
    pub fn status(&self) -> (r: Vec<(Vec<u8>, Reply)>)
        ensures
            r@.len() == 3,
            r@[0].0@ == crate::pool::T_CLOSED@,
            r@[1].0@ == crate::pool::T_IMPL@,
            r@[2].0@ == crate::pool::T_DB@,
            r@[0].1 matches Reply::Boolean(false),
            r@[1].1 matches Reply::SimpleString(t) && t@ == crate::pool::T_MOCK@,
            r@[2].1 matches Reply::Int(d) && d == self.db_index(),
    {
        let mut v: Vec<(Vec<u8>, Reply)> = Vec::new();
        v.push((vstd::slice::slice_to_vec(&crate::pool::T_CLOSED), Reply::Boolean(false)));
        v.push((vstd::slice::slice_to_vec(&crate::pool::T_IMPL), Reply::SimpleString(vstd::slice::slice_to_vec(&crate::pool::T_MOCK))));
        v.push((vstd::slice::slice_to_vec(&crate::pool::T_DB), Reply::Int(self.db)));
        v
    }
}

/// Running `DEL key` and then `EXISTS key` through the command entry point
/// answers false, whatever the store held and whatever the clock said.
pub proof fn lemma_execute_del_then_exists(
    s0: Map<Seq<u8>, EntryView>,
    s1: Map<Seq<u8>, EntryView>,
    s2: Map<Seq<u8>, EntryView>,
    k: Seq<u8>,
    n1: u64,
    n2: u64,
    r1: Result<Reply, RedisError>,
    r2: Result<Reply, RedisError>,
)
    requires
        command_post(s0, s1, seq![KW_DEL@, k], n1, r1),
        command_post(s1, s2, seq![KW_EXISTS@, k], n2, r2),
    ensures
        r2 matches Ok(x) && bool_is(x, false),
        s2 == s1,
{
    assert(KW_DEL@ != KW_XREAD@ && KW_DEL@ != KW_XREADGROUP@ && KW_DEL@ != KW_SET@ && KW_DEL@ != KW_GET@) by {
        assert(KW_DEL@.len() != KW_XREAD@.len());
        assert(KW_DEL@.len() != KW_XREADGROUP@.len());
        assert(KW_DEL@[0] != KW_SET@[0]);
        assert(KW_DEL@[0] != KW_GET@[0]);
    }
    assert(KW_EXISTS@ != KW_XREAD@ && KW_EXISTS@ != KW_XREADGROUP@ && KW_EXISTS@ != KW_SET@
        && KW_EXISTS@ != KW_GET@ && KW_EXISTS@ != KW_DEL@) by {
        assert(KW_EXISTS@[0] != KW_XREAD@[0]);
        assert(KW_EXISTS@[0] != KW_XREADGROUP@[0]);
        assert(KW_EXISTS@.len() != KW_SET@.len());
        assert(KW_EXISTS@.len() != KW_GET@.len());
        assert(KW_EXISTS@.len() != KW_DEL@.len());
    }
    let x1 = r1.unwrap();
    let x2 = r2.unwrap();
    lemma_del_then_exists(s0, s1, k, x1, x2);
}

/// Two `XADD` commands on the same stream, run through the command entry
/// point, each reply with the id of the entry they append, and the second id
/// comes after the first.
pub proof fn lemma_execute_xadd_twice(
    s0: Map<Seq<u8>, EntryView>,
    s1: Map<Seq<u8>, EntryView>,
    s2: Map<Seq<u8>, EntryView>,
    a1: Seq<Seq<u8>>,
    a2: Seq<Seq<u8>>,
    n1: u64,
    n2: u64,
    x1: Reply,
    x2: Reply,
)
    requires
        a1.len() >= 2 && a1[0] == KW_XADD@,
        a2.len() >= 2 && a2[0] == KW_XADD@ && a2[1] == a1[1],
        ids_increase(stream_at(s0, a1[1])),
        command_post(s0, s1, a1, n1, Ok(x1)),
        command_post(s1, s2, a2, n2, Ok(x2)),
        !is_nil(x1),
        !is_nil(x2),
    ensures
        simple_is(x1, id_text(stream_at(s1, a1[1]).last().0)),
        simple_is(x2, id_text(stream_at(s2, a1[1]).last().0)),
        id_after(stream_at(s2, a1[1]).last().0, stream_at(s1, a1[1]).last().0),
{
    lemma_xadd_dispatch();
    let k = a1[1];
    lemma_xadd_later_id(s0, s1, a1, n1, x1);
    lemma_xadd_later_id(s1, s2, a2, n2, x2);
    let t1 = stream_at(s1, k);
    assert(id_after(stream_at(s2, k).last().0, t1[t1.len() - 1].0));
}

/// `XADD` is told apart from the command names checked before it.
proof fn lemma_xadd_dispatch()
    ensures
        KW_XADD@ != KW_XREAD@,
        KW_XADD@ != KW_XREADGROUP@,
        KW_XADD@ != KW_SET@,
        KW_XADD@ != KW_GET@,
        KW_XADD@ != KW_DEL@,
        KW_XADD@ != KW_EXISTS@,
        KW_XADD@ != KW_HSET@,
        KW_XADD@ != KW_HGET@,
        KW_XADD@ != KW_HGETALL@,
{
    assert(KW_XADD@.len() != KW_XREAD@.len());
    assert(KW_XADD@.len() != KW_XREADGROUP@.len());
    assert(KW_XADD@.len() != KW_SET@.len());
    assert(KW_XADD@.len() != KW_GET@.len());
    assert(KW_XADD@.len() != KW_DEL@.len());
    assert(KW_XADD@.len() != KW_EXISTS@.len());
    assert(KW_XADD@[0] != KW_HSET@[0]);
    assert(KW_XADD@[0] != KW_HGET@[0]);
    assert(KW_XADD@.len() != KW_HGETALL@.len());
}

/// `XREADGROUP GROUP g c STREAMS k >` run twice through the command entry
/// point on a stream that has the group: the first read delivers the entries
/// after the group's offset and moves the offset to the last one delivered;
/// the second delivers nothing and changes nothing.
pub proof fn lemma_execute_group_read_twice(
    s0: Map<Seq<u8>, EntryView>,
    s1: Map<Seq<u8>, EntryView>,
    s2: Map<Seq<u8>, EntryView>,
    g: Seq<u8>,
    c: Seq<u8>,
    k: Seq<u8>,
    n1: u64,
    n2: u64,
    r1: Result<Reply, RedisError>,
    r2: Result<Reply, RedisError>,
)
    requires
        s0.contains_key(k),
        s0[k].2.contains_key(g),
        ids_increase(stream_at(s0, k)),
        command_post(s0, s1, seq![KW_XREADGROUP@, KW_GROUP@, g, c, KW_STREAMS@, k, seq![0x3eu8]], n1, r1),
        command_post(s1, s2, seq![KW_XREADGROUP@, KW_GROUP@, g, c, KW_STREAMS@, k, seq![0x3eu8]], n2, r2),
    ensures
        ({
            let (st1, items) = read_step(s0, k, seq![0x3eu8], Some(g), n1);
            &&& s1 == st1
            &&& items.len() > 0 ==> s1[k].2[g] == items.last().0
            &&& r1 matches Ok(rep) && streams_reply_is(
                rep,
                if items.len() > 0 {
                    seq![(k, items)]
                } else {
                    seq![]
                },
            )
        }),
        s2 == s1,
        r2 matches Ok(rep) && streams_reply_is(rep, seq![]),
{
    let a = seq![KW_XREADGROUP@, KW_GROUP@, g, c, KW_STREAMS@, k, seq![0x3eu8]];
    let gt = seq![0x3eu8];
    assert(KW_STREAMS@ != KW_GROUP@) by {
        assert(KW_STREAMS@.len() != KW_GROUP@.len());
    }
    assert(read_opts(a, 4, Some(g)) == (Some(g), 5int));
    assert(read_opts(a, 1, None) == (Some(g), 5int));
    let pairs = stream_pairs(tail_from(a, 5));
    assert(tail_from(a, 5) =~= seq![k, gt]);
    assert(pairs =~= seq![(k, gt)]);
    assert(pairs[0] == (k, gt));
    assert(!lacks_group(s0, pairs, Some(g)));
    assert(pairs.drop_last() =~= Seq::<(Seq<u8>, Seq<u8>)>::empty());
    assert(pairs.last() == (k, gt));
    assert(read_fold(s0, pairs.drop_last(), Some(g), n1) == (s0, Seq::<(Seq<u8>, Seq<StreamEntryView>)>::empty()));
    assert(read_fold(s1, pairs.drop_last(), Some(g), n2) == (s1, Seq::<(Seq<u8>, Seq<StreamEntryView>)>::empty()));
    lemma_group_read_twice(s0, k, g, n1);
    let (st1, items) = read_step(s0, k, gt, Some(g), n1);
    let out1 = if items.len() > 0 { seq![(k, items)] } else { Seq::<(Seq<u8>, Seq<StreamEntryView>)>::empty() };
    assert(read_fold(s0, pairs, Some(g), n1) == (st1, out1));
    assert(s1 == st1);
    assert(s1.contains_key(k) && s1[k].2.contains_key(g));
    assert(!lacks_group(s1, pairs, Some(g)));
    assert(read_step(s1, k, gt, Some(g), n2) == read_step(s1, k, gt, Some(g), n1));
    assert(read_fold(s1, pairs, Some(g), n2) == (s1, Seq::<(Seq<u8>, Seq<StreamEntryView>)>::empty()));
}

/// `XREAD STREAMS k 0` run through the command entry point gives every entry
/// of the stream, in the order they were added, and changes nothing, when no
/// entry has the id `0-0` (which `XADD` never gives).
pub proof fn lemma_execute_read_from_zero(
    s0: Map<Seq<u8>, EntryView>,
    s1: Map<Seq<u8>, EntryView>,
    k: Seq<u8>,
    n: u64,
    r: Result<Reply, RedisError>,
)
    requires
        forall|i: int|
            0 <= i < stream_at(s0, k).len() ==> id_after(#[trigger] stream_at(s0, k)[i].0, (0, 0)),
        command_post(s0, s1, seq![KW_XREAD@, KW_STREAMS@, k, seq![0x30u8]], n, r),
    ensures
        s1 == s0,
        r matches Ok(rep) && streams_reply_is(
            rep,
            if s0.contains_key(k) && stream_at(s0, k).len() > 0 {
                seq![(k, stream_at(s0, k))]
            } else {
                seq![]
            },
        ),
{
    let a = seq![KW_XREAD@, KW_STREAMS@, k, seq![0x30u8]];
    let z = seq![0x30u8];
    assert(KW_STREAMS@ != KW_GROUP@) by {
        assert(KW_STREAMS@.len() != KW_GROUP@.len());
    }
    assert(read_opts(a, 1, None) == (None::<Seq<u8>>, 2int));
    let pairs = stream_pairs(tail_from(a, 2));
    assert(tail_from(a, 2) =~= seq![k, z]);
    assert(pairs =~= seq![(k, z)]);
    assert(pairs.last() == (k, z));
    assert(pairs.drop_last() =~= Seq::<(Seq<u8>, Seq<u8>)>::empty());
    assert(read_fold(s0, pairs.drop_last(), None, n) == (s0, Seq::<(Seq<u8>, Seq<StreamEntryView>)>::empty()));
    assert(z != seq![0x3eu8]) by {
        assert(z[0] != seq![0x3eu8][0]);
    }
    assert(z != seq![0x24u8]) by {
        assert(z[0] != seq![0x24u8][0]);
    }
    assert(crate::slot::first_from(z, 0x2d, 0).is_none()) by {
        assert(crate::slot::first_from(z, 0x2d, 1).is_none());
    }
    assert(crate::words::all_digits(z));
    assert(z.drop_last() =~= Seq::<u8>::empty());
    assert(z.last() == 0x30u8);
    assert(crate::words::digits_value(z.drop_last()) == 0);
    assert(crate::words::digits_value(z) == 0);
    assert(parse_id(z) == Some((0u64, 0u64)));
    if s0.contains_key(k) {
        assert(start_id(s0[k], z, None, n) == (0u64, 0u64));
        lemma_read_from_zero(stream_at(s0, k));
    }
    assert(tail_from(a, 1) =~= seq![KW_STREAMS@, k, z]);
}

} // verus!
