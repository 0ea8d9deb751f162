//! List commands.
use vstd::prelude::*;
use crate::mock::{Data, DataView, Entry, EntryView, MockRedis, StreamId, array_of_bulks, bulk_is, bulks_are, bulks_of, count_int, count_reply, group_views, int_is, is_nil, meta_at};
use crate::reply::Reply;
use crate::words::{bytes_eq, bytes_views};

verus! {

/// The list under a key: empty when the key holds no list.
pub open spec fn list_at(old: Map<Seq<u8>, EntryView>, k: Seq<u8>) -> Seq<Seq<u8>> {
    if old.contains_key(k) {
        match old[k].0 {
            DataView::List(l) => l,
            _ => seq![],
        }
    } else {
        seq![]
    }
}

/// `LPUSH key value` / `RPUSH key value`: puts the value at the front (or
/// the back) of the list, making the key a list if it is not one, and
/// replies with the new length. Without a value the key becomes an empty
/// list if it held none.
pub open spec fn push_post(old: Map<Seq<u8>, EntryView>, new: Map<Seq<u8>, EntryView>, a: Seq<Seq<u8>>, front: bool, r: Reply) -> bool {
    if a.len() < 2 {
        new == old && int_is(r, 0)
    } else {
        let l = list_at(old, a[1]);
        let l2 = if a.len() < 3 {
            l
        } else if front {
            seq![a[2]] + l
        } else {
            l.push(a[2])
        };
        &&& new == old.insert(a[1], (DataView::List(l2), meta_at(old, a[1]).0, meta_at(old, a[1]).1))
        &&& int_is(r, count_int(l2.len()))
    }
}

/// `LLEN key`: the length of the list, 0 when there is none.
pub open spec fn llen_post(old: Map<Seq<u8>, EntryView>, a: Seq<Seq<u8>>, r: Reply) -> bool {
    int_is(r, if a.len() >= 2 { count_int(list_at(old, a[1]).len()) } else { 0 })
}

/// How many elements `LPOP key count` takes: the count when it reads as a
/// number, else 1, and no more than the list holds.
pub open spec fn pop_count(t: Seq<u8>, len: nat) -> nat {
    let c = match crate::words::parse_dec(t, u64::MAX as nat) {
        Some(c) => c,
        None => 1,
    };
    if c < len {
        c
    } else {
        len
    }
}

/// `LPOP key [count]`: without a count, the first element (nil for an empty
/// or missing list); with one, an array of the first elements. The elements
/// returned leave the list; nothing else changes.
pub open spec fn lpop_post(old: Map<Seq<u8>, EntryView>, new: Map<Seq<u8>, EntryView>, a: Seq<Seq<u8>>, r: Reply) -> bool {
    if a.len() < 2 || list_at(old, a[1]).len() == 0 && a.len() < 3 {
        new == old && is_nil(r)
    } else {
        let l = list_at(old, a[1]);
        let n = if a.len() >= 3 { pop_count(a[2], l.len()) } else { 1 };
        &&& new == (if n == 0 { old } else { old.insert(a[1], (DataView::List(l.subrange(n as int, l.len() as int)), meta_at(old, a[1]).0, meta_at(old, a[1]).1)) })
        &&& if a.len() >= 3 {
            array_of_bulks(r, l.take(n as int))
        } else {
            bulk_is(r, l[0])
        }
    }
}

/// The first of the keys from index `i` on whose list is not empty.
pub open spec fn first_nonempty(old: Map<Seq<u8>, EntryView>, ks: Seq<Seq<u8>>, i: int) -> Option<int>
    decreases ks.len() - i,
{
    if i < 0 || i >= ks.len() {
        None
    } else if list_at(old, ks[i]).len() > 0 {
        Some(i)
    } else {
        first_nonempty(old, ks, i + 1)
    }
}

/// `BLPOP key... timeout`: takes the first element of the first non-empty
/// list and replies `[key, element]`; nil, and no change, when all are
/// empty. It never waits.
pub open spec fn blpop_post(old: Map<Seq<u8>, EntryView>, new: Map<Seq<u8>, EntryView>, a: Seq<Seq<u8>>, r: Reply) -> bool {
    let ks = if a.len() >= 2 { a.subrange(1, a.len() - 1) } else { seq![] };
    match first_nonempty(old, ks, 0) {
        None => new == old && is_nil(r),
        Some(i) => {
            let k = ks[i];
            let l = list_at(old, k);
            &&& new == old.insert(k, (DataView::List(l.subrange(1, l.len() as int)), meta_at(old, k).0, meta_at(old, k).1))
            &&& array_of_bulks(r, seq![k, l[0]])
        }
    }
}

/// `LRANGE key start end`: the elements from `start` to `end`, both
/// included; a bound that does not read as a number or lies past the end
/// is taken as the first (for `start`) or last (for `end`) index.
pub open spec fn lrange_post(old: Map<Seq<u8>, EntryView>, a: Seq<Seq<u8>>, r: Reply) -> bool {
    let l = if a.len() >= 2 { list_at(old, a[1]) } else { seq![] };
    if l.len() == 0 {
        array_of_bulks(r, seq![])
    } else {
        let s = match (if a.len() >= 3 { crate::words::parse_dec(a[2], u64::MAX as nat) } else { None }) {
            Some(x) => if x < l.len() { x } else { 0 },
            None => 0,
        };
        let e = match (if a.len() >= 4 { crate::words::parse_dec(a[3], u64::MAX as nat) } else { None }) {
            Some(x) => if x < l.len() { x } else { (l.len() - 1) as nat },
            None => (l.len() - 1) as nat,
        };
        array_of_bulks(r, if s <= e { l.subrange(s as int, e + 1 as int) } else { seq![] })
    }
}

/// A signed count as text: an optional `-` or `+` and decimal digits, within
/// the 64-bit range.
pub open spec fn parse_count(t: Seq<u8>) -> Option<int> {
    if t.len() > 0 && t[0] == 0x2d {
        match crate::words::parse_dec(t.subrange(1, t.len() as int), 0x8000_0000_0000_0000) {
            Some(n) => if t.len() > 1 && t[1] != 0x2b { Some(-(n as int)) } else { None },
            None => None,
        }
    } else {
        match crate::words::parse_dec(t, i64::MAX as nat) {
            Some(n) => Some(n as int),
            None => None,
        }
    }
}

/// The list without the occurrences of `v` after the first `keep` of them.
pub open spec fn lrem_keep(l: Seq<Seq<u8>>, v: Seq<u8>, keep: nat) -> Seq<Seq<u8>>
    decreases l.len(),
{
    if l.len() == 0 {
        seq![]
    } else if l[0] == v {
        if keep > 0 {
            seq![l[0]] + lrem_keep(l.subrange(1, l.len() as int), v, (keep - 1) as nat)
        } else {
            lrem_keep(l.subrange(1, l.len() as int), v, keep)
        }
    } else {
        seq![l[0]] + lrem_keep(l.subrange(1, l.len() as int), v, keep)
    }
}

/// How many elements of the list differ from `v`.
pub open spec fn count_other(l: Seq<Seq<u8>>, v: Seq<u8>) -> nat
    decreases l.len(),
{
    if l.len() == 0 {
        0
    } else {
        (if l[0] == v { 0nat } else { 1nat }) + count_other(l.subrange(1, l.len() as int), v)
    }
}

/// `LREM key count value`: keeps the first `|count|` occurrences of the
/// value (none when `count` is 0) and drops the later ones; the reply is the
/// number of elements that differ from the value. The key becomes a list if
/// it is not one. A count that does not read changes nothing but that, and
/// replies 0.
pub open spec fn lrem_post(old: Map<Seq<u8>, EntryView>, new: Map<Seq<u8>, EntryView>, a: Seq<Seq<u8>>, r: Reply) -> bool {
    if a.len() < 2 {
        new == old && int_is(r, 0)
    } else {
        let l = list_at(old, a[1]);
        let c = if a.len() >= 3 { parse_count(a[2]) } else { None };
        if c.is_some() && a.len() >= 4 {
            let keep = if c.unwrap() >= 0 { c.unwrap() as nat } else { (-c.unwrap()) as nat };
            &&& new == old.insert(a[1], (DataView::List(lrem_keep(l, a[3], keep)), meta_at(old, a[1]).0, meta_at(old, a[1]).1))
            &&& int_is(r, count_int(count_other(l, a[3])))
        } else {
            &&& new == old.insert(a[1], (DataView::List(l), meta_at(old, a[1]).0, meta_at(old, a[1]).1))
            &&& int_is(r, 0)
        }
    }
}

/// Reads a signed count; see `parse_count`.
fn count_of(t: &[u8]) -> (r: Option<i64>)
    ensures
        match r {
            Some(c) => parse_count(t@) == Some(c as int),
            None => parse_count(t@).is_none(),
        },
{
    if t.len() > 0 && t[0] == 0x2du8 {
        if t.len() > 1 && t[1] == 0x2bu8 {
            return None;
        }
        match crate::words::read_dec(vstd::slice::slice_subrange(t, 1, t.len()), 0x8000_0000_0000_0000u64) {
            Some(n) => {
                if t.len() <= 1 {
                    return None;
                }
                Some((0i128 - n as i128) as i64)
            },
            None => None,
        }
    } else {
        match crate::words::read_dec(t, i64::MAX as u64) {
            Some(n) => Some(n as i64),
            None => None,
        }
    }
}

/// The list without the occurrences of `v` after the first `keep`, and how
/// many elements differ from `v`.
fn lrem_list(l: &Vec<Vec<u8>>, v: &[u8], keep: u64) -> (r: (Vec<Vec<u8>>, usize))
    ensures
        bytes_views(r.0@) == lrem_keep(bytes_views(l@), v@, keep as nat),
        r.1 as nat == count_other(bytes_views(l@), v@),
{
    let ghost lv = bytes_views(l@);
    let mut out: Vec<Vec<u8>> = Vec::new();
    let mut others: usize = 0;
    let mut left: u64 = keep;
    let mut i: usize = 0;
    assert(lv.subrange(0, lv.len() as int) =~= lv);
    assert(bytes_views(out@) + lrem_keep(lv, v@, keep as nat) =~= lrem_keep(lv, v@, keep as nat));
    while i < l.len()
        invariant
            lv == bytes_views(l@),
            0 <= i <= lv.len(),
            others <= i,
            bytes_views(out@) + lrem_keep(lv.subrange(i as int, lv.len() as int), v@, left as nat) == lrem_keep(lv, v@, keep as nat),
            others as nat + count_other(lv.subrange(i as int, lv.len() as int), v@) == count_other(lv, v@),
        decreases lv.len() - i,
    {
        let ghost rest = lv.subrange(i as int, lv.len() as int);
        let ghost before = bytes_views(out@);
        proof {
            assert(rest[0] == lv[i as int]);
            assert(rest.subrange(1, rest.len() as int) =~= lv.subrange(i + 1, lv.len() as int));
        }
        let same = bytes_eq(l[i].as_slice(), v);
        if !same || left > 0 {
            out.push(vstd::slice::slice_to_vec(l[i].as_slice()));
            proof {
                assert(bytes_views(out@) =~= before + seq![lv[i as int]]);
            }
            if same {
                left -= 1;
            } else {
                others += 1;
            }
        }
        proof {
            assert(bytes_views(out@) + lrem_keep(lv.subrange(i + 1, lv.len() as int), v@, left as nat) =~= lrem_keep(lv, v@, keep as nat));
        }
        i += 1;
    }
    proof {
        assert(lv.subrange(i as int, lv.len() as int) =~= Seq::<Seq<u8>>::empty());
        assert(bytes_views(out@) + Seq::<Seq<u8>>::empty() =~= bytes_views(out@));
    }
    (out, others)
}

impl MockRedis {
    /// `LPUSH` (`front`) and `RPUSH`; see `push_post`.
    pub fn cmd_push(&mut self, args: &Vec<Vec<u8>>, front: bool) -> (r: Reply)
        requires
            old(self).wf(),
        ensures
            final(self).wf(),
            final(self).db_index() == old(self).db_index(),
            push_post(old(self).store(), final(self).store(), bytes_views(args@), front, r),
    {
        let ghost a = bytes_views(args@);
        if args.len() < 2 {
            return Reply::Int(0);
        }
        let key = args[1].as_slice();
        let prev = self.take(key);
        let (mut l, deadline, groups) = match prev {
            Some(e) => match e.data {
                Data::List(l) => (l, e.deadline, e.groups),
                _ => (Vec::new(), e.deadline, e.groups),
            },
            None => (Vec::new(), None, Vec::new()),
        };
        proof {
            if !old(self).store().contains_key(a[1]) {
                assert(group_views(groups@) =~= Seq::<(Seq<u8>, StreamId)>::empty());
            }
            if bytes_views(l@).len() == 0 {
                assert(bytes_views(l@) =~= Seq::<Seq<u8>>::empty());
            }
            assert(bytes_views(l@) == list_at(old(self).store(), a[1]));
        }
        let ghost lv = bytes_views(l@);
        if args.len() >= 3 {
            let v = vstd::slice::slice_to_vec(args[2].as_slice());
            if front {
                l.insert(0, v);
                assert(bytes_views(l@) =~= seq![a[2]] + lv);
            } else {
                l.push(v);
                assert(bytes_views(l@) =~= lv.push(a[2]));
            }
        }
        let n = l.len();
        let ghost l2 = bytes_views(l@);
        let entry = Entry { data: Data::List(l), deadline, groups };
        self.put(key, entry);
        assert(self.store() =~= old(self).store().insert(
            a[1],
            (DataView::List(l2), meta_at(old(self).store(), a[1]).0, meta_at(old(self).store(), a[1]).1),
        ));
        count_reply(n)
    }

    /// `LLEN`; see `llen_post`.
    pub fn cmd_llen(&self, args: &Vec<Vec<u8>>) -> (r: Reply)
        requires
            self.wf(),
        ensures
            llen_post(self.store(), bytes_views(args@), r),
    {
        if args.len() < 2 {
            return Reply::Int(0);
        }
        match self.index_of(args[1].as_slice()) {
            Some(i) => match &self.values[i].1.data {
                Data::List(l) => count_reply(l.len()),
                _ => Reply::Int(0),
            },
            None => Reply::Int(0),
        }
    }

    /// `LPOP`; see `lpop_post`.
    pub fn cmd_lpop(&mut self, args: &Vec<Vec<u8>>) -> (r: Reply)
        requires
            old(self).wf(),
        ensures
            final(self).wf(),
            final(self).db_index() == old(self).db_index(),
            lpop_post(old(self).store(), final(self).store(), bytes_views(args@), r),
    {
        let ghost a = bytes_views(args@);
        if args.len() < 2 {
            return Reply::Nil;
        }
        let key = args[1].as_slice();
        let len: usize = match self.index_of(key) {
            Some(i) => match &self.values[i].1.data {
                Data::List(l) => l.len(),
                _ => 0,
            },
            None => 0,
        };
        assert(len == list_at(old(self).store(), a[1]).len());
        if args.len() < 3 && len == 0 {
            return Reply::Nil;
        }
        let n: usize = if args.len() >= 3 {
            let c: u64 = match crate::words::read_dec(args[2].as_slice(), u64::MAX) {
                Some(c) => c,
                None => 1,
            };
            if (c as u128) < (len as u128) { c as usize } else { len }
        } else {
            1
        };
        if n == 0 {
            let v: Vec<Reply> = Vec::new();
            assert(bulks_are(v@, list_at(old(self).store(), a[1]).take(0)));
            return Reply::Array(v);
        }
        let prev = self.take(key);
        match prev {
            Some(e) => match e.data {
                Data::List(mut l) => {
                    let ghost lv = bytes_views(l@);
                    assert(lv == list_at(old(self).store(), a[1]));
                    let rest = l.split_off(n);
                    proof {
                        assert(bytes_views(rest@) =~= lv.subrange(n as int, lv.len() as int));
                        assert(bytes_views(l@) =~= lv.take(n as int));
                    }
                    let reply = if args.len() >= 3 {
                        Reply::Array(bulks_of(&l))
                    } else {
                        Reply::BulkString(vstd::slice::slice_to_vec(l[0].as_slice()))
                    };
                    let entry = Entry { data: Data::List(rest), deadline: e.deadline, groups: e.groups };
                    self.put(key, entry);
                    assert(self.store() =~= old(self).store().insert(
                        a[1],
                        (DataView::List(lv.subrange(n as int, lv.len() as int)), meta_at(old(self).store(), a[1]).0, meta_at(old(self).store(), a[1]).1),
                    ));
                    reply
                },
                _ => Reply::Nil,
            },
            None => Reply::Nil,
        }
    }

    /// `BLPOP`; see `blpop_post`.
    pub fn cmd_blpop(&mut self, args: &Vec<Vec<u8>>) -> (r: Reply)
        requires
            old(self).wf(),
        ensures
            final(self).wf(),
            final(self).db_index() == old(self).db_index(),
            blpop_post(old(self).store(), final(self).store(), bytes_views(args@), r),
    {
        let ghost a = bytes_views(args@);
        if args.len() < 2 {
            assert(first_nonempty(old(self).store(), Seq::<Seq<u8>>::empty(), 0).is_none());
            return Reply::Nil;
        }
        let ghost ks = a.subrange(1, a.len() - 1);
        let end: usize = args.len() - 1;
        let mut i: usize = 1;
        while i < end
            invariant
                a == bytes_views(args@),
                self.wf(),
                self.store() == old(self).store(),
                self.db_index() == old(self).db_index(),
                end == args@.len() - 1,
                ks == a.subrange(1, a.len() - 1),
                1 <= i <= end,
                ks.len() == end - 1,
                first_nonempty(old(self).store(), ks, 0) == first_nonempty(old(self).store(), ks, i - 1),
            decreases end - i,
        {
            let key = args[i].as_slice();
            assert(ks[i - 1] == a[i as int]);
            let len: usize = match self.index_of(key) {
                Some(j) => match &self.values[j].1.data {
                    Data::List(l) => l.len(),
                    _ => 0,
                },
                None => 0,
            };
            assert(len == list_at(old(self).store(), a[i as int]).len());
            if len > 0 {
                let prev = self.take(key);
                match prev {
                    Some(e) => match e.data {
                        Data::List(mut l) => {
                            let ghost lv = bytes_views(l@);
                            assert(lv == list_at(old(self).store(), a[i as int]));
                            assert(first_nonempty(old(self).store(), ks, i - 1) == Some(i - 1));
                            let first = l.remove(0);
                            assert(bytes_views(l@) =~= lv.subrange(1, lv.len() as int));
                            let mut v: Vec<Reply> = Vec::new();
                            v.push(Reply::BulkString(vstd::slice::slice_to_vec(key)));
                            v.push(Reply::BulkString(first));
                            assert(bulks_are(v@, seq![a[i as int], lv[0]]));
                            let entry = Entry { data: Data::List(l), deadline: e.deadline, groups: e.groups };
                            self.put(key, entry);
                            assert(self.store() =~= old(self).store().insert(
                                a[i as int],
                                (DataView::List(lv.subrange(1, lv.len() as int)), meta_at(old(self).store(), a[i as int]).0, meta_at(old(self).store(), a[i as int]).1),
                            ));
                            return Reply::Array(v);
                        },
                        _ => {
                            return Reply::Nil;
                        },
                    },
                    None => {
                        return Reply::Nil;
                    },
                }
            }
            i += 1;
        }
        Reply::Nil
    }

    /// `LRANGE`; see `lrange_post`.
    pub fn cmd_lrange(&self, args: &Vec<Vec<u8>>) -> (r: Reply)
        requires
            self.wf(),
        ensures
            lrange_post(self.store(), bytes_views(args@), r),
    {
        let ghost a = bytes_views(args@);
        let found = if args.len() >= 2 { self.index_of(args[1].as_slice()) } else { None };
        let i = match found {
            Some(i) => i,
            None => {
                let v: Vec<Reply> = Vec::new();
                assert(bulks_are(v@, Seq::<Seq<u8>>::empty()));
                return Reply::Array(v);
            },
        };
        let l = match &self.values[i].1.data {
            Data::List(l) => l,
            _ => {
                let v: Vec<Reply> = Vec::new();
                assert(bulks_are(v@, Seq::<Seq<u8>>::empty()));
                return Reply::Array(v);
            },
        };
        let ghost lv = bytes_views(l@);
        assert(lv == list_at(self.store(), a[1]));
        if l.len() == 0 {
            let v: Vec<Reply> = Vec::new();
            assert(bulks_are(v@, Seq::<Seq<u8>>::empty()));
            return Reply::Array(v);
        }
        let s: usize = match (if args.len() >= 3 { crate::words::read_dec(args[2].as_slice(), u64::MAX) } else { None }) {
            Some(x) => if (x as u128) < (l.len() as u128) { x as usize } else { 0 },
            None => 0,
        };
        let e: usize = match (if args.len() >= 4 { crate::words::read_dec(args[3].as_slice(), u64::MAX) } else { None }) {
            Some(x) => if (x as u128) < (l.len() as u128) { x as usize } else { l.len() - 1 },
            None => l.len() - 1,
        };
        let mut v: Vec<Reply> = Vec::new();
        let ln: usize = l.len();
        if s <= e {
            let mut j: usize = s;
            while j <= e
                invariant
                    ln == l@.len(),
                    lv == bytes_views(l@),
                    s <= j <= e + 1,
                    e < l@.len(),
                    v@.len() == j - s,
                    forall|q: int| 0 <= q < v@.len() ==> bulk_is(#[trigger] v@[q], lv[s + q]),
                decreases e + 1 - j,
            {
                v.push(Reply::BulkString(vstd::slice::slice_to_vec(l[j].as_slice())));
                j += 1;
            }
            assert(bulks_are(v@, lv.subrange(s as int, e + 1 as int)));
        } else {
            assert(bulks_are(v@, Seq::<Seq<u8>>::empty()));
        }
        Reply::Array(v)
    }

    /// `LREM`; see `lrem_post`.
    pub fn cmd_lrem(&mut self, args: &Vec<Vec<u8>>) -> (r: Reply)
        requires
            old(self).wf(),
        ensures
            final(self).wf(),
            final(self).db_index() == old(self).db_index(),
            lrem_post(old(self).store(), final(self).store(), bytes_views(args@), r),
    {
        let ghost a = bytes_views(args@);
        if args.len() < 2 {
            return Reply::Int(0);
        }
        let key = args[1].as_slice();
        let prev = self.take(key);
        let (l, deadline, groups) = match prev {
            Some(e) => match e.data {
                Data::List(l) => (l, e.deadline, e.groups),
                _ => (Vec::new(), e.deadline, e.groups),
            },
            None => (Vec::new(), None, Vec::new()),
        };
        proof {
            if !old(self).store().contains_key(a[1]) {
                assert(group_views(groups@) =~= Seq::<(Seq<u8>, StreamId)>::empty());
            }
            if bytes_views(l@).len() == 0 {
                assert(bytes_views(l@) =~= Seq::<Seq<u8>>::empty());
            }
            assert(bytes_views(l@) == list_at(old(self).store(), a[1]));
        }
        let ghost lv = bytes_views(l@);
        let c = if args.len() >= 3 { count_of(args[2].as_slice()) } else { None };
        let (kept, reply) = match c {
            Some(c) => if args.len() >= 4 {
                let keep: u64 = if c >= 0 { c as u64 } else { (0i128 - c as i128) as u64 };
                let (kept, others) = lrem_list(&l, args[3].as_slice(), keep);
                (kept, count_reply(others))
            } else {
                (l, Reply::Int(0))
            },
            None => (l, Reply::Int(0)),
        };
        let ghost kv = bytes_views(kept@);
        let entry = Entry { data: Data::List(kept), deadline, groups };
        self.put(key, entry);
        assert(self.store() =~= old(self).store().insert(
            a[1],
            (DataView::List(kv), meta_at(old(self).store(), a[1]).0, meta_at(old(self).store(), a[1]).1),
        ));
        reply
    }
}

} // verus!
