//! Plain values, key existence, expiry and key listing.
use vstd::prelude::*;
use crate::assoc::{keys_unique, lemma_assoc_unique};
use crate::mock::{Data, DataView, Entry, EntryView, MockRedis, StreamId, bool_is, bulk_is, bulks_are, data_reply, data_reply_is, group_views, int_is, is_nil, store_views, tail_from};
use crate::reply::Reply;
use crate::words::{KW_DEL, KW_EX, KW_EXISTS, KW_GET, KW_PX, KW_SET, bytes_eq, bytes_views};

verus! {

/// A deadline `amount * unit` milliseconds after `now`, when `t` reads as a
/// number; none otherwise. A deadline past the clock's range is its end.
pub open spec fn deadline_after(t: Seq<u8>, unit: nat, now: u64) -> Option<u64> {
    match crate::words::parse_dec(t, u64::MAX as nat) {
        Some(n) => Some(
            if now + n * unit > u64::MAX {
                u64::MAX
            } else {
                (now + n * unit) as u64
            },
        ),
        None => None,
    }
}

/// The deadline that the options of `SET` from index `i` on leave, starting
/// from `cur`: `EX s` and `PX ms` set it, a later one wins, other tokens are
/// skipped.
pub open spec fn set_deadline(a: Seq<Seq<u8>>, i: int, cur: Option<u64>, now: u64) -> Option<u64>
    decreases a.len() - i,
{
    if i < 0 || i >= a.len() {
        cur
    } else if a[i] == KW_EX@ {
        if i + 1 < a.len() {
            set_deadline(a, i + 2, deadline_after(a[i + 1], 1000, now), now)
        } else {
            cur
        }
    } else if a[i] == KW_PX@ {
        if i + 1 < a.len() {
            set_deadline(a, i + 2, deadline_after(a[i + 1], 1, now), now)
        } else {
            cur
        }
    } else {
        set_deadline(a, i + 1, cur, now)
    }
}

/// `SET key value [EX s | PX ms]...`: stores the bytes with the deadline the
/// options give and no groups; replies with what the key held before, or
/// nil. Without a key or a value nothing changes and the reply is nil.
pub open spec fn set_post(
    old: Map<Seq<u8>, EntryView>,
    new: Map<Seq<u8>, EntryView>,
    a: Seq<Seq<u8>>,
    now: u64,
    r: Reply,
) -> bool {
    if a.len() < 3 {
        new == old && is_nil(r)
    } else {
        &&& new == old.insert(
            a[1],
            (DataView::Bytes(a[2]), set_deadline(a, 3, None, now), Map::empty()),
        )
        &&& if old.contains_key(a[1]) {
            data_reply_is(r, old[a[1]].0)
        } else {
            is_nil(r)
        }
    }
}

/// `GET key`: what the key holds, or nil.
pub open spec fn get_post(old: Map<Seq<u8>, EntryView>, a: Seq<Seq<u8>>, r: Reply) -> bool {
    if a.len() >= 2 && old.contains_key(a[1]) {
        data_reply_is(r, old[a[1]].0)
    } else {
        is_nil(r)
    }
}

/// Removes the keys in order from the store, counting those that were there.
pub open spec fn del_fold(m: Map<Seq<u8>, EntryView>, ks: Seq<Seq<u8>>) -> (Map<Seq<u8>, EntryView>, nat)
    decreases ks.len(),
{
    if ks.len() == 0 {
        (m, 0)
    } else {
        let (m1, c1) = del_fold(m, ks.drop_last());
        if m1.contains_key(ks.last()) {
            (m1.remove(ks.last()), c1 + 1)
        } else {
            (m1, c1)
        }
    }
}

/// `DEL key...`: removes the keys and replies with how many there were.
pub open spec fn del_post(old: Map<Seq<u8>, EntryView>, new: Map<Seq<u8>, EntryView>, a: Seq<Seq<u8>>, r: Reply) -> bool {
    let (m, c) = del_fold(old, tail_from(a, 1));
    new == m && int_is(r, c as int)
}

/// `EXISTS key`: whether the key holds a value.
pub open spec fn exists_post(old: Map<Seq<u8>, EntryView>, a: Seq<Seq<u8>>, r: Reply) -> bool {
    bool_is(r, a.len() >= 2 && old.contains_key(a[1]))
}

/// `TTL key`: whole seconds until the key's deadline; -1 for a key without
/// one, with a deadline already past, or missing.
pub open spec fn ttl_post(old: Map<Seq<u8>, EntryView>, a: Seq<Seq<u8>>, now: u64, r: Reply) -> bool {
    int_is(
        r,
        if a.len() >= 2 && old.contains_key(a[1]) {
            match old[a[1]].1 {
                Some(d) => if d >= now {
                    ((d - now) / 1000) as int
                } else {
                    -1
                },
                None => -1,
            }
        } else {
            -1
        },
    )
}

/// `EXPIRE key seconds`: sets the key's deadline (none when the seconds do
/// not read as a number) and replies 1; 0 and no change for a missing key
/// or no seconds.
pub open spec fn expire_post(old: Map<Seq<u8>, EntryView>, new: Map<Seq<u8>, EntryView>, a: Seq<Seq<u8>>, now: u64, r: Reply) -> bool {
    if a.len() >= 3 && old.contains_key(a[1]) {
        &&& new == old.insert(a[1], (old[a[1]].0, deadline_after(a[2], 1000, now), old[a[1]].2))
        &&& int_is(r, 1)
    } else {
        new == old && int_is(r, 0)
    }
}

/// `p` is a prefix of `k`.
pub open spec fn has_prefix(k: Seq<u8>, p: Seq<u8>) -> bool {
    p.len() <= k.len() && k.take(p.len() as int) == p
}

/// The prefix a `KEYS` pattern stands for: the pattern without one trailing
/// `*`.
pub open spec fn key_prefix(p: Seq<u8>) -> Seq<u8> {
    if p.len() > 0 && p.last() == 0x2a {
        p.drop_last()
    } else {
        p
    }
}

/// `KEYS pattern`: every key that starts with the pattern's prefix, each
/// once, in no particular order; none without a pattern.
pub open spec fn keys_post(old: Map<Seq<u8>, EntryView>, a: Seq<Seq<u8>>, r: Reply) -> bool {
    match r {
        Reply::Array(v) => exists|s: Seq<Seq<u8>>|
            bulks_are(v@, s) && s.no_duplicates() && #[trigger] s.to_set() == (if a.len() >= 2 {
                old.dom().filter(|k: Seq<u8>| has_prefix(k, key_prefix(a[1])))
            } else {
                Set::empty()
            }),
        _ => false,
    }
}

/// The deadline that the options of a `SET` command give.
fn set_deadline_of(args: &Vec<Vec<u8>>, now: u64) -> (r: Option<u64>)
    requires
        args@.len() >= 3,
    ensures
        r == set_deadline(bytes_views(args@), 3, None, now),
{
    let ghost a = bytes_views(args@);
    let mut cur: Option<u64> = None;
    let mut i: usize = 3;
    while i < args.len()
        invariant
            a == bytes_views(args@),
            3 <= i,
            set_deadline(a, 3, None, now) == set_deadline(a, i as int, cur, now),
        decreases args@.len() - i,
    {
        let t = args[i].as_slice();
        if bytes_eq(t, &KW_EX) || bytes_eq(t, &KW_PX) {
            if i + 1 < args.len() {
                let unit: u64 = if bytes_eq(t, &KW_EX) { 1000 } else { 1 };
                cur = deadline_of(args[i + 1].as_slice(), unit, now);
                i += 2;
            } else {
                return cur;
            }
        } else {
            i += 1;
        }
    }
    cur
}

/// A deadline `t * unit` milliseconds after `now`; see `deadline_after`.
fn deadline_of(t: &[u8], unit: u64, now: u64) -> (r: Option<u64>)
    ensures
        r == deadline_after(t@, unit as nat, now),
{
    match crate::words::read_dec(t, u64::MAX) {
        Some(n) => {
            proof {
                assert((n as int) * (unit as int) <= 0xffff_ffff_ffff_ffffint * 0xffff_ffff_ffff_ffffint)
                    by (nonlinear_arith)
                    requires
                        n <= 0xffff_ffff_ffff_ffffu64,
                        unit <= 0xffff_ffff_ffff_ffffu64,
                ;
            }
            let total: u128 = now as u128 + n as u128 * unit as u128;
            if total > u64::MAX as u128 {
                Some(u64::MAX)
            } else {
                Some(total as u64)
            }
        },
        None => None,
    }
}

/// Setting a key and then reading it gives back the bytes that were set.
pub proof fn lemma_set_then_get(
    s0: Map<Seq<u8>, EntryView>,
    s1: Map<Seq<u8>, EntryView>,
    k: Seq<u8>,
    v: Seq<u8>,
    now: u64,
    r1: Reply,
    r2: Reply,
)
    requires
        set_post(s0, s1, seq![KW_SET@, k, v], now, r1),
        get_post(s1, seq![KW_GET@, k], r2),
    ensures
        bulk_is(r2, v),
{
}

/// Deleting a key and then asking whether it exists answers false.
pub proof fn lemma_del_then_exists(
    s0: Map<Seq<u8>, EntryView>,
    s1: Map<Seq<u8>, EntryView>,
    k: Seq<u8>,
    r1: Reply,
    r2: Reply,
)
    requires
        del_post(s0, s1, seq![KW_DEL@, k], r1),
        exists_post(s1, seq![KW_EXISTS@, k], r2),
    ensures
        bool_is(r2, false),
{
    let a = seq![KW_DEL@, k];
    assert(tail_from(a, 1) =~= seq![k]);
    assert(seq![k].drop_last() =~= Seq::<Seq<u8>>::empty());
}

impl MockRedis {
    /// `SET`; see `set_post`.
    pub fn cmd_set(&mut self, args: &Vec<Vec<u8>>, now: u64) -> (r: Reply)
        requires
            old(self).wf(),
        ensures
            final(self).wf(),
            final(self).db_index() == old(self).db_index(),
            set_post(old(self).store(), final(self).store(), bytes_views(args@), now, r),
    {
        if args.len() < 3 {
            return Reply::Nil;
        }
        let deadline = set_deadline_of(args, now);
        let key = args[1].as_slice();
        let prev = self.take(key);
        let entry = Entry {
            data: Data::Bytes(vstd::slice::slice_to_vec(args[2].as_slice())),
            deadline,
            groups: Vec::new(),
        };
        assert(group_views(entry.groups@) =~= Seq::<(Seq<u8>, StreamId)>::empty());
        self.put(key, entry);
        proof {
            assert(self.store() =~= old(self).store().insert(
                bytes_views(args@)[1],
                (DataView::Bytes(bytes_views(args@)[2]), set_deadline(bytes_views(args@), 3, None, now), Map::empty()),
            ));
        }
        match prev {
            Some(e) => data_reply(&e.data),
            None => Reply::Nil,
        }
    }

    /// `DEL`; see `del_post`.
    pub fn cmd_del(&mut self, args: &Vec<Vec<u8>>) -> (r: Reply)
        requires
            old(self).wf(),
            args@.len() <= i64::MAX,
        ensures
            final(self).wf(),
            final(self).db_index() == old(self).db_index(),
            del_post(old(self).store(), final(self).store(), bytes_views(args@), r),
    {
        let ghost a = bytes_views(args@);
        let ghost ks = tail_from(a, 1);
        let mut count: u64 = 0;
        if args.len() == 0 {
            assert(ks =~= Seq::<Seq<u8>>::empty());
            return Reply::Int(0);
        }
        let mut i: usize = 1;
        assert(ks.take(0) =~= Seq::<Seq<u8>>::empty());
        while i < args.len()
            invariant
                a == bytes_views(args@),
                ks == tail_from(a, 1),
                a.len() >= 1,
                1 <= i <= args@.len(),
                self.wf(),
                self.db_index() == old(self).db_index(),
                (self.store(), count as nat) == del_fold(old(self).store(), ks.take(i - 1)),
                count < i,
            decreases args@.len() - i,
        {
            let prev = self.take(args[i].as_slice());
            proof {
                let t = ks.take(i as int);
                assert(t.drop_last() =~= ks.take(i - 1));
                assert(t.last() == a[i as int]);
            }
            if prev.is_some() {
                count += 1;
            } else {
                assert(self.store() =~= self.store().remove(a[i as int]));
            }
            i += 1;
        }
        assert(ks.take(i - 1) =~= ks);
        Reply::Int(count as i64)
    }

    /// `EXISTS`; see `exists_post`.
    pub fn cmd_exists(&self, args: &Vec<Vec<u8>>) -> (r: Reply)
        requires
            self.wf(),
        ensures
            exists_post(self.store(), bytes_views(args@), r),
    {
        if args.len() < 2 {
            return Reply::Boolean(false);
        }
        Reply::Boolean(self.index_of(args[1].as_slice()).is_some())
    }

    /// `TTL`; see `ttl_post`.
    pub fn cmd_ttl(&self, args: &Vec<Vec<u8>>, now: u64) -> (r: Reply)
        requires
            self.wf(),
        ensures
            ttl_post(self.store(), bytes_views(args@), now, r),
    {
        let found = if args.len() >= 2 { self.index_of(args[1].as_slice()) } else { None };
        match found {
            Some(i) => match self.values[i].1.deadline {
                Some(d) => if d >= now {
                    Reply::Int(((d - now) / 1000) as i64)
                } else {
                    Reply::Int(-1)
                },
                None => Reply::Int(-1),
            },
            None => Reply::Int(-1),
        }
    }

    /// `EXPIRE`; see `expire_post`.
    pub fn cmd_expire(&mut self, args: &Vec<Vec<u8>>, now: u64) -> (r: Reply)
        requires
            old(self).wf(),
        ensures
            final(self).wf(),
            final(self).db_index() == old(self).db_index(),
            expire_post(old(self).store(), final(self).store(), bytes_views(args@), now, r),
    {
        if args.len() < 3 {
            return Reply::Int(0);
        }
        let key = args[1].as_slice();
        match self.take(key) {
            Some(e) => {
                let deadline = deadline_of(args[2].as_slice(), 1000, now);
                let ghost d0 = e.data@;
                let entry = Entry { data: e.data, deadline, groups: e.groups };
                self.put(key, entry);
                assert(self.store() =~= old(self).store().insert(
                    args@[1]@,
                    (d0, deadline_after(args@[2]@, 1000, now), old(self).store()[args@[1]@].2),
                ));
                Reply::Int(1)
            },
            None => {
                assert(self.store() =~= old(self).store());
                Reply::Int(0)
            },
        }
    }

    /// `KEYS`; see `keys_post`.
    pub fn cmd_keys(&self, args: &Vec<Vec<u8>>) -> (r: Reply)
        requires
            self.wf(),
        ensures
            keys_post(self.store(), bytes_views(args@), r),
    {
        let ghost a = bytes_views(args@);
        let mut v: Vec<Reply> = Vec::new();
        let ghost mut s: Seq<Seq<u8>> = seq![];
        if args.len() < 2 {
            assert(bulks_are(v@, s));
            assert(s.to_set() =~= Set::<Seq<u8>>::empty());
            return Reply::Array(v);
        }
        let pat = args[1].as_slice();
        let plen: usize = if pat.len() > 0 && pat[pat.len() - 1] == 0x2au8 { pat.len() - 1 } else { pat.len() };
        let prefix = vstd::slice::slice_subrange(pat, 0, plen);
        assert(prefix@ =~= key_prefix(a[1]));
        let ghost e = store_views(self.values@);
        let ghost target = self.store().dom().filter(|k: Seq<u8>| has_prefix(k, key_prefix(a[1])));
        proof {
            lemma_assoc_unique(e);
        }
        let mut i: usize = 0;
        while i < self.values.len()
            invariant
                e == store_views(self.values@),
                keys_unique(e),
                0 <= i <= e.len(),
                prefix@ == key_prefix(a[1]),
                target == self.store().dom().filter(|k: Seq<u8>| has_prefix(k, key_prefix(a[1]))),
                bulks_are(v@, s),
                s.no_duplicates(),
                forall|k: Seq<u8>| #[trigger] s.contains(k) <==> (exists|j: int| 0 <= j < i && e[j].0 == k && has_prefix(k, prefix@)),
            decreases e.len() - i,
        {
            let k = self.values[i].0.as_slice();
            let hit = k.len() >= prefix.len() && bytes_eq(vstd::slice::slice_subrange(k, 0, prefix.len()), prefix);
            proof {
                assert(k@ == e[i as int].0);
                if k@.len() >= prefix@.len() {
                    assert(k@.subrange(0, prefix@.len() as int) =~= k@.take(prefix@.len() as int));
                }
            }
            if hit {
                let ghost s0 = s;
                v.push(Reply::BulkString(vstd::slice::slice_to_vec(k)));
                proof {
                    s = s0.push(k@);
                    assert(!s0.contains(k@)) by {
                        if s0.contains(k@) {
                            let j = choose|j: int| 0 <= j < i && e[j].0 == k@ && has_prefix(k@, prefix@);
                            assert(e[j].0 != e[i as int].0);
                        }
                    }
                    assert forall|x: int, y: int| 0 <= x < y < s.len() implies s[x] != s[y] by {
                        if y == s0.len() {
                            assert(s0.contains(s0[x]));
                        } else {
                            assert(s0[x] != s0[y]);
                        }
                    }
                    assert forall|q: int| 0 <= q < v@.len() implies bulk_is(#[trigger] v@[q], s[q]) by {
                        if q < s0.len() {
                            assert(bulk_is(v@[q], s0[q]));
                        }
                    }
                    assert forall|kk: Seq<u8>| #[trigger] s.contains(kk) <==> (exists|j: int| 0 <= j < i + 1 && e[j].0 == kk && has_prefix(kk, prefix@)) by {
                        if s.contains(kk) && kk != k@ {
                            let q = choose|q: int| 0 <= q < s.len() && s[q] == kk;
                            assert(s0[q] == kk);
                            assert(s0.contains(kk));
                        }
                        if kk == k@ {
                            assert(s[s.len() - 1] == kk);
                        }
                        if exists|j: int| 0 <= j < i + 1 && e[j].0 == kk && has_prefix(kk, prefix@) {
                            let j = choose|j: int| 0 <= j < i + 1 && e[j].0 == kk && has_prefix(kk, prefix@);
                            if j < i {
                                assert(s0.contains(kk));
                                let q = choose|q: int| 0 <= q < s0.len() && s0[q] == kk;
                                assert(s[q] == kk);
                            }
                        }
                    }
                }
            } else {
                proof {
                    assert forall|kk: Seq<u8>| #[trigger] s.contains(kk) <==> (exists|j: int| 0 <= j < i + 1 && e[j].0 == kk && has_prefix(kk, prefix@)) by {
                        if exists|j: int| 0 <= j < i + 1 && e[j].0 == kk && has_prefix(kk, prefix@) {
                            let j = choose|j: int| 0 <= j < i + 1 && e[j].0 == kk && has_prefix(kk, prefix@);
                            if j == i {
                                assert(!has_prefix(k@, prefix@));
                            }
                        }
                    }
                }
            }
            i += 1;
        }
        proof {
            assert forall|kk: Seq<u8>| #[trigger] s.to_set().contains(kk) == target.contains(kk) by {
                if target.contains(kk) {
                    assert(self.store().contains_key(kk));
                    let j = choose|j: int| 0 <= j < e.len() && (#[trigger] e[j]).0 == kk;
                }
            }
            assert(s.to_set() =~= target);
        }
        Reply::Array(v)
    }

    /// `GET`; see `get_post`.
    pub fn cmd_get(&self, args: &Vec<Vec<u8>>) -> (r: Reply)
        requires
            self.wf(),
        ensures
            get_post(self.store(), bytes_views(args@), r),
    {
        if args.len() < 2 {
            return Reply::Nil;
        }
        match self.index_of(args[1].as_slice()) {
            Some(i) => data_reply(&self.values[i].1.data),
            None => Reply::Nil,
        }
    }
}

} // verus!
