//! The approximate-set commands, kept as exact sets, and sorted sets.
use vstd::prelude::*;
use crate::assoc::{assoc, find_key, keys_unique, lemma_assoc_len, lemma_assoc_remove, lemma_assoc_unique};
use crate::mock::{Data, DataView, Entry, EntryView, MockRedis, StreamId, bool_is, contains_bytes, count_int, count_reply, group_views, int_is, meta_at, pair_views, tail_from};
use crate::mock::hashes::{hdel_fold, upsert_pair};
use crate::reply::Reply;
use crate::words::bytes_views;

verus! {

/// The members of the set under a key: none when the key holds no set.
pub open spec fn members_at(old: Map<Seq<u8>, EntryView>, k: Seq<u8>) -> Set<Seq<u8>> {
    if old.contains_key(k) {
        match old[k].0 {
            DataView::Members(m) => m,
            _ => Set::empty(),
        }
    } else {
        Set::empty()
    }
}

/// `PFADD key element...`: adds the elements to the set (a key holding
/// something else becomes a set) and replies whether the set grew.
pub open spec fn pfadd_post(old: Map<Seq<u8>, EntryView>, new: Map<Seq<u8>, EntryView>, a: Seq<Seq<u8>>, r: Reply) -> bool {
    if a.len() < 2 {
        new == old && bool_is(r, false)
    } else {
        let m = members_at(old, a[1]);
        let m2 = m + tail_from(a, 2).to_set();
        &&& new == old.insert(a[1], (DataView::Members(m2), meta_at(old, a[1]).0, meta_at(old, a[1]).1))
        &&& bool_is(r, m2 != m)
    }
}

/// `PFCOUNT key`: the number of elements of the set, 0 when there is none.
pub open spec fn pfcount_post(old: Map<Seq<u8>, EntryView>, a: Seq<Seq<u8>>, r: Reply) -> bool {
    int_is(r, if a.len() >= 2 { count_int(members_at(old, a[1]).len()) } else { 0 })
}

/// The members of the sets under the keys, together.
pub open spec fn union_at(old: Map<Seq<u8>, EntryView>, ks: Seq<Seq<u8>>) -> Set<Seq<u8>>
    decreases ks.len(),
{
    if ks.len() == 0 {
        Set::empty()
    } else {
        union_at(old, ks.drop_last()) + members_at(old, ks.last())
    }
}

/// `PFMERGE dest src...`: the destination set gets the members of the
/// sources (a key holding something else becomes a set); the reply is true.
pub open spec fn pfmerge_post(old: Map<Seq<u8>, EntryView>, new: Map<Seq<u8>, EntryView>, a: Seq<Seq<u8>>, r: Reply) -> bool {
    &&& bool_is(r, true)
    &&& if a.len() < 2 {
        new == old
    } else {
        new == old.insert(
            a[1],
            (DataView::Members(members_at(old, a[1]) + union_at(old, tail_from(a, 2))), meta_at(old, a[1]).0, meta_at(old, a[1]).1),
        )
    }
}

/// The scores of the sorted set under a key: none when the key holds none.
pub open spec fn scores_at(old: Map<Seq<u8>, EntryView>, k: Seq<u8>) -> Map<Seq<u8>, Seq<u8>> {
    if old.contains_key(k) {
        match old[k].0 {
            DataView::Scores(z) => z,
            _ => Map::empty(),
        }
    } else {
        Map::empty()
    }
}

/// Sets scores from `score member` pairs, in order; a lone last score is
/// ignored.
pub open spec fn zadd_fold(z: Map<Seq<u8>, Seq<u8>>, p: Seq<Seq<u8>>) -> Map<Seq<u8>, Seq<u8>>
    decreases p.len(),
{
    if p.len() < 2 {
        z
    } else {
        zadd_fold(z.insert(p[1], p[0]), p.subrange(2, p.len() as int))
    }
}

/// `ZADD key score member...`: sets the members' scores (a key holding
/// something else becomes a sorted set) and replies with the number of
/// pairs given.
pub open spec fn zadd_post(old: Map<Seq<u8>, EntryView>, new: Map<Seq<u8>, EntryView>, a: Seq<Seq<u8>>, r: Reply) -> bool {
    if a.len() < 2 {
        new == old && int_is(r, 0)
    } else {
        &&& new == old.insert(
            a[1],
            (DataView::Scores(zadd_fold(scores_at(old, a[1]), tail_from(a, 2))), meta_at(old, a[1]).0, meta_at(old, a[1]).1),
        )
        &&& int_is(r, (a.len() - 2) / 2)
    }
}

/// Whether the key holds a sorted set.
pub open spec fn is_scores_at(old: Map<Seq<u8>, EntryView>, k: Seq<u8>) -> bool {
    old.contains_key(k) && old[k].0 matches DataView::Scores(_)
}

/// `ZREM key member...`: removes the members of a sorted set and replies
/// with how many there were; a key holding no sorted set is left alone and
/// gives 0.
pub open spec fn zrem_post(old: Map<Seq<u8>, EntryView>, new: Map<Seq<u8>, EntryView>, a: Seq<Seq<u8>>, r: Reply) -> bool {
    if a.len() >= 2 && is_scores_at(old, a[1]) {
        let (z, c) = hdel_fold(scores_at(old, a[1]), tail_from(a, 2));
        &&& new == old.insert(a[1], (DataView::Scores(z), old[a[1]].1, old[a[1]].2))
        &&& int_is(r, c as int)
    } else {
        new == old && int_is(r, 0)
    }
}

/// `ZCARD key`: the number of members, 0 when there is no sorted set.
pub open spec fn zcard_post(old: Map<Seq<u8>, EntryView>, a: Seq<Seq<u8>>, r: Reply) -> bool {
    int_is(r, if a.len() >= 2 { count_int(scores_at(old, a[1]).dom().len()) } else { 0 })
}

/// Adds to `m` the members of `v` that it lacks.
fn add_all(m: &mut Vec<Vec<u8>>, v: &Vec<Vec<u8>>)
    requires
        bytes_views(old(m)@).no_duplicates(),
    ensures
        bytes_views(final(m)@).no_duplicates(),
        bytes_views(final(m)@).to_set() == bytes_views(old(m)@).to_set() + bytes_views(v@).to_set(),
{
    let ghost base = bytes_views(m@).to_set();
    let ghost vv = bytes_views(v@);
    let mut j: usize = 0;
    assert(base + vv.take(0).to_set() =~= base);
    while j < v.len()
        invariant
            vv == bytes_views(v@),
            0 <= j <= v@.len(),
            bytes_views(m@).no_duplicates(),
            bytes_views(m@).to_set() == base + vv.take(j as int).to_set(),
        decreases v@.len() - j,
    {
        let ghost mv = bytes_views(m@);
        proof {
            assert(vv.take(j + 1) =~= vv.take(j as int) + seq![vv[j as int]]);
            Seq::lemma_to_set_insert_commutes(vv.take(j as int), vv[j as int]);
        }
        if !contains_bytes(m, v[j].as_slice()) {
            m.push(vstd::slice::slice_to_vec(v[j].as_slice()));
            proof {
                assert(bytes_views(m@) =~= mv + seq![vv[j as int]]);
                Seq::lemma_to_set_insert_commutes(mv, vv[j as int]);
                assert forall|x: int, y: int| 0 <= x < y < bytes_views(m@).len() implies bytes_views(m@)[x] != bytes_views(m@)[y] by {
                    if y == mv.len() {
                        assert(mv.contains(mv[x]));
                    } else {
                        assert(mv[x] != mv[y]);
                    }
                }
            }
        } else {
            proof {
                assert(mv.to_set().contains(vv[j as int]));
            }
        }
        assert(bytes_views(m@).to_set() =~= base + vv.take(j + 1).to_set());
        j += 1;
    }
    assert(vv.take(j as int) =~= vv);
}

/// A copy of a pair list.
fn copy_pairs(h: &Vec<(Vec<u8>, Vec<u8>)>) -> (r: Vec<(Vec<u8>, Vec<u8>)>)
    ensures
        pair_views(r@) == pair_views(h@),
{
    let mut r: Vec<(Vec<u8>, Vec<u8>)> = Vec::new();
    let mut i: usize = 0;
    while i < h.len()
        invariant
            0 <= i <= h@.len(),
            pair_views(r@) == pair_views(h@).take(i as int),
        decreases h@.len() - i,
    {
        let ghost before = r@;
        r.push((vstd::slice::slice_to_vec(h[i].0.as_slice()), vstd::slice::slice_to_vec(h[i].1.as_slice())));
        assert(pair_views(r@) =~= pair_views(h@).take(i + 1)) by {
            assert(before.len() == pair_views(before).len());
            assert forall|x: int| 0 <= x < i implies pair_views(r@)[x] == pair_views(h@).take(i + 1)[x] by {
                assert(r@[x] == before[x]);
                assert(pair_views(before)[x] == pair_views(h@).take(i as int)[x]);
            }
        }
        i += 1;
    }
    assert(pair_views(h@).take(i as int) =~= pair_views(h@));
    r
}

impl MockRedis {
    /// `PFADD`; see `pfadd_post`.
    pub fn cmd_pfadd(&mut self, args: &Vec<Vec<u8>>) -> (r: Reply)
        requires
            old(self).wf(),
        ensures
            final(self).wf(),
            final(self).db_index() == old(self).db_index(),
            pfadd_post(old(self).store(), final(self).store(), bytes_views(args@), r),
    {
        let ghost a = bytes_views(args@);
        if args.len() < 2 {
            return Reply::Boolean(false);
        }
        let key = args[1].as_slice();
        let prev = self.take(key);
        let (mut m, deadline, groups) = match prev {
            Some(e) => match e.data {
                Data::Members(m) => (m, e.deadline, e.groups),
                _ => (Vec::new(), e.deadline, e.groups),
            },
            None => (Vec::new(), None, Vec::new()),
        };
        proof {
            if !old(self).store().contains_key(a[1]) {
                assert(group_views(groups@) =~= Seq::<(Seq<u8>, StreamId)>::empty());
            }
            if bytes_views(m@).len() == 0 {
                assert(bytes_views(m@) =~= Seq::<Seq<u8>>::empty());
                assert(bytes_views(m@).to_set() =~= Set::<Seq<u8>>::empty());
            }
            assert(bytes_views(m@).to_set() == members_at(old(self).store(), a[1]));
        }
        let ghost base = members_at(old(self).store(), a[1]);
        let ghost t = tail_from(a, 2);
        let mut grew = false;
        let mut j: usize = 2;
        assert(base + t.take(0).to_set() =~= base);
        while j < args.len()
            invariant
                a == bytes_views(args@),
                t == tail_from(a, 2),
                2 <= j <= args@.len(),
                bytes_views(m@).no_duplicates(),
                bytes_views(m@).to_set() == base + t.take(j - 2).to_set(),
                grew == (bytes_views(m@).to_set() != base),
            decreases args@.len() - j,
        {
            let ghost mv = bytes_views(m@);
            proof {
                assert(t.take(j - 1) =~= t.take(j - 2) + seq![a[j as int]]);
                Seq::lemma_to_set_insert_commutes(t.take(j - 2), a[j as int]);
            }
            if !contains_bytes(&m, args[j].as_slice()) {
                m.push(vstd::slice::slice_to_vec(args[j].as_slice()));
                proof {
                    assert(bytes_views(m@) =~= mv + seq![a[j as int]]);
                    Seq::lemma_to_set_insert_commutes(mv, a[j as int]);
                    assert(!mv.to_set().contains(a[j as int]));
                    assert(!base.contains(a[j as int]));
                    assert(bytes_views(m@).to_set().contains(a[j as int]));
                    assert forall|x: int, y: int| 0 <= x < y < bytes_views(m@).len() implies bytes_views(m@)[x] != bytes_views(m@)[y] by {
                        if y == mv.len() {
                            assert(mv.contains(mv[x]));
                        } else {
                            assert(mv[x] != mv[y]);
                        }
                    }
                }
                grew = true;
            } else {
                proof {
                    assert(mv.to_set().contains(a[j as int]));
                    assert(mv.to_set().insert(a[j as int]) =~= mv.to_set());
                }
            }
            proof {
                assert(bytes_views(m@).to_set() =~= base + t.take(j - 1).to_set());
            }
            j += 1;
        }
        assert(t.take(j - 2) =~= t);
        let ghost mf = bytes_views(m@).to_set();
        let entry = Entry { data: Data::Members(m), deadline, groups };
        self.put(key, entry);
        assert(self.store() =~= old(self).store().insert(
            a[1],
            (DataView::Members(mf), meta_at(old(self).store(), a[1]).0, meta_at(old(self).store(), a[1]).1),
        ));
        Reply::Boolean(grew)
    }

    /// `PFCOUNT`; see `pfcount_post`.
    pub fn cmd_pfcount(&self, args: &Vec<Vec<u8>>) -> (r: Reply)
        requires
            self.wf(),
        ensures
            pfcount_post(self.store(), bytes_views(args@), r),
    {
        let found = if args.len() >= 2 { self.index_of(args[1].as_slice()) } else { None };
        match found {
            Some(i) => match &self.values[i].1.data {
                Data::Members(m) => {
                    assert(self.values@[i as int].1.wf());
                    proof {
                        bytes_views(m@).unique_seq_to_set();
                    }
                    count_reply(m.len())
                },
                _ => Reply::Int(0),
            },
            None => Reply::Int(0),
        }
    }

    /// `PFMERGE`; see `pfmerge_post`.
    pub fn cmd_pfmerge(&mut self, args: &Vec<Vec<u8>>) -> (r: Reply)
        requires
            old(self).wf(),
        ensures
            final(self).wf(),
            final(self).db_index() == old(self).db_index(),
            pfmerge_post(old(self).store(), final(self).store(), bytes_views(args@), r),
    {
        let ghost a = bytes_views(args@);
        if args.len() < 2 {
            return Reply::Boolean(true);
        }
        let key = args[1].as_slice();
        let mut m: Vec<Vec<u8>> = Vec::new();
        let ghost st = self.store();
        let ghost t = tail_from(a, 2);
        let mut j: usize = 1;
        assert(bytes_views(m@) =~= Seq::<Seq<u8>>::empty());
        assert(bytes_views(m@).to_set() =~= Set::<Seq<u8>>::empty());
        // The destination's members first, then each source's.
        while j < args.len()
            invariant
                a == bytes_views(args@),
                t == tail_from(a, 2),
                key@ == a[1],
                self.wf(),
                self.store() == st,
                st == old(self).store(),
                1 <= j <= args@.len(),
                bytes_views(m@).no_duplicates(),
                j == 1 ==> bytes_views(m@).to_set() == Set::<Seq<u8>>::empty(),
                j > 1 ==> bytes_views(m@).to_set() == members_at(st, a[1]) + union_at(st, t.take(j - 2)),
            decreases args@.len() - j,
        {
            let ghost before = bytes_views(m@).to_set();
            let src = if j == 1 { key } else { args[j].as_slice() };
            let ghost sk = if j == 1 { a[1] } else { a[j as int] };
            assert(src@ == sk);
            match self.index_of(src) {
                Some(i) => match &self.values[i].1.data {
                    Data::Members(v) => {
                        assert(bytes_views(v@).to_set() == members_at(st, sk));
                        add_all(&mut m, v);
                    },
                    _ => {
                        assert(members_at(st, sk) =~= Set::<Seq<u8>>::empty());
                        assert(before + members_at(st, sk) =~= before);
                    },
                },
                None => {
                    assert(members_at(st, sk) =~= Set::<Seq<u8>>::empty());
                    assert(before + members_at(st, sk) =~= before);
                },
            }
            proof {
                if j == 1 {
                    assert(t.take(0) =~= Seq::<Seq<u8>>::empty());
                    assert(bytes_views(m@).to_set() =~= members_at(st, a[1]) + union_at(st, t.take(0)));
                } else {
                    let q = t.take(j - 1);
                    assert(q.drop_last() =~= t.take(j - 2));
                    assert(q.last() == a[j as int]);
                    assert(bytes_views(m@).to_set() =~= members_at(st, a[1]) + union_at(st, t.take(j - 1)));
                }
            }
            j += 1;
        }
        assert(t.take(j - 2) =~= t);
        let prev = self.take(key);
        let (deadline, groups) = match prev {
            Some(e) => (e.deadline, e.groups),
            None => (None, Vec::new()),
        };
        proof {
            if !st.contains_key(a[1]) {
                assert(group_views(groups@) =~= Seq::<(Seq<u8>, StreamId)>::empty());
            }
        }
        let ghost mf = bytes_views(m@).to_set();
        let entry = Entry { data: Data::Members(m), deadline, groups };
        self.put(key, entry);
        assert(self.store() =~= st.insert(
            a[1],
            (DataView::Members(mf), meta_at(st, a[1]).0, meta_at(st, a[1]).1),
        ));
        Reply::Boolean(true)
    }

    /// `ZADD`; see `zadd_post`.
    pub fn cmd_zadd(&mut self, args: &Vec<Vec<u8>>) -> (r: Reply)
        requires
            old(self).wf(),
            args@.len() <= i64::MAX,
        ensures
            final(self).wf(),
            final(self).db_index() == old(self).db_index(),
            zadd_post(old(self).store(), final(self).store(), bytes_views(args@), r),
    {
        let ghost a = bytes_views(args@);
        if args.len() < 2 {
            return Reply::Int(0);
        }
        let key = args[1].as_slice();
        let prev = self.take(key);
        let (mut z, deadline, groups) = match prev {
            Some(e) => match e.data {
                Data::Scores(z) => (z, e.deadline, e.groups),
                _ => (Vec::new(), e.deadline, e.groups),
            },
            None => (Vec::new(), None, Vec::new()),
        };
        proof {
            if !old(self).store().contains_key(a[1]) {
                assert(group_views(groups@) =~= Seq::<(Seq<u8>, StreamId)>::empty());
            }
            assert(pair_views(z@).len() == 0 ==> pair_views(z@) =~= Seq::<(Seq<u8>, Seq<u8>)>::empty());
        }
        assert(assoc(pair_views(z@)) == scores_at(old(self).store(), a[1]));
        let ghost base = scores_at(old(self).store(), a[1]);
        let mut i: usize = 2;
        while i < args.len() - 1
            invariant
                a == bytes_views(args@),
                2 <= i <= args@.len(),
                keys_unique(pair_views(z@)),
                zadd_fold(assoc(pair_views(z@)), tail_from(a, i as int)) == zadd_fold(base, tail_from(a, 2)),
            decreases args@.len() - i,
        {
            proof {
                let t = tail_from(a, i as int);
                assert(t[0] == a[i as int] && t[1] == a[i + 1]);
                assert(t.subrange(2, t.len() as int) =~= tail_from(a, i + 2));
            }
            upsert_pair(&mut z, vstd::slice::slice_to_vec(args[i + 1].as_slice()), vstd::slice::slice_to_vec(args[i].as_slice()));
            i += 2;
        }
        assert(tail_from(a, i as int).len() < 2);
        let entry = Entry { data: Data::Scores(z), deadline, groups };
        self.put(key, entry);
        assert(self.store() =~= old(self).store().insert(
            a[1],
            (DataView::Scores(zadd_fold(base, tail_from(a, 2))), meta_at(old(self).store(), a[1]).0, meta_at(old(self).store(), a[1]).1),
        ));
        let n: usize = (args.len() - 2) / 2;
        Reply::Int(n as i64)
    }

    /// `ZREM`; see `zrem_post`.
    pub fn cmd_zrem(&mut self, args: &Vec<Vec<u8>>) -> (r: Reply)
        requires
            old(self).wf(),
            args@.len() <= i64::MAX,
        ensures
            final(self).wf(),
            final(self).db_index() == old(self).db_index(),
            zrem_post(old(self).store(), final(self).store(), bytes_views(args@), r),
    {
        let ghost a = bytes_views(args@);
        if args.len() < 2 {
            return Reply::Int(0);
        }
        let key = args[1].as_slice();
        let is_scores = match self.index_of(key) {
            Some(i) => match &self.values[i].1.data {
                Data::Scores(_) => true,
                _ => false,
            },
            None => false,
        };
        if !is_scores {
            return Reply::Int(0);
        }
        let e = match self.take(key) {
            Some(e) => e,
            None => {
                return Reply::Int(0);
            },
        };
        let mut z = match e.data {
            Data::Scores(z) => z,
            _ => {
                return Reply::Int(0);
            },
        };
        let ghost fs = tail_from(a, 2);
        let ghost base = scores_at(old(self).store(), a[1]);
        assert(assoc(pair_views(z@)) == base);
        assert(e.wf());
        let mut count: u64 = 0;
        let mut j: usize = 2;
        assert(fs.take(0) =~= Seq::<Seq<u8>>::empty());
        while j < args.len()
            invariant
                a == bytes_views(args@),
                fs == tail_from(a, 2),
                2 <= j <= args@.len(),
                keys_unique(pair_views(z@)),
                (assoc(pair_views(z@)), count as nat) == hdel_fold(base, fs.take(j - 2)),
                count <= j - 2,
            decreases args@.len() - j,
        {
            let ghost hv = pair_views(z@);
            proof {
                lemma_assoc_unique(hv);
                let t = fs.take(j - 1);
                assert(t.drop_last() =~= fs.take(j - 2));
                assert(t.last() == a[j as int]);
            }
            match find_key(&z, args[j].as_slice()) {
                Some(k) => {
                    z.remove(k);
                    proof {
                        lemma_assoc_remove(hv, k as int);
                        assert(pair_views(z@) =~= hv.remove(k as int));
                        assert(hv[k as int].0 == a[j as int]);
                    }
                    count += 1;
                },
                None => {
                    assert(!assoc(hv).contains_key(a[j as int])) by {
                        if assoc(hv).contains_key(a[j as int]) {
                            let q = choose|q: int| 0 <= q < hv.len() && (#[trigger] hv[q]).0 == a[j as int];
                            assert(z@[q].0@ == args@[j as int]@);
                        }
                    }
                },
            }
            j += 1;
        }
        assert(fs.take(j - 2) =~= fs);
        let ghost zf = assoc(pair_views(z@));
        let entry = Entry { data: Data::Scores(z), deadline: e.deadline, groups: e.groups };
        self.put(key, entry);
        assert(self.store() =~= old(self).store().insert(
            a[1],
            (DataView::Scores(zf), old(self).store()[a[1]].1, old(self).store()[a[1]].2),
        ));
        Reply::Int(count as i64)
    }

    /// `ZCARD`; see `zcard_post`.
    pub fn cmd_zcard(&self, args: &Vec<Vec<u8>>) -> (r: Reply)
        requires
            self.wf(),
        ensures
            zcard_post(self.store(), bytes_views(args@), r),
    {
        let found = if args.len() >= 2 { self.index_of(args[1].as_slice()) } else { None };
        match found {
            Some(i) => match &self.values[i].1.data {
                Data::Scores(z) => {
                    assert(self.values@[i as int].1.wf());
                    proof {
                        lemma_assoc_len(pair_views(z@));
                    }
                    count_reply(z.len())
                },
                _ => {
                    assert(Map::<Seq<u8>, Seq<u8>>::empty().dom() =~= Set::<Seq<u8>>::empty());
                    Reply::Int(0)
                },
            },
            None => {
                assert(Map::<Seq<u8>, Seq<u8>>::empty().dom() =~= Set::<Seq<u8>>::empty());
                Reply::Int(0)
            },
        }
    }

    /// The members and score texts of the sorted set under `key`, if it
    /// holds one.
    pub fn scores_of(&self, key: &[u8]) -> (r: Option<Vec<(Vec<u8>, Vec<u8>)>>)
        requires
            self.wf(),
        ensures
            r.is_some() == is_scores_at(self.store(), key@),
            r matches Some(z) ==> keys_unique(pair_views(z@)) && assoc(pair_views(z@)) == scores_at(self.store(), key@),
    {
        match self.index_of(key) {
            Some(i) => match &self.values[i].1.data {
                Data::Scores(z) => {
                    assert(self.values@[i as int].1.wf());
                    Some(copy_pairs(z))
                },
                _ => None,
            },
            None => None,
        }
    }
}

} // verus!
