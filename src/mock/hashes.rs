//! Hash commands.
use vstd::prelude::*;
use crate::assoc::{assoc, find_key, keys_unique, lemma_assoc_push, lemma_assoc_remove, lemma_assoc_unique, lemma_assoc_update};
use crate::mock::{Data, DataView, Entry, EntryView, MockRedis, StreamId, bool_is, bulk_is, bulk_pairs_are, data_reply, data_reply_is, dict_of, group_views, int_is, is_nil, meta_at, pair_views, tail_from};
use crate::reply::Reply;
use crate::words::{KW_HGET, KW_HGETALL, KW_HSET, bytes_views};

verus! {

/// Sets fields from `field value` pairs, in order; a lone last field is
/// ignored.
pub open spec fn hset_fold(h: Map<Seq<u8>, Seq<u8>>, p: Seq<Seq<u8>>) -> Map<Seq<u8>, Seq<u8>>
    decreases p.len(),
{
    if p.len() < 2 {
        h
    } else {
        hset_fold(h.insert(p[0], p[1]), p.subrange(2, p.len() as int))
    }
}

/// The fields of the hash under a key: none when the key holds no hash.
pub open spec fn hash_at(old: Map<Seq<u8>, EntryView>, k: Seq<u8>) -> Map<Seq<u8>, Seq<u8>> {
    if old.contains_key(k) {
        match old[k].0 {
            DataView::Hash(h) => h,
            _ => Map::empty(),
        }
    } else {
        Map::empty()
    }
}

/// `HSET key field value...`: sets the fields (a key holding something else
/// becomes a hash) and replies with the number of pairs given.
pub open spec fn hset_post(old: Map<Seq<u8>, EntryView>, new: Map<Seq<u8>, EntryView>, a: Seq<Seq<u8>>, r: Reply) -> bool {
    if a.len() < 2 {
        new == old && int_is(r, 0)
    } else {
        &&& new == old.insert(
            a[1],
            (DataView::Hash(hset_fold(hash_at(old, a[1]), tail_from(a, 2))), meta_at(old, a[1]).0, meta_at(old, a[1]).1),
        )
        &&& int_is(r, (a.len() - 2) / 2)
    }
}

/// `HGET key field`: the field's value, or nil.
pub open spec fn hget_post(old: Map<Seq<u8>, EntryView>, a: Seq<Seq<u8>>, r: Reply) -> bool {
    if a.len() >= 3 && old.contains_key(a[1]) && (old[a[1]].0 matches DataView::Hash(h) && h.contains_key(a[2])) {
        match old[a[1]].0 {
            DataView::Hash(h) => bulk_is(r, h[a[2]]),
            _ => false,
        }
    } else {
        is_nil(r)
    }
}

/// `HGETALL key`: what the key holds (a map of its fields for a hash), or
/// an empty map.
pub open spec fn hgetall_post(old: Map<Seq<u8>, EntryView>, a: Seq<Seq<u8>>, r: Reply) -> bool {
    if a.len() >= 2 && old.contains_key(a[1]) {
        data_reply_is(r, old[a[1]].0)
    } else {
        dict_of(r, Map::empty())
    }
}

/// The hash under a key, when the key holds one.
pub open spec fn is_hash_at(old: Map<Seq<u8>, EntryView>, k: Seq<u8>) -> bool {
    old.contains_key(k) && old[k].0 matches DataView::Hash(_)
}

/// `HEXISTS key field`: whether the hash has the field.
pub open spec fn hexists_post(old: Map<Seq<u8>, EntryView>, a: Seq<Seq<u8>>, r: Reply) -> bool {
    bool_is(r, a.len() >= 3 && hash_at(old, a[1]).contains_key(a[2]))
}

/// `HMGET key field...`: for a hash, the value of each field or nil, in
/// order; for anything else, an empty array.
pub open spec fn hmget_post(old: Map<Seq<u8>, EntryView>, a: Seq<Seq<u8>>, r: Reply) -> bool {
    match r {
        Reply::Array(v) => if a.len() >= 2 && is_hash_at(old, a[1]) {
            let h = hash_at(old, a[1]);
            &&& v@.len() == a.len() - 2
            &&& forall|i: int| 0 <= i < v@.len() ==> (if h.contains_key(#[trigger] a[i + 2]) {
                bulk_is(v@[i], h[a[i + 2]])
            } else {
                is_nil(v@[i])
            })
        } else {
            v@.len() == 0
        },
        _ => false,
    }
}

/// Removes the fields in order, counting those that were there.
pub open spec fn hdel_fold(h: Map<Seq<u8>, Seq<u8>>, fs: Seq<Seq<u8>>) -> (Map<Seq<u8>, Seq<u8>>, nat)
    decreases fs.len(),
{
    if fs.len() == 0 {
        (h, 0)
    } else {
        let (h1, c1) = hdel_fold(h, fs.drop_last());
        if h1.contains_key(fs.last()) {
            (h1.remove(fs.last()), c1 + 1)
        } else {
            (h1, c1)
        }
    }
}

/// `HDEL key field...`: removes the fields of a hash and replies with how
/// many there were; a key holding no hash is left alone and gives 0.
pub open spec fn hdel_post(old: Map<Seq<u8>, EntryView>, new: Map<Seq<u8>, EntryView>, a: Seq<Seq<u8>>, r: Reply) -> bool {
    if a.len() >= 2 && is_hash_at(old, a[1]) {
        let (h, c) = hdel_fold(hash_at(old, a[1]), tail_from(a, 2));
        &&& new == old.insert(a[1], (DataView::Hash(h), old[a[1]].1, old[a[1]].2))
        &&& int_is(r, c as int)
    } else {
        new == old && int_is(r, 0)
    }
}

/// Whether the hash has the field.
fn hash_has(h: &Vec<(Vec<u8>, Vec<u8>)>, f: &[u8]) -> (r: bool)
    requires
        keys_unique(pair_views(h@)),
    ensures
        r == assoc(pair_views(h@)).contains_key(f@),
{
    proof {
        lemma_assoc_unique(pair_views(h@));
    }
    match find_key(h, f) {
        Some(k) => {
            assert(pair_views(h@)[k as int].0 == f@);
            true
        },
        None => {
            proof {
                if assoc(pair_views(h@)).contains_key(f@) {
                    let q = choose|q: int| 0 <= q < pair_views(h@).len() && (#[trigger] pair_views(h@)[q]).0 == f@;
                    assert(h@[q].0@ == f@);
                }
            }
            false
        },
    }
}

/// Stores `(k, v)` in a pair list with unique keys, replacing the pair under `k`.
pub(crate) fn upsert_pair(h: &mut Vec<(Vec<u8>, Vec<u8>)>, k: Vec<u8>, v: Vec<u8>)
    requires
        keys_unique(pair_views(old(h)@)),
    ensures
        keys_unique(pair_views(final(h)@)),
        assoc(pair_views(final(h)@)) == assoc(pair_views(old(h)@)).insert(k@, v@),
{
    let ghost e = pair_views(h@);
    let ghost kv = k@;
    let ghost vv = v@;
    match find_key(h, k.as_slice()) {
        Some(i) => {
            h.set(i, (k, v));
            proof {
                lemma_assoc_update(e, i as int, vv);
                assert(pair_views(h@) =~= e.update(i as int, (e[i as int].0, vv)));
            }
        },
        None => {
            h.push((k, v));
            proof {
                lemma_assoc_push(e, kv, vv);
                assert(pair_views(h@) =~= e.push((kv, vv)));
            }
        },
    }
}

/// Setting one field of a new hash counts one pair; reading the field gives
/// back its value, and reading the whole hash gives exactly that field.
pub proof fn lemma_hash_round_trip(
    s0: Map<Seq<u8>, EntryView>,
    s1: Map<Seq<u8>, EntryView>,
    h: Seq<u8>,
    f: Seq<u8>,
    v: Seq<u8>,
    r1: Reply,
    r2: Reply,
    r3: Reply,
)
    requires
        !s0.contains_key(h),
        hset_post(s0, s1, seq![KW_HSET@, h, f, v], r1),
        hget_post(s1, seq![KW_HGET@, h, f], r2),
        hgetall_post(s1, seq![KW_HGETALL@, h], r3),
    ensures
        int_is(r1, 1),
        bulk_is(r2, v),
        dict_of(r3, map![f => v]),
{
    let a = seq![KW_HSET@, h, f, v];
    let t = tail_from(a, 2);
    assert(t =~= seq![f, v]);
    assert(t.subrange(2, t.len() as int) =~= Seq::<Seq<u8>>::empty());
    let m = Map::<Seq<u8>, Seq<u8>>::empty().insert(f, v);
    assert(hset_fold(m, t.subrange(2, t.len() as int)) == m);
    assert(hset_fold(Map::empty(), t) == m);
    assert(Map::<Seq<u8>, Seq<u8>>::empty().insert(f, v) =~= map![f => v]);
}

impl MockRedis {
    /// `HSET`; see `hset_post`.
    pub fn cmd_hset(&mut self, args: &Vec<Vec<u8>>) -> (r: Reply)
        requires
            old(self).wf(),
            args@.len() <= i64::MAX,
        ensures
            final(self).wf(),
            final(self).db_index() == old(self).db_index(),
            hset_post(old(self).store(), final(self).store(), bytes_views(args@), r),
    {
        let ghost a = bytes_views(args@);
        if args.len() < 2 {
            return Reply::Int(0);
        }
        let key = args[1].as_slice();
        let prev = self.take(key);
        let (mut h, deadline, groups) = match prev {
            Some(e) => match e.data {
                Data::Hash(h) => (h, e.deadline, e.groups),
                _ => (Vec::new(), e.deadline, e.groups),
            },
            None => (Vec::new(), None, Vec::new()),
        };
        proof {
            if !old(self).store().contains_key(a[1]) {
                assert(group_views(groups@) =~= Seq::<(Seq<u8>, StreamId)>::empty());
            }
            assert(pair_views(h@).len() == 0 ==> pair_views(h@) =~= Seq::<(Seq<u8>, Seq<u8>)>::empty());
        }
        assert(assoc(pair_views(h@)) == hash_at(old(self).store(), a[1]));
        let ghost base = hash_at(old(self).store(), a[1]);
        let mut i: usize = 2;
        while i < args.len() - 1
            invariant
                a == bytes_views(args@),
                2 <= i <= args@.len(),
                keys_unique(pair_views(h@)),
                hset_fold(assoc(pair_views(h@)), tail_from(a, i as int)) == hset_fold(base, tail_from(a, 2)),
            decreases args@.len() - i,
        {
            proof {
                let t = tail_from(a, i as int);
                assert(t[0] == a[i as int] && t[1] == a[i + 1]);
                assert(t.subrange(2, t.len() as int) =~= tail_from(a, i + 2));
            }
            upsert_pair(&mut h, vstd::slice::slice_to_vec(args[i].as_slice()), vstd::slice::slice_to_vec(args[i + 1].as_slice()));
            i += 2;
        }
        assert(tail_from(a, i as int).len() < 2);
        let entry = Entry { data: Data::Hash(h), deadline, groups };
        self.put(key, entry);
        assert(self.store() =~= old(self).store().insert(
            a[1],
            (DataView::Hash(hset_fold(base, tail_from(a, 2))), meta_at(old(self).store(), a[1]).0, meta_at(old(self).store(), a[1]).1),
        ));
        let n: usize = (args.len() - 2) / 2;
        Reply::Int(n as i64)
    }

    /// `HGET`; see `hget_post`.
    pub fn cmd_hget(&self, args: &Vec<Vec<u8>>) -> (r: Reply)
        requires
            self.wf(),
        ensures
            hget_post(self.store(), bytes_views(args@), r),
    {
        if args.len() < 3 {
            return Reply::Nil;
        }
        match self.index_of(args[1].as_slice()) {
            Some(i) => match &self.values[i].1.data {
                Data::Hash(h) => {
                    assert(self.values@[i as int].1.wf());
                    match find_key(h, args[2].as_slice()) {
                        Some(j) => {
                            proof {
                                lemma_assoc_unique(pair_views(h@));
                                assert(pair_views(h@)[j as int].0 == args@[2]@);
                            }
                            Reply::BulkString(vstd::slice::slice_to_vec(h[j].1.as_slice()))
                        },
                        None => {
                            proof {
                                lemma_assoc_unique(pair_views(h@));
                                if assoc(pair_views(h@)).contains_key(args@[2]@) {
                                    let q = choose|q: int| 0 <= q < pair_views(h@).len() && (#[trigger] pair_views(h@)[q]).0 == args@[2]@;
                                    assert(h@[q].0@ == args@[2]@);
                                }
                            }
                            Reply::Nil
                        },
                    }
                },
                _ => Reply::Nil,
            },
            None => Reply::Nil,
        }
    }

    /// `HGETALL`; see `hgetall_post`.
    pub fn cmd_hgetall(&self, args: &Vec<Vec<u8>>) -> (r: Reply)
        requires
            self.wf(),
        ensures
            hgetall_post(self.store(), bytes_views(args@), r),
    {
        let found = if args.len() >= 2 { self.index_of(args[1].as_slice()) } else { None };
        match found {
            Some(i) => {
                assert(self.values@[i as int].1.wf());
                data_reply(&self.values[i].1.data)
            },
            None => {
                let v: Vec<(Reply, Reply)> = Vec::new();
                proof {
                    let p = Seq::<(Seq<u8>, Seq<u8>)>::empty();
                    assert(bulk_pairs_are(v@, p));
                    assert(assoc(p) =~= Map::<Seq<u8>, Seq<u8>>::empty());
                }
                Reply::Dict(v)
            },
        }
    }

    /// `HEXISTS`; see `hexists_post`.
    pub fn cmd_hexists(&self, args: &Vec<Vec<u8>>) -> (r: Reply)
        requires
            self.wf(),
        ensures
            hexists_post(self.store(), bytes_views(args@), r),
    {
        if args.len() < 3 {
            return Reply::Boolean(false);
        }
        match self.index_of(args[1].as_slice()) {
            Some(i) => match &self.values[i].1.data {
                Data::Hash(h) => Reply::Boolean(hash_has(h, args[2].as_slice())),
                _ => Reply::Boolean(false),
            },
            None => Reply::Boolean(false),
        }
    }

    /// `HMGET`; see `hmget_post`.
    pub fn cmd_hmget(&self, args: &Vec<Vec<u8>>) -> (r: Reply)
        requires
            self.wf(),
        ensures
            hmget_post(self.store(), bytes_views(args@), r),
    {
        let ghost a = bytes_views(args@);
        let mut v: Vec<Reply> = Vec::new();
        let found = if args.len() >= 2 { self.index_of(args[1].as_slice()) } else { None };
        let i = match found {
            Some(i) => i,
            None => {
                return Reply::Array(v);
            },
        };
        let h = match &self.values[i].1.data {
            Data::Hash(h) => h,
            _ => {
                return Reply::Array(v);
            },
        };
        assert(self.values@[i as int].1.wf());
        let ghost hm = assoc(pair_views(h@));
        assert(hm == hash_at(self.store(), a[1]));
        proof {
            lemma_assoc_unique(pair_views(h@));
        }
        let mut j: usize = 2;
        while j < args.len()
            invariant
                a == bytes_views(args@),
                hm == assoc(pair_views(h@)),
                keys_unique(pair_views(h@)),
                forall|k: Seq<u8>|
                    #![trigger hm.contains_key(k)]
                    hm.contains_key(k) <==> exists|q: int| 0 <= q < pair_views(h@).len() && (#[trigger] pair_views(h@)[q]).0 == k,
                forall|q: int| 0 <= q < pair_views(h@).len() ==> #[trigger] hm[pair_views(h@)[q].0] == pair_views(h@)[q].1,
                2 <= j <= args@.len(),
                v@.len() == j - 2,
                forall|q: int| 0 <= q < v@.len() ==> (if hm.contains_key(#[trigger] a[q + 2]) {
                    bulk_is(v@[q], hm[a[q + 2]])
                } else {
                    is_nil(v@[q])
                }),
            decreases args@.len() - j,
        {
            match find_key(h, args[j].as_slice()) {
                Some(k) => {
                    assert(pair_views(h@)[k as int].0 == a[j as int]);
                    v.push(Reply::BulkString(vstd::slice::slice_to_vec(h[k].1.as_slice())));
                },
                None => {
                    assert(!hm.contains_key(a[j as int])) by {
                        if hm.contains_key(a[j as int]) {
                            let q = choose|q: int| 0 <= q < pair_views(h@).len() && (#[trigger] pair_views(h@)[q]).0 == a[j as int];
                            assert(h@[q].0@ == args@[j as int]@);
                        }
                    }
                    v.push(Reply::Nil);
                },
            }
            j += 1;
        }
        Reply::Array(v)
    }

    /// `HDEL`; see `hdel_post`.
    pub fn cmd_hdel(&mut self, args: &Vec<Vec<u8>>) -> (r: Reply)
        requires
            old(self).wf(),
            args@.len() <= i64::MAX,
        ensures
            final(self).wf(),
            final(self).db_index() == old(self).db_index(),
            hdel_post(old(self).store(), final(self).store(), bytes_views(args@), r),
    {
        let ghost a = bytes_views(args@);
        if args.len() < 2 {
            return Reply::Int(0);
        }
        let key = args[1].as_slice();
        let is_hash = match self.index_of(key) {
            Some(i) => match &self.values[i].1.data {
                Data::Hash(_) => true,
                _ => false,
            },
            None => false,
        };
        if !is_hash {
            return Reply::Int(0);
        }
        let prev = self.take(key);
        let e = match prev {
            Some(e) => e,
            None => {
                return Reply::Int(0);
            },
        };
        let mut h = match e.data {
            Data::Hash(h) => h,
            _ => {
                return Reply::Int(0);
            },
        };
        let ghost fs = tail_from(a, 2);
        let ghost base = hash_at(old(self).store(), a[1]);
        assert(assoc(pair_views(h@)) == base);
        assert(e.wf());
        let mut count: u64 = 0;
        let mut j: usize = 2;
        assert(fs.take(0) =~= Seq::<Seq<u8>>::empty());
        while j < args.len()
            invariant
                a == bytes_views(args@),
                fs == tail_from(a, 2),
                2 <= j <= args@.len(),
                keys_unique(pair_views(h@)),
                (assoc(pair_views(h@)), count as nat) == hdel_fold(base, fs.take(j - 2)),
                count <= j - 2,
            decreases args@.len() - j,
        {
            let ghost hv = pair_views(h@);
            proof {
                lemma_assoc_unique(hv);
                let t = fs.take(j - 1);
                assert(t.drop_last() =~= fs.take(j - 2));
                assert(t.last() == a[j as int]);
            }
            match find_key(&h, args[j].as_slice()) {
                Some(k) => {
                    h.remove(k);
                    proof {
                        lemma_assoc_remove(hv, k as int);
                        assert(pair_views(h@) =~= hv.remove(k as int));
                        assert(hv[k as int].0 == a[j as int]);
                    }
                    count += 1;
                },
                None => {
                    assert(!assoc(hv).contains_key(a[j as int])) by {
                        if assoc(hv).contains_key(a[j as int]) {
                            let q = choose|q: int| 0 <= q < hv.len() && (#[trigger] hv[q]).0 == a[j as int];
                            assert(h@[q].0@ == args@[j as int]@);
                        }
                    }
                },
            }
            j += 1;
        }
        assert(fs.take(j - 2) =~= fs);
        let ghost hf = assoc(pair_views(h@));
        let entry = Entry { data: Data::Hash(h), deadline: e.deadline, groups: e.groups };
        self.put(key, entry);
        assert(self.store() =~= old(self).store().insert(
            a[1],
            (DataView::Hash(hf), old(self).store()[a[1]].1, old(self).store()[a[1]].2),
        ));
        Reply::Int(count as i64)
    }
}

} // verus!
