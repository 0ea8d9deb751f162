use vstd::prelude::*;
use crate::assoc::{
    lemma_assoc_len,
    assoc, keys_unique, lemma_assoc_insert, lemma_assoc_push, lemma_assoc_unique,
    lemma_assoc_update, find_key,
};
use crate::command::Params;
use crate::error::RedisError;
use crate::reply::Reply;
use crate::slot::{key_slot, key_slot_spec, SLOT_COUNT};
use crate::words::{append_bytes, bytes_views, copy_bytes_list, dec_text, parse_dec, read_dec};

verus! {

/// A node of the cluster as the slot table knows it.
#[derive(Clone, Debug, PartialEq, Eq, Default)]
pub struct ShardNode {
    pub addr: Vec<u8>,
    pub master: bool,
}

/// The index of the first `:` of an address, if any.
pub open spec fn colon_at(s: Seq<u8>) -> Option<int> {
    crate::slot::first_from(s, 0x3a, 0)
}

/// An address split into host and port: at its first `:`, with a port that
/// does not read as a number taken as 0; without a `:`, the whole address
/// with port 0. A port is an optional `+` and decimal digits up to 65535.
pub open spec fn split_spec(a: Seq<u8>) -> (Seq<u8>, u16) {
    match colon_at(a) {
        Some(c) => (
            a.take(c),
            match parse_dec(a.subrange(c + 1, a.len() as int), 0xffff) {
                Some(p) => p as u16,
                None => 0,
            },
        ),
        None => (a, 0),
    }
}

/// The master and replica addresses of one shard.
#[derive(Clone, Debug, PartialEq, Eq, Default)]
pub struct Shard {
    pub master: Vec<u8>,
    pub slaves: Vec<Vec<u8>>,
}

/// A shard as values: its master address and its replica addresses.
pub type ShardView = (Seq<u8>, Seq<Seq<u8>>);

impl View for Shard {
    type V = ShardView;

    open spec fn view(&self) -> ShardView {
        (self.master@, bytes_views(self.slaves@))
    }
}

impl ShardNode {
    /// A node at `addr`, not marked as a master.
    pub fn from_addr(addr: &[u8]) -> (r: ShardNode)
        ensures
            r.addr@ == addr@,
            !r.master,
    {
        ShardNode { addr: vstd::slice::slice_to_vec(addr), master: false }
    }

    /// The host and port of this node's address.
    pub fn split(&self) -> (r: (Vec<u8>, u16))
        ensures
            (r.0@, r.1) == split_spec(self.addr@),
    {
        let a = self.addr.as_slice();
        let mut c: usize = 0;
        while c < a.len() && a[c] != 0x3au8
            invariant
                0 <= c <= a@.len(),
                forall|j: int| 0 <= j < c ==> a@[j] != 0x3a,
                crate::slot::first_from(a@, 0x3a, 0) == crate::slot::first_from(a@, 0x3a, c as int),
            decreases a@.len() - c,
        {
            c += 1;
        }
        if c < a.len() {
            let host = vstd::slice::slice_to_vec(vstd::slice::slice_subrange(a, 0, c));
            assert(host@ =~= a@.take(c as int));
            let port: u16 = match read_dec(vstd::slice::slice_subrange(a, c + 1, a.len()), 0xffff) {
                Some(p) => p as u16,
                None => 0,
            };
            (host, port)
        } else {
            (vstd::slice::slice_to_vec(a), 0)
        }
    }
}

impl Shard {
    /// A shard with the given master and no replicas.
    pub fn new(master: &[u8]) -> (r: Shard)
        ensures
            r@ == (master@, Seq::<Seq<u8>>::empty()),
    {
        let r = Shard { master: vstd::slice::slice_to_vec(master), slaves: Vec::new() };
        assert(r@.1 =~= Seq::<Seq<u8>>::empty());
        r
    }

    /// A copy of this shard.
    pub fn copy(&self) -> (r: Shard)
        ensures
            r@ == self@,
    {
        Shard {
            master: vstd::slice::slice_to_vec(self.master.as_slice()),
            slaves: copy_bytes_list(&self.slaves),
        }
    }
}

/// Where a command goes: the slot of its key, if it has one, and the shard
/// that owns that slot.
pub struct Route {
    pub slot: Option<u16>,
    pub shard: Option<Shard>,
}

/// Whether `k` is the least key of `m` that is at least `slot`.
pub open spec fn is_ceiling<V>(m: Map<u16, V>, slot: u16, k: u16) -> bool {
    &&& m.contains_key(k)
    &&& k >= slot
    &&& forall|k2: u16| m.contains_key(k2) && k2 >= slot ==> k <= k2
}

/// The shard stored under the least key that is at least `slot`: shards are
/// kept under the upper bound of their slot range.
pub open spec fn shard_for(m: Map<u16, ShardView>, slot: u16) -> Option<ShardView> {
    if exists|k: u16| is_ceiling(m, slot, k) {
        Some(m[choose|k: u16| is_ceiling(m, slot, k)])
    } else {
        None
    }
}

/// Whether an address can be reached: it does not start with `:`, which is
/// what an empty host leaves.
pub open spec fn reachable(addr: Seq<u8>) -> bool {
    !(addr.len() > 0 && addr[0] == 0x3a)
}

/// The node-id map after merging the ids that a refresh learned: a learned
/// reachable address replaces or adds the entry, other ids stay as they were.
pub open spec fn merge_ids(old: Map<Seq<u8>, Seq<u8>>, learned: Map<Seq<u8>, Seq<u8>>) -> Map<
    Seq<u8>,
    Seq<u8>,
> {
    Map::new(
        |k: Seq<u8>| old.contains_key(k) || (learned.contains_key(k) && reachable(learned[k])),
        |k: Seq<u8>|
            if learned.contains_key(k) && reachable(learned[k]) {
                learned[k]
            } else {
                old[k]
            },
    )
}

/// The text of one part of a node description.
pub open spec fn part_text(x: Reply) -> Option<Seq<u8>> {
    match x {
        Reply::BulkString(d) => Some(d@),
        Reply::SimpleString(s) => Some(s@),
        Reply::Int(n) => Some(crate::words::dec_int(n as int)),
        _ => None,
    }
}

/// The texts of the parts that have one, in order.
pub open spec fn texts(parts: Seq<Reply>) -> Seq<Seq<u8>>
    decreases parts.len(),
{
    if parts.len() == 0 {
        seq![]
    } else {
        match part_text(parts.last()) {
            Some(t) => texts(parts.drop_last()).push(t),
            None => texts(parts.drop_last()),
        }
    }
}

/// Texts joined with `:` between them.
pub open spec fn join_colon(s: Seq<Seq<u8>>) -> Seq<u8>
    decreases s.len(),
{
    if s.len() == 0 {
        seq![]
    } else if s.len() == 1 {
        s[0]
    } else {
        join_colon(s.drop_last()) + seq![0x3au8] + s.last()
    }
}

/// A node description `[host, port, id, ...]` read as (id, address): of its
/// first three parts, the last text is the id and the others joined by `:`
/// are the address.
pub open spec fn node_entry(x: Reply) -> Option<(Seq<u8>, Seq<u8>)> {
    match x {
        Reply::Array(v) => {
            let t = texts(if v@.len() > 3 { v@.take(3) } else { v@ });
            if t.len() == 0 {
                None
            } else {
                Some((t.last(), join_colon(t.drop_last())))
            }
        },
        _ => None,
    }
}

/// The node descriptions among `items` that can be read, in order.
pub open spec fn node_entries(items: Seq<Reply>) -> Seq<(Seq<u8>, Seq<u8>)>
    decreases items.len(),
{
    if items.len() == 0 {
        seq![]
    } else {
        match node_entry(items.last()) {
            Some(e) => node_entries(items.drop_last()).push(e),
            None => node_entries(items.drop_last()),
        }
    }
}

/// The upper slot bound of a row, read as the redis crate reads a 16-bit
/// number: an integer keeps its low 16 bits; a string is parsed as an
/// optional `+` and decimal digits up to 65535. Anything else, a string that
/// does not parse included, is 0. (A double, which the redis crate casts,
/// also counts as 0 here: this library keeps a double only as its text.)
pub open spec fn slot_bound(x: Reply) -> u16 {
    match x {
        Reply::Int(n) => (n % 0x10000) as u16,
        Reply::SimpleString(t) => match parse_dec(t@, 0xffff) {
            Some(v) => v as u16,
            None => 0,
        },
        Reply::BulkString(t) => match parse_dec(t@, 0xffff) {
            Some(v) => v as u16,
            None => 0,
        },
        _ => 0,
    }
}

/// The node descriptions of a row `[start, end, node, node, ...]`.
pub open spec fn row_nodes(items: Seq<Reply>) -> Seq<(Seq<u8>, Seq<u8>)> {
    if items.len() > 2 {
        node_entries(items.subrange(2, items.len() as int))
    } else {
        seq![]
    }
}

/// The upper bound of a row.
pub open spec fn row_bound(items: Seq<Reply>) -> u16 {
    if items.len() > 1 {
        slot_bound(items[1])
    } else {
        0
    }
}

/// The addresses of a list of (id, address) entries.
pub open spec fn entry_addrs(es: Seq<(Seq<u8>, Seq<u8>)>) -> Seq<Seq<u8>> {
    Seq::new(es.len(), |i: int| es[i].1)
}

/// A row read as (upper bound, shard): its first readable node is the master,
/// the others are replicas. A row with no readable node gives nothing.
pub open spec fn row_of(r: Reply) -> Option<(u16, ShardView)> {
    match r {
        Reply::Array(items) => {
            let es = row_nodes(items@);
            if es.len() == 0 {
                None
            } else {
                Some((row_bound(items@), (es[0].1, entry_addrs(es.subrange(1, es.len() as int)))))
            }
        },
        _ => None,
    }
}

/// The shards of a topology reply's rows, in order.
pub open spec fn topology_rows(top: Seq<Reply>) -> Seq<(u16, ShardView)>
    decreases top.len(),
{
    if top.len() == 0 {
        seq![]
    } else {
        match row_of(top.last()) {
            Some(r) => topology_rows(top.drop_last()).push(r),
            None => topology_rows(top.drop_last()),
        }
    }
}

/// The node entries of one row, when the row is an array.
pub open spec fn row_ids(r: Reply) -> Seq<(Seq<u8>, Seq<u8>)> {
    match r {
        Reply::Array(items) => row_nodes(items@),
        _ => seq![],
    }
}

/// The (id, address) entries of a topology reply, in order.
pub open spec fn topology_ids(top: Seq<Reply>) -> Seq<(Seq<u8>, Seq<u8>)>
    decreases top.len(),
{
    if top.len() == 0 {
        seq![]
    } else {
        topology_ids(top.drop_last()) + row_ids(top.last())
    }
}

/// Whether some node of the list has address `a`.
pub open spec fn lists_addr(r: Seq<ShardNode>, a: Seq<u8>) -> bool {
    exists|i: int| 0 <= i < r.len() && (#[trigger] r[i]).addr@ == a
}

/// Whether some id maps to address `a`.
pub open spec fn maps_to(m: Map<Seq<u8>, Seq<u8>>, a: Seq<u8>) -> bool {
    exists|id: Seq<u8>| #[trigger] m.contains_key(id) && m[id] == a
}

/// Node `i` is the one of id `ks[i]`, and `ks` lists each known id once.
pub open spec fn nodes_for_ids(r: Seq<ShardNode>, m: Map<Seq<u8>, Seq<u8>>, ks: Seq<Seq<u8>>) -> bool {
    &&& ks.len() == r.len()
    &&& ks.no_duplicates()
    &&& ks.to_set() == m.dom()
    &&& forall|i: int| 0 <= i < r.len() ==> (#[trigger] r[i]).addr@ == m[ks[i]]
}

/// One node per known id, with that id's address.
pub open spec fn one_per_id(r: Seq<ShardNode>, m: Map<Seq<u8>, Seq<u8>>) -> bool {
    exists|ks: Seq<Seq<u8>>| #[trigger] nodes_for_ids(r, m, ks)
}

/// Shards under their slot upper bounds, and the addresses of known node ids.
#[derive(Debug, Default)]
pub struct Slots {
    slots: Vec<(u16, Shard)>,
    id_map: Vec<(Vec<u8>, Vec<u8>)>,
}

/// Keys strictly increase along the sequence.
pub open spec fn sorted_keys<V>(s: Seq<(u16, V)>) -> bool {
    forall|i: int, j: int| 0 <= i < j < s.len() ==> s[i].0 < s[j].0
}

/// The viewed pairs of a slot vector.
pub open spec fn slot_entries(v: Seq<(u16, Shard)>) -> Seq<(u16, ShardView)> {
    Seq::new(v.len(), |i: int| (v[i].0, v[i].1@))
}

/// The viewed pairs of an id vector.
pub open spec fn id_entries(v: Seq<(Vec<u8>, Vec<u8>)>) -> Seq<(Seq<u8>, Seq<u8>)> {
    Seq::new(v.len(), |i: int| (v[i].0@, v[i].1@))
}

impl Slots {
    /// The slot table: shard by upper bound.
    pub closed spec fn table(&self) -> Map<u16, ShardView> {
        assoc(slot_entries(self.slots@))
    }

    /// The node-id map: address by id.
    pub closed spec fn ids(&self) -> Map<Seq<u8>, Seq<u8>> {
        assoc(id_entries(self.id_map@))
    }

    /// The table is kept sorted by bound and ids are unique.
    pub closed spec fn wf(&self) -> bool {
        &&& sorted_keys(slot_entries(self.slots@))
        &&& keys_unique(id_entries(self.id_map@))
    }

    /// An empty table.
    pub fn new() -> (r: Slots)
        ensures
            r.wf(),
            r.table() == Map::<u16, ShardView>::empty(),
            r.ids() == Map::<Seq<u8>, Seq<u8>>::empty(),
    {
        let r = Slots { slots: Vec::new(), id_map: Vec::new() };
        assert(slot_entries(r.slots@) =~= Seq::<(u16, ShardView)>::empty());
        assert(id_entries(r.id_map@) =~= Seq::<(Seq<u8>, Seq<u8>)>::empty());
        r
    }

    /// Stores `shard` under the upper bound `upper`, replacing what was there.
    pub fn insert_shard(&mut self, upper: u16, shard: Shard)
        requires
            old(self).wf(),
        ensures
            final(self).wf(),
            final(self).table() == old(self).table().insert(upper, shard@),
            final(self).ids() == old(self).ids(),
    {
        upsert_slot(&mut self.slots, upper, shard);
    }

    /// The table that a topology reply `[[start, end, node, node, ...], ...]`
    /// describes, where a node is `[host, port, id, ...]`. Rows without a
    /// readable node are skipped; a later row under the same bound, and a
    /// later address for the same id, wins. A reply that is not an array
    /// gives an empty table.
    pub fn from_reply(reply: &Reply) -> (r: Slots)
        ensures
            r.wf(),
            match reply {
                Reply::Array(top) => r.table() == assoc(topology_rows(top@)) && r.ids() == assoc(
                    topology_ids(top@),
                ),
                _ => r.table() == Map::<u16, ShardView>::empty() && r.ids() == Map::<
                    Seq<u8>,
                    Seq<u8>,
                >::empty(),
            },
    {
        let mut r = Slots::new();
        match reply {
            Reply::Array(top) => {
                let mut i: usize = 0;
                while i < top.len()
                    invariant
                        0 <= i <= top@.len(),
                        r.wf(),
                        r.table() == assoc(topology_rows(top@.take(i as int))),
                        r.ids() == assoc(topology_ids(top@.take(i as int))),
                    decreases top@.len() - i,
                {
                    let ghost pre = top@.take(i as int);
                    let ghost cur = top@.take(i + 1);
                    proof {
                        assert(cur.drop_last() =~= pre);
                        assert(cur.last() == top@[i as int]);
                    }
                    match &top[i] {
                        Reply::Array(items) => {
                            let es = row_nodes_of(items);
                            let ghost ev = id_entries(es@);
                            let ghost base = topology_ids(pre);
                            let mut j: usize = 0;
                            while j < es.len()
                                invariant
                                    ev == id_entries(es@),
                                    0 <= j <= ev.len(),
                                    r.wf(),
                                    r.table() == assoc(topology_rows(pre)),
                                    r.ids() == assoc(base + ev.take(j as int)),
                                decreases ev.len() - j,
                            {
                                upsert_id(
                                    &mut r.id_map,
                                    vstd::slice::slice_to_vec(es[j].0.as_slice()),
                                    vstd::slice::slice_to_vec(es[j].1.as_slice()),
                                );
                                proof {
                                    let t = base + ev.take(j + 1);
                                    assert(t.drop_last() =~= base + ev.take(j as int));
                                    assert(t.last() == ev[j as int]);
                                }
                                j += 1;
                            }
                            proof {
                                assert(ev.take(j as int) =~= ev);
                                assert(topology_ids(cur) == base + ev);
                            }
                            if es.len() > 0 {
                                let shard = Shard {
                                    master: vstd::slice::slice_to_vec(es[0].1.as_slice()),
                                    slaves: addrs_from(&es, 1),
                                };
                                let bound = row_bound_of(items);
                                upsert_slot(&mut r.slots, bound, shard);
                                proof {
                                    assert(row_of(top@[i as int]) == Some((bound, shard@)));
                                    assert(topology_rows(cur) == topology_rows(pre).push((bound, shard@)));
                                    assert(topology_rows(pre).push((bound, shard@)).drop_last() =~= topology_rows(pre));
                                }
                            } else {
                                assert(row_of(top@[i as int]).is_none());
                                assert(topology_rows(cur) == topology_rows(pre));
                            }
                        },
                        _ => {
                            proof {
                                assert(topology_ids(cur) =~= topology_ids(pre));
                                assert(topology_rows(cur) == topology_rows(pre));
                            }
                        },
                    }
                    i += 1;
                }
                assert(top@.take(i as int) =~= top@);
                r
            },
            _ => r,
        }
    }

    /// Refreshes from a topology reply: the table is replaced by the one the
    /// reply describes, and the ids it names with a reachable address are
    /// merged into the id map. A reply that is not an array is refused and
    /// changes nothing.
    pub fn set(&mut self, reply: &Reply) -> (r: Result<(), RedisError>)
        requires
            old(self).wf(),
        ensures
            final(self).wf(),
            match reply {
                Reply::Array(top) => r.is_ok() && final(self).table() == assoc(topology_rows(top@))
                    && final(self).ids() == merge_ids(old(self).ids(), assoc(topology_ids(top@))),
                _ => r.is_err() && final(self).table() == old(self).table() && final(self).ids()
                    == old(self).ids(),
            },
    {
        match reply {
            Reply::Array(_) => {},
            _ => {
                return Err(RedisError::RedisError(malformed_topology()));
            },
        }
        let donor = Slots::from_reply(reply);
        let ghost de = id_entries(donor.id_map@);
        let ghost old_ids = self.ids();
        let mut k: usize = 0;
        assert(merge_ids(old_ids, assoc(de.take(0))) =~= old_ids);
        while k < donor.id_map.len()
            invariant
                de == id_entries(donor.id_map@),
                keys_unique(de),
                0 <= k <= de.len(),
                self.wf(),
                self.ids() == merge_ids(old_ids, assoc(de.take(k as int))),
            decreases de.len() - k,
        {
            let ghost l = assoc(de.take(k as int));
            let ghost prev = self.ids();
            proof {
                let t = de.take(k + 1);
                assert(t.drop_last() =~= de.take(k as int));
                lemma_assoc_unique(de.take(k as int));
                assert(!l.contains_key(de[k as int].0)) by {
                    if l.contains_key(de[k as int].0) {
                        let q = choose|q: int| 0 <= q < k && (#[trigger] de.take(k as int)[q]).0 == de[k as int].0;
                        assert(de[q].0 == de[k as int].0);
                    }
                }
            }
            let addr = &donor.id_map[k].1;
            if !(addr.len() > 0 && addr[0] == 0x3au8) {
                upsert_id(
                    &mut self.id_map,
                    vstd::slice::slice_to_vec(donor.id_map[k].0.as_slice()),
                    vstd::slice::slice_to_vec(addr.as_slice()),
                );
                assert(self.ids() =~= merge_ids(old_ids, assoc(de.take(k + 1))));
            } else {
                assert(self.ids() =~= merge_ids(old_ids, assoc(de.take(k + 1))));
            }
            k += 1;
        }
        assert(de.take(k as int) =~= de);
        self.slots = donor.slots;
        Ok(())
    }

    /// Whether the table holds no shard.
    pub fn is_empty(&self) -> (r: bool)
        requires
            self.wf(),
        ensures
            r == (self.table() =~= Map::<u16, ShardView>::empty()),
    {
        let ghost e = slot_entries(self.slots@);
        proof {
            lemma_assoc_unique(e);
        }
        if self.slots.len() == 0 {
            assert(e =~= Seq::<(u16, ShardView)>::empty());
            assert(self.table() =~= Map::<u16, ShardView>::empty());
            true
        } else {
            assert(self.table().contains_key(e[0].0));
            false
        }
    }

    /// The shard that owns `slot`: the one under the least upper bound that
    /// is at least `slot`, or none when `slot` lies above every bound.
    pub fn get_shard(&self, slot: u16) -> (r: Option<Shard>)
        requires
            self.wf(),
        ensures
            match r {
                Some(s) => shard_for(self.table(), slot) == Some(s@),
                None => shard_for(self.table(), slot).is_none(),
            },
            r.is_none() == (forall|k: u16| self.table().contains_key(k) ==> k < slot),
    {
        let ghost e = slot_entries(self.slots@);
        proof {
            lemma_assoc_unique(e);
        }
        let mut i: usize = 0;
        while i < self.slots.len() && self.slots[i].0 < slot
            invariant
                e == slot_entries(self.slots@),
                sorted_keys(e),
                0 <= i <= e.len(),
                forall|j: int| 0 <= j < i ==> (#[trigger] e[j]).0 < slot,
            decreases e.len() - i,
        {
            i += 1;
        }
        let ghost m = self.table();
        if i < self.slots.len() {
            let k = self.slots[i].0;
            proof {
                assert(e[i as int].0 == k);
                assert(is_ceiling(m, slot, k)) by {
                    assert(m.contains_key(e[i as int].0));
                    assert forall|k2: u16| m.contains_key(k2) && k2 >= slot implies k <= k2 by {
                        let j = choose|j: int| 0 <= j < e.len() && (#[trigger] e[j]).0 == k2;
                        if j < i {
                            assert(e[j].0 < slot);
                        } else if j > i {
                            assert(e[i as int].0 < e[j].0);
                        }
                    }
                }
                let c = choose|c: u16| is_ceiling(m, slot, c);
                assert(c <= k && k <= c);
                assert(m[k] == e[i as int].1);
            }
            Some(self.slots[i].1.copy())
        } else {
            proof {
                assert forall|k2: u16| m.contains_key(k2) implies k2 < slot by {
                    let j = choose|j: int| 0 <= j < e.len() && (#[trigger] e[j]).0 == k2;
                }
                assert(!exists|c: u16| is_ceiling(m, slot, c));
            }
            None
        }
    }

    /// The address of the node with cluster id `id`.
    pub fn get_node_by_id(&self, id: &[u8]) -> (r: Option<ShardNode>)
        requires
            self.wf(),
        ensures
            r.is_some() == self.ids().contains_key(id@),
            r.is_some() ==> r.unwrap().addr@ == self.ids()[id@] && !r.unwrap().master,
    {
        let ghost e = id_entries(self.id_map@);
        proof {
            lemma_assoc_unique(e);
        }
        match find_key(&self.id_map, id) {
            Some(i) => {
                assert(e[i as int].0 == id@);
                Some(ShardNode { addr: vstd::slice::slice_to_vec(self.id_map[i].1.as_slice()), master: false })
            },
            None => {
                assert(!self.ids().contains_key(id@)) by {
                    if self.ids().contains_key(id@) {
                        let j = choose|j: int| 0 <= j < e.len() && (#[trigger] e[j]).0 == id@;
                        assert(self.id_map@[j].0@ == id@);
                    }
                }
                None
            },
        }
    }

    /// The slot of the command's key and the shard that owns it.
    pub fn get_route(&self, params: &Params) -> (r: Route)
        requires
            self.wf(),
        ensures
            params.keys@.len() == 0 ==> r.slot.is_none() && r.shard.is_none(),
            r.slot matches Some(s) ==> s < SLOT_COUNT,
            params.keys@.len() > 0 ==> r.slot == Some(key_slot_spec(params.keys@[0]@)) && match r.shard {
                Some(s) => shard_for(self.table(), key_slot_spec(params.keys@[0]@)) == Some(s@),
                None => shard_for(self.table(), key_slot_spec(params.keys@[0]@)).is_none(),
            },
    {
        if params.keys.len() == 0 {
            Route { slot: None, shard: None }
        } else {
            let s = key_slot(params.keys[0].as_slice());
            let shard = self.get_shard(s);
            Route { slot: Some(s), shard }
        }
    }

    /// Every node whose id is known.
    pub fn get_nodes(&self) -> (r: Vec<ShardNode>)
        requires
            self.wf(),
        ensures
            forall|i: int| 0 <= i < r@.len() ==> !(#[trigger] r@[i]).master,
            forall|a: Seq<u8>| #[trigger] lists_addr(r@, a) <==> maps_to(self.ids(), a),
            r@.len() == self.ids().dom().len(),
            one_per_id(r@, self.ids()),
    {
        let ghost e = id_entries(self.id_map@);
        proof {
            lemma_assoc_unique(e);
        }
        let mut r: Vec<ShardNode> = Vec::new();
        let mut i: usize = 0;
        while i < self.id_map.len()
            invariant
                e == id_entries(self.id_map@),
                0 <= i <= e.len(),
                r@.len() == i,
                forall|j: int| 0 <= j < i ==> (#[trigger] r@[j]).addr@ == e[j].1 && !r@[j].master,
            decreases e.len() - i,
        {
            r.push(ShardNode { addr: vstd::slice::slice_to_vec(self.id_map[i].1.as_slice()), master: false });
            i += 1;
        }
        let ghost m = self.ids();
        assert forall|a: Seq<u8>| #[trigger] lists_addr(r@, a) implies maps_to(m, a) by {
            let j = choose|j: int| 0 <= j < r@.len() && (#[trigger] r@[j]).addr@ == a;
            assert(m.contains_key(e[j].0) && m[e[j].0] == e[j].1);
        }
        assert forall|a: Seq<u8>| maps_to(m, a) implies #[trigger] lists_addr(r@, a) by {
            let id = choose|id: Seq<u8>| #[trigger] m.contains_key(id) && m[id] == a;
            let j = choose|j: int| 0 <= j < e.len() && (#[trigger] e[j]).0 == id;
            assert(m[e[j].0] == e[j].1);
            assert(r@[j].addr@ == a);
        }
        proof {
            lemma_assoc_len(e);
            let ks = Seq::new(e.len(), |j: int| e[j].0);
            assert(ks.no_duplicates());
            assert forall|id: Seq<u8>| #[trigger] ks.to_set().contains(id) == m.dom().contains(id) by {
                if m.contains_key(id) {
                    let j = choose|j: int| 0 <= j < e.len() && (#[trigger] e[j]).0 == id;
                    assert(ks[j] == id);
                }
                if ks.contains(id) {
                    let j = choose|j: int| 0 <= j < ks.len() && ks[j] == id;
                    assert(e[j].0 == id);
                }
            }
            assert(ks.to_set() =~= m.dom());
            assert forall|j: int| 0 <= j < r@.len() implies (#[trigger] r@[j]).addr@ == m[ks[j]] by {
                assert(m[e[j].0] == e[j].1);
            }
            assert(nodes_for_ids(r@, m, ks));
        }
        r
    }
}

/// The text of one part of a node description.
fn part_text_of(x: &Reply) -> (r: Option<Vec<u8>>)
    ensures
        match r {
            Some(t) => part_text(*x) == Some(t@),
            None => part_text(*x).is_none(),
        },
{
    match x {
        Reply::BulkString(d) => Some(vstd::slice::slice_to_vec(d.as_slice())),
        Reply::SimpleString(s) => Some(vstd::slice::slice_to_vec(s.as_slice())),
        Reply::Int(n) => Some(dec_text(*n)),
        _ => None,
    }
}

/// Texts joined with `:` between them.
fn join_with_colon(ts: &Vec<Vec<u8>>) -> (r: Vec<u8>)
    ensures
        r@ == join_colon(bytes_views(ts@)),
{
    let ghost v = bytes_views(ts@);
    let mut out: Vec<u8> = Vec::new();
    let mut k: usize = 0;
    while k < ts.len()
        invariant
            v == bytes_views(ts@),
            0 <= k <= v.len(),
            out@ == join_colon(v.take(k as int)),
        decreases v.len() - k,
    {
        let ghost before = out@;
        if k > 0 {
            out.push(0x3au8);
        }
        append_bytes(&mut out, ts[k].as_slice());
        proof {
            let t = v.take(k + 1);
            assert(t.drop_last() =~= v.take(k as int));
            assert(t.last() == ts@[k as int]@);
            if k == 0 {
                assert(out@ =~= t[0]);
            } else {
                assert(out@ =~= before + seq![0x3au8] + t.last());
            }
        }
        k += 1;
    }
    assert(v.take(k as int) =~= v);
    out
}

/// A node description read as (id, address).
fn node_entry_of(x: &Reply) -> (r: Option<(Vec<u8>, Vec<u8>)>)
    ensures
        match r {
            Some(p) => node_entry(*x) == Some((p.0@, p.1@)),
            None => node_entry(*x).is_none(),
        },
{
    match x {
        Reply::Array(v) => {
            let n: usize = if v.len() > 3 { 3 } else { v.len() };
            let ghost parts = if v@.len() > 3 { v@.take(3) } else { v@ };
            assert(parts =~= v@.take(n as int));
            let mut ts: Vec<Vec<u8>> = Vec::new();
            let mut j: usize = 0;
            while j < n
                invariant
                    n <= v@.len(),
                    0 <= j <= n,
                    bytes_views(ts@) == texts(v@.take(j as int)),
                decreases n - j,
            {
                let ghost before = ts@;
                let t = part_text_of(&v[j]);
                proof {
                    assert(v@.take(j + 1).drop_last() =~= v@.take(j as int));
                    assert(v@.take(j + 1).last() == v@[j as int]);
                }
                match t {
                    Some(t) => {
                        ts.push(t);
                        assert(bytes_views(ts@) =~= bytes_views(before).push(t@));
                    },
                    None => {},
                }
                j += 1;
            }
            if ts.len() == 0 {
                None
            } else {
                let ghost tv = bytes_views(ts@);
                let id = ts.pop().unwrap();
                assert(bytes_views(ts@) =~= tv.drop_last());
                let addr = join_with_colon(&ts);
                Some((id, addr))
            }
        },
        _ => None,
    }
}

/// The node descriptions of a row.
fn row_nodes_of(items: &Vec<Reply>) -> (r: Vec<(Vec<u8>, Vec<u8>)>)
    ensures
        id_entries(r@) == row_nodes(items@),
{
    let mut r: Vec<(Vec<u8>, Vec<u8>)> = Vec::new();
    if items.len() <= 2 {
        assert(id_entries(r@) =~= Seq::<(Seq<u8>, Seq<u8>)>::empty());
        return r;
    }
    let mut j: usize = 2;
    while j < items.len()
        invariant
            2 <= j <= items@.len(),
            id_entries(r@) == node_entries(items@.subrange(2, j as int)),
        decreases items@.len() - j,
    {
        let ghost before = r@;
        let e = node_entry_of(&items[j]);
        proof {
            assert(items@.subrange(2, j + 1).drop_last() =~= items@.subrange(2, j as int));
            assert(items@.subrange(2, j + 1).last() == items@[j as int]);
        }
        match e {
            Some(p) => {
                let ghost pv = (p.0@, p.1@);
                r.push(p);
                assert(id_entries(r@) =~= id_entries(before).push(pv));
            },
            None => {},
        }
        j += 1;
    }
    r
}

/// The addresses of the entries from index `from` on.
fn addrs_from(es: &Vec<(Vec<u8>, Vec<u8>)>, from: usize) -> (r: Vec<Vec<u8>>)
    requires
        from <= es@.len(),
    ensures
        bytes_views(r@) == entry_addrs(id_entries(es@).subrange(from as int, es@.len() as int)),
{
    let ghost e = id_entries(es@);
    let mut r: Vec<Vec<u8>> = Vec::new();
    let mut j: usize = from;
    while j < es.len()
        invariant
            e == id_entries(es@),
            from <= j <= e.len(),
            bytes_views(r@) == entry_addrs(e.subrange(from as int, j as int)),
        decreases e.len() - j,
    {
        let ghost before = r@;
        let a = vstd::slice::slice_to_vec(es[j].1.as_slice());
        r.push(a);
        assert(bytes_views(r@) =~= entry_addrs(e.subrange(from as int, j + 1))) by {
            assert(bytes_views(before) == entry_addrs(e.subrange(from as int, j as int)));
            assert(bytes_views(before).len() == j - from);
            assert(before.len() == j - from);
            assert(r@ == before.push(a));
            assert(a@ == e[j as int].1);
            assert forall|q: int| 0 <= q < r@.len() - 1 implies r@[q]@ == e[from + q].1 by {
                assert(r@[q] == before[q]);
                assert(bytes_views(before)[q] == entry_addrs(e.subrange(from as int, j as int))[q]);
                assert(e.subrange(from as int, j as int)[q] == e[from + q]);
            }
        }
        j += 1;
    }
    r
}

/// The low 16 bits of an integer.
fn low_bits(n: i64) -> (r: u16)
    ensures
        r == (n % 0x10000) as u16,
{
    let w: i128 = n as i128;
    let q: i128 = if w >= 0 { w % 0x10000 } else { (0x10000 - ((0 - w) % 0x10000)) % 0x10000 };
    assert(q == n % 0x10000) by (nonlinear_arith)
        requires
            w == n,
            w >= 0 ==> q == w % 0x10000,
            w < 0 ==> q == (0x10000 - ((0 - w) % 0x10000)) % 0x10000,
    ;
    q as u16
}

/// The upper slot bound of a row.
fn row_bound_of(items: &Vec<Reply>) -> (r: u16)
    ensures
        r == row_bound(items@),
{
    if items.len() > 1 {
        match &items[1] {
            Reply::Int(n) => low_bits(*n),
            Reply::SimpleString(t) => match read_dec(t.as_slice(), 0xffff) {
                Some(v) => v as u16,
                None => 0,
            },
            Reply::BulkString(t) => match read_dec(t.as_slice(), 0xffff) {
                Some(v) => v as u16,
                None => 0,
            },
            _ => 0,
        }
    } else {
        0
    }
}

/// The text of the error for a topology reply that is not an array.
pub fn malformed_topology() -> (r: Vec<u8>)
    ensures
        r@.len() > 0,
{
    let mut r: Vec<u8> = Vec::new();
    append_bytes(&mut r, &MALFORMED);
    r
}

/// `malformed topology reply`
pub const MALFORMED: [u8; 24] = [
    0x6du8, 0x61, 0x6c, 0x66, 0x6f, 0x72, 0x6d, 0x65, 0x64, 0x20, 0x74, 0x6f, 0x70, 0x6f, 0x6c,
    0x6f, 0x67, 0x79, 0x20, 0x72, 0x65, 0x70, 0x6c, 0x79,
];

/// Stores `(k, s)` in a sorted slot vector, replacing the pair under `k`.
fn upsert_slot(v: &mut Vec<(u16, Shard)>, k: u16, s: Shard)
    requires
        sorted_keys(slot_entries(old(v)@)),
    ensures
        sorted_keys(slot_entries(final(v)@)),
        assoc(slot_entries(final(v)@)) == assoc(slot_entries(old(v)@)).insert(k, s@),
{
    let ghost e = slot_entries(v@);
    let ghost sv = s@;
    assert(keys_unique(e));
    let mut i: usize = 0;
    while i < v.len() && v[i].0 < k
        invariant
            e == slot_entries(v@),
            sorted_keys(e),
            0 <= i <= e.len(),
            forall|j: int| 0 <= j < i ==> (#[trigger] e[j]).0 < k,
        decreases e.len() - i,
    {
        i += 1;
    }
    if i < v.len() && v[i].0 == k {
        v.set(i, (k, s));
        proof {
            lemma_assoc_update(e, i as int, sv);
            assert(slot_entries(v@) =~= e.update(i as int, (e[i as int].0, sv)));
        }
    } else {
        v.insert(i, (k, s));
        proof {
            assert forall|j: int| 0 <= j < e.len() implies (#[trigger] e[j]).0 != k by {
                if j >= i {
                    assert(e[i as int].0 > k);
                    if j > i {
                        assert(e[i as int].0 < e[j].0);
                    }
                }
            }
            lemma_assoc_insert(e, i as int, k, sv);
            assert(slot_entries(v@) =~= e.insert(i as int, (k, sv)));
        }
    }
}

/// Stores `(k, a)` in an id vector with unique ids, replacing the pair under `k`.
fn upsert_id(v: &mut Vec<(Vec<u8>, Vec<u8>)>, k: Vec<u8>, a: Vec<u8>)
    requires
        keys_unique(id_entries(old(v)@)),
    ensures
        keys_unique(id_entries(final(v)@)),
        assoc(id_entries(final(v)@)) == assoc(id_entries(old(v)@)).insert(k@, a@),
{
    let ghost e = id_entries(v@);
    let ghost kv = k@;
    let ghost av = a@;
    match find_key(v, k.as_slice()) {
        Some(i) => {
            v.set(i, (k, a));
            proof {
                lemma_assoc_update(e, i as int, av);
                assert(id_entries(v@) =~= e.update(i as int, (e[i as int].0, av)));
            }
        },
        None => {
            v.push((k, a));
            proof {
                lemma_assoc_push(e, kv, av);
                assert(id_entries(v@) =~= e.push((kv, av)));
            }
        },
    }
}

} // verus!
