use vstd::prelude::*;
use crate::assoc::{
    assoc, find_key, keys_unique, lemma_assoc_push, lemma_assoc_remove, lemma_assoc_unique,
    lemma_assoc_update,
};
use crate::command::{key_list, route_block, route_key, Params};
use crate::error::RedisError;
use crate::reply::Reply;
use crate::shards::{maps_to, lists_addr, merge_ids, shard_for, topology_ids, topology_rows, ShardView, Slots};
use crate::slot::key_slot_spec;
use crate::words::bytes_views;

verus! {

/// The address that a command is sent to without registering anything: the
/// master of the shard that owns its key's slot; for a command without a
/// key, or a slot that no shard owns, the first registered node. `NoSlot`
/// when no node is registered at all, `NotFoundNode` when the master chosen
/// is not registered.
pub open spec fn direct_target(
    table: Map<u16, ShardView>,
    addrs: Seq<Seq<u8>>,
    args: Seq<Seq<u8>>,
) -> Result<Seq<u8>, RedisError> {
    let shard = match route_key(args) {
        Some(k) => shard_for(table, key_slot_spec(k)),
        None => None,
    };
    match shard {
        Some(s) => if addrs.contains(s.0) {
            Ok(s.0)
        } else {
            Err(RedisError::NotFoundNode)
        },
        None => if addrs.len() > 0 {
            Ok(addrs[0])
        } else {
            Err(RedisError::NoSlot)
        },
    }
}

/// The address that a command is sent to once its shard's master may be
/// registered on the fly: that master, or `NoSlot` when no shard owns the
/// command's slot.
pub open spec fn added_target(table: Map<u16, ShardView>, args: Seq<Seq<u8>>) -> Result<
    Seq<u8>,
    RedisError,
> {
    let shard = match route_key(args) {
        Some(k) => shard_for(table, key_slot_spec(k)),
        None => None,
    };
    match shard {
        Some(s) => Ok(s.0),
        None => Err(RedisError::NoSlot),
    }
}

/// Where a command goes, and whether its node must be registered first: the
/// direct target when there is one; after `NotFoundNode`, the shard's master,
/// registered on the way. Other errors pass through.
pub open spec fn plan(table: Map<u16, ShardView>, addrs: Seq<Seq<u8>>, args: Seq<Seq<u8>>) -> Result<
    (Seq<u8>, bool),
    RedisError,
> {
    match direct_target(table, addrs, args) {
        Ok(a) => Ok((a, false)),
        Err(RedisError::NotFoundNode) => match added_target(table, args) {
            Ok(a) => Ok((a, !addrs.contains(a))),
            Err(e) => Err(e),
        },
        Err(e) => Err(e),
    }
}

/// A routed command: the node address it goes to, its routing information,
/// and whether that node has to be created and registered before sending.
pub struct Routed {
    pub addr: Vec<u8>,
    pub params: Params,
    pub register: bool,
}

/// The slot table and the registry of nodes that connections exist for,
/// by address, with the cluster id each has reported.
pub struct ClusterRouter {
    slots: Slots,
    nodes: Vec<(Vec<u8>, Option<Vec<u8>>)>,
    is_cluster: bool,
}

/// The viewed pairs of a node registry.
pub open spec fn node_entries(v: Seq<(Vec<u8>, Option<Vec<u8>>)>) -> Seq<(Seq<u8>, Option<Seq<u8>>)> {
    Seq::new(
        v.len(),
        |i: int|
            (
                v[i].0@,
                match v[i].1 {
                    Some(x) => Some(x@),
                    None => None,
                },
            ),
    )
}

/// The addresses of a registry, in order of registration.
pub open spec fn addrs_of(v: Seq<(Seq<u8>, Option<Seq<u8>>)>) -> Seq<Seq<u8>> {
    Seq::new(v.len(), |i: int| v[i].0)
}

impl ClusterRouter {
    /// Registered node addresses, in order of registration.
    pub closed spec fn addrs(&self) -> Seq<Seq<u8>> {
        addrs_of(node_entries(self.nodes@))
    }

    /// The cluster id recorded for each registered address.
    pub closed spec fn node_ids(&self) -> Map<Seq<u8>, Option<Seq<u8>>> {
        assoc(node_entries(self.nodes@))
    }

    /// The slot table.
    pub closed spec fn table(&self) -> Map<u16, ShardView> {
        self.slots.table()
    }

    /// The node-id map of the slot table.
    pub closed spec fn ids(&self) -> Map<Seq<u8>, Seq<u8>> {
        self.slots.ids()
    }

    /// Whether discovery found a cluster.
    pub closed spec fn cluster(&self) -> bool {
        self.is_cluster
    }

    /// Whether discovery found a cluster.
    pub fn is_cluster(&self) -> (r: bool)
        ensures
            r == self.cluster(),
    {
        self.is_cluster
    }

    /// Records whether discovery found a cluster.
    pub fn set_cluster(&mut self, c: bool)
        ensures
            final(self).cluster() == c,
            final(self).addrs() == old(self).addrs(),
            final(self).node_ids() == old(self).node_ids(),
            final(self).table() == old(self).table(),
            final(self).ids() == old(self).ids(),
            old(self).wf() ==> final(self).wf(),
    {
        self.is_cluster = c;
    }

    /// Routers are kept with a sorted table and unique registry addresses.
    pub closed spec fn wf(&self) -> bool {
        &&& self.slots.wf()
        &&& keys_unique(node_entries(self.nodes@))
    }

    /// A router with no node and an empty slot table.
    pub fn new() -> (r: ClusterRouter)
        ensures
            r.wf(),
            r.addrs() == Seq::<Seq<u8>>::empty(),
            r.table() == Map::<u16, ShardView>::empty(),
            r.ids() == Map::<Seq<u8>, Seq<u8>>::empty(),
            !r.cluster(),
    {
        let r = ClusterRouter { slots: Slots::new(), nodes: Vec::new(), is_cluster: false };
        assert(r.addrs() =~= Seq::<Seq<u8>>::empty());
        assert(node_entries(r.nodes@) =~= Seq::<(Seq<u8>, Option<Seq<u8>>)>::empty());
        r
    }

    /// Whether a node is registered under `addr`.
    pub fn is_registered(&self, addr: &[u8]) -> (r: bool)
        requires
            self.wf(),
        ensures
            r == self.addrs().contains(addr@),
    {
        let ghost e = node_entries(self.nodes@);
        match find_key(&self.nodes, addr) {
            Some(i) => {
                assert(self.addrs()[i as int] == addr@);
                true
            },
            None => {
                assert(!self.addrs().contains(addr@)) by {
                    if self.addrs().contains(addr@) {
                        let j = choose|j: int| 0 <= j < self.addrs().len() && self.addrs()[j] == addr@;
                        assert(self.nodes@[j].0@ == addr@);
                    }
                }
                false
            },
        }
    }

    /// Registers a node under `addr`, with no cluster id yet; an address
    /// already registered is left as it is.
    pub fn register(&mut self, addr: &[u8])
        requires
            old(self).wf(),
        ensures
            final(self).wf(),
            final(self).table() == old(self).table(),
            final(self).ids() == old(self).ids(),
            final(self).cluster() == old(self).cluster(),
            old(self).addrs().contains(addr@) ==> final(self).addrs() == old(self).addrs(),
            !old(self).addrs().contains(addr@) ==> final(self).addrs() == old(self).addrs().push(addr@),
            final(self).addrs().contains(addr@),
    {
        if self.is_registered(addr) {
            return;
        }
        let ghost e = node_entries(self.nodes@);
        self.nodes.push((vstd::slice::slice_to_vec(addr), None));
        proof {
            assert forall|i: int| 0 <= i < e.len() implies (#[trigger] e[i]).0 != addr@ by {
                assert(old(self).addrs()[i] == e[i].0);
            }
            lemma_assoc_push(e, addr@, None);
            assert(node_entries(self.nodes@) =~= e.push((addr@, None)));
            assert(self.addrs() =~= old(self).addrs().push(addr@));
            assert(self.addrs()[self.addrs().len() - 1] == addr@);
        }
    }

    /// Replaces the slot table from a topology reply; see `Slots::set`.
    pub fn refresh(&mut self, reply: &Reply) -> (r: Result<(), RedisError>)
        requires
            old(self).wf(),
        ensures
            final(self).wf(),
            final(self).addrs() == old(self).addrs(),
            final(self).node_ids() == old(self).node_ids(),
            final(self).cluster() == old(self).cluster(),
            match reply {
                Reply::Array(top) => r.is_ok() && final(self).table() == assoc(topology_rows(top@))
                    && final(self).ids() == merge_ids(old(self).ids(), assoc(topology_ids(top@))),
                _ => r.is_err() && final(self).table() == old(self).table() && final(self).ids()
                    == old(self).ids(),
            },
    {
        self.slots.set(reply)
    }

    /// Where a command goes without registering anything.
    pub fn send_target(&self, args: &Vec<Vec<u8>>) -> (r: Result<Vec<u8>, RedisError>)
        requires
            self.wf(),
        ensures
            match r {
                Ok(a) => direct_target(self.table(), self.addrs(), bytes_views(args@)) == Ok::<
                    Seq<u8>,
                    RedisError,
                >(a@),
                Err(e) => direct_target(self.table(), self.addrs(), bytes_views(args@)) == Err::<
                    Seq<u8>,
                    RedisError,
                >(e),
            },
    {
        let params = Params::from_args(args);
        let route = self.slots.get_route(&params);
        proof {
            lemma_first_key(params, bytes_views(args@));
        }
        match route.shard {
            Some(s) => {
                if self.is_registered(s.master.as_slice()) {
                    Ok(s.master)
                } else {
                    Err(RedisError::NotFoundNode)
                }
            },
            None => {
                if self.nodes.len() > 0 {
                    assert(self.addrs()[0] == self.nodes@[0].0@);
                    Ok(vstd::slice::slice_to_vec(self.nodes[0].0.as_slice()))
                } else {
                    Err(RedisError::NoSlot)
                }
            },
        }
    }

    /// Routes a command: its node address, its routing information, and
    /// whether the node has to be created and registered first.
    pub fn route_command(&self, args: &Vec<Vec<u8>>) -> (r: Result<Routed, RedisError>)
        requires
            self.wf(),
        ensures
            match r {
                Ok(t) => plan(self.table(), self.addrs(), bytes_views(args@)) == Ok::<
                    (Seq<u8>, bool),
                    RedisError,
                >((t.addr@, t.register)) && bytes_views(t.params.keys@) == key_list(
                    route_key(bytes_views(args@)),
                ) && t.params.block == route_block(bytes_views(args@)),
                Err(e) => plan(self.table(), self.addrs(), bytes_views(args@)) == Err::<
                    (Seq<u8>, bool),
                    RedisError,
                >(e),
            },
    {
        match self.send_target(args) {
            Ok(a) => Ok(Routed { addr: a, params: Params::from_args(args), register: false }),
            Err(RedisError::NotFoundNode) => {
                let params = Params::from_args(args);
                let route = self.slots.get_route(&params);
                proof {
                    lemma_first_key(params, bytes_views(args@));
                }
                match route.shard {
                    Some(s) => {
                        let known = self.is_registered(s.master.as_slice());
                        Ok(Routed { addr: s.master, params, register: !known })
                    },
                    None => Err(RedisError::NoSlot),
                }
            },
            Err(e) => Err(e),
        }
    }

    /// Records the cluster id that the node at `addr` reported, and moves its
    /// registry entry to the address the slot table knows for that id (which
    /// replaces an entry already there). Nothing moves when the id is
    /// unknown to the table or `addr` is not registered.
    pub fn adopt_id(&mut self, addr: &[u8], id: &[u8])
        requires
            old(self).wf(),
        ensures
            final(self).wf(),
            final(self).table() == old(self).table(),
            final(self).ids() == old(self).ids(),
            final(self).cluster() == old(self).cluster(),
            (old(self).node_ids().contains_key(addr@) && old(self).ids().contains_key(id@))
                ==> final(self).node_ids() == old(self).node_ids().remove(addr@).insert(
                old(self).ids()[id@],
                Some(id@),
            ),
            !(old(self).node_ids().contains_key(addr@) && old(self).ids().contains_key(id@))
                ==> final(self).node_ids() == old(self).node_ids(),
    {
        let ghost e0 = node_entries(self.nodes@);
        let target = match self.slots.get_node_by_id(id) {
            Some(n) => n.addr,
            None => {
                return;
            },
        };
        let i = match find_key(&self.nodes, addr) {
            Some(i) => i,
            None => {
                proof {
                    lemma_assoc_unique(e0);
                    if old(self).node_ids().contains_key(addr@) {
                        let j = choose|j: int| 0 <= j < e0.len() && (#[trigger] e0[j]).0 == addr@;
                        assert(self.nodes@[j].0@ == addr@);
                    }
                }
                return;
            },
        };
        proof {
            lemma_assoc_unique(e0);
            assert(e0[i as int].0 == addr@);
        }
        self.nodes.remove(i);
        proof {
            lemma_assoc_remove(e0, i as int);
            assert(node_entries(self.nodes@) =~= e0.remove(i as int));
        }
        let ghost e1 = node_entries(self.nodes@);
        let ghost tv = target@;
        let idv = vstd::slice::slice_to_vec(id);
        match find_key(&self.nodes, target.as_slice()) {
            Some(j) => {
                self.nodes.set(j, (target, Some(idv)));
                proof {
                    lemma_assoc_update(e1, j as int, Some(id@));
                    assert(node_entries(self.nodes@) =~= e1.update(j as int, (e1[j as int].0, Some(id@))));
                }
            },
            None => {
                self.nodes.push((target, Some(idv)));
                proof {
                    lemma_assoc_push(e1, tv, Some(id@));
                    assert(node_entries(self.nodes@) =~= e1.push((tv, Some(id@))));
                }
            },
        }
    }

    /// Addresses that the slot table knows a node id for and that have no
    /// registered node yet.
    pub fn missing_nodes(&self) -> (r: Vec<Vec<u8>>)
        requires
            self.wf(),
        ensures
            forall|a: Seq<u8>|
                #[trigger] bytes_views(r@).contains(a) <==> (maps_to(self.ids(), a)
                    && !self.addrs().contains(a)),
    {
        let nodes = self.slots.get_nodes();
        let mut r: Vec<Vec<u8>> = Vec::new();
        let mut i: usize = 0;
        while i < nodes.len()
            invariant
                self.wf(),
                0 <= i <= nodes@.len(),
                forall|a: Seq<u8>| #[trigger] lists_addr(nodes@, a) <==> maps_to(self.ids(), a),
                forall|a: Seq<u8>|
                    #[trigger] bytes_views(r@).contains(a) <==> (lists_addr(nodes@.take(i as int), a)
                        && !self.addrs().contains(a)),
            decreases nodes@.len() - i,
        {
            let ghost before = r@;
            let ghost cur = nodes@[i as int].addr@;
            if !self.is_registered(nodes[i].addr.as_slice()) {
                r.push(vstd::slice::slice_to_vec(nodes[i].addr.as_slice()));
            }
            proof {
                assert forall|a: Seq<u8>|
                    #[trigger] bytes_views(r@).contains(a) <==> (lists_addr(nodes@.take(i + 1), a)
                        && !self.addrs().contains(a)) by {
                    if lists_addr(nodes@.take(i + 1), a) {
                        let q = choose|q: int| 0 <= q < i + 1 && (#[trigger] nodes@.take(i + 1)[q]).addr@ == a;
                        if q < i {
                            assert(nodes@.take(i as int)[q] == nodes@[q]);
                            assert(lists_addr(nodes@.take(i as int), a));
                        }
                    }
                    if lists_addr(nodes@.take(i as int), a) {
                        let q = choose|q: int| 0 <= q < i && (#[trigger] nodes@.take(i as int)[q]).addr@ == a;
                        assert(nodes@.take(i + 1)[q] == nodes@[q]);
                    }
                    if a == cur {
                        assert(nodes@.take(i + 1)[i as int] == nodes@[i as int]);
                    }
                    if bytes_views(r@).contains(a) {
                        let q = choose|q: int| 0 <= q < bytes_views(r@).len() && bytes_views(r@)[q] == a;
                        if q < before.len() {
                            assert(bytes_views(before)[q] == a);
                        }
                    }
                    if bytes_views(before).contains(a) {
                        let q = choose|q: int| 0 <= q < bytes_views(before).len() && bytes_views(before)[q] == a;
                        assert(bytes_views(r@)[q] == a);
                    }
                    if a == cur && !self.addrs().contains(a) {
                        assert(bytes_views(r@)[r@.len() - 1] == a);
                    }
                }
            }
            i += 1;
        }
        assert(nodes@.take(i as int) =~= nodes@);
        r
    }

    /// The address the slot table knows for a cluster node id.
    pub fn address_of_id(&self, id: &[u8]) -> (r: Option<Vec<u8>>)
        requires
            self.wf(),
        ensures
            r.is_some() == self.ids().contains_key(id@),
            r.is_some() ==> r.unwrap()@ == self.ids()[id@],
    {
        match self.slots.get_node_by_id(id) {
            Some(n) => Some(n.addr),
            None => None,
        }
    }

    /// Registered node addresses, in order of registration.
    pub fn node_addrs(&self) -> (r: Vec<Vec<u8>>)
        requires
            self.wf(),
        ensures
            bytes_views(r@) == self.addrs(),
    {
        let mut r: Vec<Vec<u8>> = Vec::new();
        let mut i: usize = 0;
        while i < self.nodes.len()
            invariant
                0 <= i <= self.nodes@.len(),
                bytes_views(r@) == self.addrs().take(i as int),
            decreases self.nodes@.len() - i,
        {
            let ghost before = r@;
            r.push(vstd::slice::slice_to_vec(self.nodes[i].0.as_slice()));
            assert(bytes_views(r@) =~= self.addrs().take(i + 1)) by {
                assert(before.len() == i) by {
                    assert(bytes_views(before).len() == i);
                }
                assert forall|q: int| 0 <= q < i implies r@[q]@ == self.addrs()[q] by {
                    assert(r@[q] == before[q]);
                    assert(bytes_views(before)[q] == self.addrs().take(i as int)[q]);
                }
            }
            i += 1;
        }
        assert(self.addrs().take(i as int) =~= self.addrs());
        r
    }
}

/// The first routing key is the command's routing key.
proof fn lemma_first_key(params: Params, a: Seq<Seq<u8>>)
    requires
        bytes_views(params.keys@) == key_list(route_key(a)),
    ensures
        route_key(a).is_some() ==> params.keys@.len() > 0 && params.keys@[0]@ == route_key(a).unwrap(),
        route_key(a).is_none() ==> params.keys@.len() == 0,
{
    if route_key(a).is_some() {
        let k = route_key(a).unwrap();
        assert(key_list(route_key(a)) == seq![k]);
        assert(bytes_views(params.keys@).len() == 1);
        assert(bytes_views(params.keys@)[0] == params.keys@[0]@);
    } else {
        assert(bytes_views(params.keys@).len() == 0);
    }
}

/// Registering the node that a command was routed to for registration makes
/// the next routing of that command go to the same node directly, with no
/// second registration.
pub proof fn lemma_registration_sticks(
    table: Map<u16, ShardView>,
    addrs: Seq<Seq<u8>>,
    args: Seq<Seq<u8>>,
    a: Seq<u8>,
)
    requires
        plan(table, addrs, args) == Ok::<(Seq<u8>, bool), RedisError>((a, true)),
    ensures
        plan(table, addrs.push(a), args) == Ok::<(Seq<u8>, bool), RedisError>((a, false)),
{
    let t = addrs.push(a);
    assert(t[addrs.len() as int] == a);
    assert(t.contains(a));
    match route_key(args) {
        Some(k) => {},
        None => {},
    }
}

} // verus!
