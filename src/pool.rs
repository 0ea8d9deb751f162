use vstd::prelude::*;
use crate::command::{key_list, route_block, route_key, Params};
use crate::error::{is_not_initialized, RedisError};
use crate::mock::{command_post, EntryView, MockRedis};
use crate::reply::Reply;
use crate::words::{append_bytes, bytes_eq, bytes_views};

verus! {

// Status keys and feature names, as bytes.

/// `shards`
pub const T_SHARDS: [u8; 6] = [0x73u8, 0x68, 0x61, 0x72, 0x64, 0x73];

/// `bb8`
pub const T_BB8: [u8; 3] = [0x62u8, 0x62, 0x38];

/// `mock`
pub const T_MOCK: [u8; 4] = [0x6du8, 0x6f, 0x63, 0x6b];

/// `inmemory`
pub const T_INMEMORY: [u8; 8] = [0x69u8, 0x6e, 0x6d, 0x65, 0x6d, 0x6f, 0x72, 0x79];

/// `closed`
pub const T_CLOSED: [u8; 6] = [0x63u8, 0x6c, 0x6f, 0x73, 0x65, 0x64];

/// `impl`
pub const T_IMPL: [u8; 4] = [0x69u8, 0x6d, 0x70, 0x6c];

/// `cluster`
pub const T_CLUSTER: [u8; 7] = [0x63u8, 0x6c, 0x75, 0x73, 0x74, 0x65, 0x72];

/// `db`
pub const T_DB: [u8; 2] = [0x64u8, 0x62];

/// `initial_nodes`
pub const T_INITIAL_NODES: [u8; 13] = [0x69u8, 0x6e, 0x69, 0x74, 0x69, 0x61, 0x6c, 0x5f, 0x6e, 0x6f, 0x64, 0x65, 0x73];

/// `max_size`
pub const T_MAX_SIZE: [u8; 8] = [0x6du8, 0x61, 0x78, 0x5f, 0x73, 0x69, 0x7a, 0x65];

/// The settings a pool manager is made with.
#[derive(Debug, Default)]
pub struct Config {
    /// Seed connection descriptors, as given.
    pub initial_nodes: Vec<Vec<u8>>,
    /// The client's name, used as the consumer of grouped stream reads.
    pub client_id: Vec<u8>,
    /// `Some(true)` for a cluster client, `Some(false)` for a single node,
    /// `None` to find out.
    pub cluster: Option<bool>,
    pub max_size: u32,
    /// Reconnect delay ceiling, in milliseconds.
    pub max_delay: Option<u64>,
    pub shards: bool,
    pub bb8: bool,
    pub mock: bool,
    /// The database index.
    pub db: i64,
}

/// ASCII letters in lower case, other bytes as they are.
pub open spec fn ascii_lower(s: Seq<u8>) -> Seq<u8> {
    Seq::new(s.len(), |i: int| if 0x41 <= s[i] <= 0x5a { (s[i] + 0x20) as u8 } else { s[i] })
}

/// Whether some feature names `w`, ignoring ASCII case.
pub open spec fn names_feature(fs: Seq<Seq<u8>>, w: Seq<u8>) -> bool {
    exists|i: int| 0 <= i < fs.len() && ascii_lower(#[trigger] fs[i]) == w
}

/// A byte string in ASCII lower case.
pub fn to_ascii_lower(s: &[u8]) -> (r: Vec<u8>)
    ensures
        r@ == ascii_lower(s@),
{
    let mut r: Vec<u8> = Vec::new();
    let mut i: usize = 0;
    while i < s.len()
        invariant
            0 <= i <= s@.len(),
            r@ == ascii_lower(s@).take(i as int),
        decreases s@.len() - i,
    {
        let b = s[i];
        let c: u8 = if 0x41u8 <= b && b <= 0x5au8 { b + 0x20 } else { b };
        r.push(c);
        assert(r@ =~= ascii_lower(s@).take(i + 1));
        i += 1;
    }
    assert(ascii_lower(s@).take(i as int) =~= ascii_lower(s@));
    r
}

impl Config {
    /// Turns on the features named, ignoring ASCII case: `shards`, `bb8`,
    /// and `mock` or `inmemory`. Other names are ignored; features already on
    /// stay on.
    pub fn set_features(&mut self, features: &Vec<Vec<u8>>)
        ensures
            final(self).shards == (old(self).shards || names_feature(bytes_views(features@), T_SHARDS@)),
            final(self).bb8 == (old(self).bb8 || names_feature(bytes_views(features@), T_BB8@)),
            final(self).mock == (old(self).mock || names_feature(bytes_views(features@), T_MOCK@)
                || names_feature(bytes_views(features@), T_INMEMORY@)),
            final(self).initial_nodes@ == old(self).initial_nodes@,
            final(self).client_id@ == old(self).client_id@,
            final(self).cluster == old(self).cluster,
            final(self).max_size == old(self).max_size,
            final(self).max_delay == old(self).max_delay,
            final(self).db == old(self).db,
    {
        let ghost fs = bytes_views(features@);
        let mut i: usize = 0;
        while i < features.len()
            invariant
                fs == bytes_views(features@),
                0 <= i <= features@.len(),
                self.shards == (old(self).shards || names_feature(fs.take(i as int), T_SHARDS@)),
                self.bb8 == (old(self).bb8 || names_feature(fs.take(i as int), T_BB8@)),
                self.mock == (old(self).mock || names_feature(fs.take(i as int), T_MOCK@)
                    || names_feature(fs.take(i as int), T_INMEMORY@)),
                self.initial_nodes@ == old(self).initial_nodes@,
                self.client_id@ == old(self).client_id@,
                self.cluster == old(self).cluster,
                self.max_size == old(self).max_size,
                self.max_delay == old(self).max_delay,
                self.db == old(self).db,
            decreases features@.len() - i,
        {
            let f = to_ascii_lower(features[i].as_slice());
            proof {
                let p = fs.take(i as int);
                let q = fs.take(i + 1);
                assert forall|w: Seq<u8>| #[trigger] names_feature(q, w) == (names_feature(p, w) || ascii_lower(fs[i as int]) == w) by {
                    if names_feature(p, w) {
                        let x = choose|x: int| 0 <= x < p.len() && ascii_lower(#[trigger] p[x]) == w;
                        assert(q[x] == p[x]);
                    }
                    if names_feature(q, w) {
                        let x = choose|x: int| 0 <= x < q.len() && ascii_lower(#[trigger] q[x]) == w;
                        if x < p.len() {
                            assert(p[x] == q[x]);
                        }
                    }
                    if ascii_lower(fs[i as int]) == w {
                        assert(q[i as int] == fs[i as int]);
                    }
                }
                assert(f@ == ascii_lower(fs[i as int]));
            }
            if bytes_eq(f.as_slice(), &T_SHARDS) {
                self.shards = true;
            } else if bytes_eq(f.as_slice(), &T_BB8) {
                self.bb8 = true;
            } else if bytes_eq(f.as_slice(), &T_MOCK) || bytes_eq(f.as_slice(), &T_INMEMORY) {
                self.mock = true;
            }
            proof {
                assert(T_SHARDS@ != T_BB8@ && T_SHARDS@ != T_MOCK@ && T_SHARDS@ != T_INMEMORY@) by {
                    assert(T_SHARDS@.len() != T_BB8@.len());
                    assert(T_SHARDS@[0] != T_MOCK@[0]);
                    assert(T_SHARDS@.len() != T_INMEMORY@.len());
                }
                assert(T_BB8@ != T_MOCK@ && T_BB8@ != T_INMEMORY@) by {
                    assert(T_BB8@.len() != T_MOCK@.len());
                    assert(T_BB8@.len() != T_INMEMORY@.len());
                }
            }
            i += 1;
        }
        assert(fs.take(i as int) =~= fs);
    }
}

/// The kind of backend a configuration selects.
#[derive(Clone, Copy, Debug, PartialEq, Eq)]
pub enum BackendKind {
    /// The in-memory stand-in.
    Mock,
    /// The shard router of this library.
    Shards,
    /// A ready-made cluster client.
    Cluster,
    /// One node.
    Single,
}

/// The backend a configuration selects: the stand-in when asked for, the
/// shard router when asked for or when it is not known whether the server
/// is a cluster, else a cluster client or a single node as the
/// configuration says.
pub open spec fn backend_for(mock: bool, shards: bool, cluster: Option<bool>) -> BackendKind {
    if mock {
        BackendKind::Mock
    } else if shards || cluster.is_none() {
        BackendKind::Shards
    } else if cluster == Some(true) {
        BackendKind::Cluster
    } else {
        BackendKind::Single
    }
}

impl BackendKind {
    /// The label that status reports for the kind.
    pub fn label(&self) -> (r: Vec<u8>)
        ensures
            r@ == kind_label(*self),
    {
        let mut r: Vec<u8> = Vec::new();
        match self {
            BackendKind::Mock => append_bytes(&mut r, &T_MOCK),
            BackendKind::Shards => append_bytes(&mut r, &L_SHARDS_ASYNC),
            BackendKind::Cluster => append_bytes(&mut r, &L_CLUSTER_ASYNC),
            BackendKind::Single => append_bytes(&mut r, &L_CLIENT_ASYNC),
        }
        r
    }
}

/// The label that status reports for a backend kind.
pub open spec fn kind_label(k: BackendKind) -> Seq<u8> {
    match k {
        BackendKind::Mock => T_MOCK@,
        BackendKind::Shards => L_SHARDS_ASYNC@,
        BackendKind::Cluster => L_CLUSTER_ASYNC@,
        BackendKind::Single => L_CLIENT_ASYNC@,
    }
}

/// `shards_async`
pub const L_SHARDS_ASYNC: [u8; 12] = [0x73u8, 0x68, 0x61, 0x72, 0x64, 0x73, 0x5f, 0x61, 0x73, 0x79, 0x6e, 0x63];

/// `cluster_async`
pub const L_CLUSTER_ASYNC: [u8; 13] = [0x63u8, 0x6c, 0x75, 0x73, 0x74, 0x65, 0x72, 0x5f, 0x61, 0x73, 0x79, 0x6e, 0x63];

/// `client_async`
pub const L_CLIENT_ASYNC: [u8; 12] = [0x63u8, 0x6c, 0x69, 0x65, 0x6e, 0x74, 0x5f, 0x61, 0x73, 0x79, 0x6e, 0x63];

/// A backend that is not open: every command fails.
pub struct ClosedPool;

impl ClosedPool {
    /// Fails with the error of a pool that is not open.
    pub fn execute(&self, args: &Vec<Vec<u8>>) -> (r: Result<Reply, RedisError>)
        ensures
            (r matches Err(e) && is_not_initialized(e)),
    {
        Err(RedisError::not_initialized())
    }

    /// Reports only that it is closed.
    pub fn status(&self) -> (r: Vec<(Vec<u8>, Reply)>)
        ensures
            r@.len() == 1,
            r@[0].0@ == T_CLOSED@,
            r@[0].1 matches Reply::Boolean(true),
    {
        let mut k: Vec<u8> = Vec::new();
        append_bytes(&mut k, &T_CLOSED);
        let mut r: Vec<(Vec<u8>, Reply)> = Vec::new();
        r.push((k, Reply::Boolean(true)));
        r
    }
}

/// The backend a pool manager runs commands on.
pub enum Backend {
    Closed(ClosedPool),
    Mock(MockRedis),
    /// A backend that talks to servers; the caller holds its connections.
    Remote(BackendKind),
}

/// What the pool manager did with a command.
pub enum Outcome {
    /// The reply, computed here.
    Reply(Reply),
    /// The command is for the remote backend of that kind, with its routing.
    Forward(BackendKind, Params),
}

/// Owns the configuration and the selected backend.
pub struct PoolManager {
    config: Config,
    backend: Backend,
}

impl PoolManager {
    /// Whether the manager has no open backend.
    pub closed spec fn is_closed(&self) -> bool {
        self.backend matches Backend::Closed(_)
    }

    /// The kind of the open backend.
    pub closed spec fn kind(&self) -> Option<BackendKind> {
        match self.backend {
            Backend::Closed(_) => None,
            Backend::Mock(_) => Some(BackendKind::Mock),
            Backend::Remote(k) => Some(k),
        }
    }

    /// The configured pool size.
    pub closed spec fn max_size(&self) -> i64 {
        self.config.max_size as i64
    }

    /// The number of seed nodes configured.
    pub closed spec fn seed_count(&self) -> nat {
        self.config.initial_nodes@.len()
    }

    /// The backend kind the configuration selects.
    pub closed spec fn selection(&self) -> BackendKind {
        backend_for(self.config.mock, self.config.shards, self.config.cluster)
    }

    /// The kind of the open backend, none when closed.
    pub fn backend_kind(&self) -> (r: Option<BackendKind>)
        ensures
            r == self.kind(),
            r.is_none() == self.is_closed(),
    {
        match &self.backend {
            Backend::Closed(_) => None,
            Backend::Mock(_) => Some(BackendKind::Mock),
            Backend::Remote(k) => Some(*k),
        }
    }

    /// The configuration.
    pub fn config(&self) -> (r: &Config)
        ensures
            backend_for(r.mock, r.shards, r.cluster) == self.selection(),
    {
        &self.config
    }

    pub closed spec fn wf(&self) -> bool {
        &&& self.backend matches Backend::Mock(m) ==> m.wf()
        &&& !(self.backend matches Backend::Remote(BackendKind::Mock))
    }

    /// The stand-in's store while the stand-in is open; empty otherwise.
    pub closed spec fn mock_store(&self) -> Map<Seq<u8>, EntryView> {
        match self.backend {
            Backend::Mock(m) => m.store(),
            _ => Map::empty(),
        }
    }

    /// The database index of the stand-in while it is open.
    pub closed spec fn mock_db(&self) -> Option<i64> {
        match self.backend {
            Backend::Mock(m) => Some(m.db_index()),
            _ => None,
        }
    }

    /// The configured database index.
    pub closed spec fn db(&self) -> i64 {
        self.config.db
    }

    /// A closed manager with the given configuration.
    pub fn new(config: Config) -> (r: PoolManager)
        ensures
            r.is_closed(),
            r.selection() == backend_for(config.mock, config.shards, config.cluster),
            r.max_size() == config.max_size as i64,
            r.seed_count() == config.initial_nodes@.len(),
            r.db() == config.db,
            r.wf(),
    {
        PoolManager { config, backend: Backend::Closed(ClosedPool) }
    }

    /// Opens the backend that the configuration selects; a stand-in starts
    /// empty, with the configured database index.
    pub fn init(&mut self) -> (r: Result<(), RedisError>)
        ensures
            r.is_ok(),
            final(self).wf(),
            !final(self).is_closed(),
            final(self).kind() == Some(old(self).selection()),
            final(self).selection() == old(self).selection(),
            final(self).max_size() == old(self).max_size(),
            final(self).seed_count() == old(self).seed_count(),
            final(self).db() == old(self).db(),
            old(self).selection() == BackendKind::Mock ==> final(self).mock_store() == Map::<
                Seq<u8>,
                EntryView,
            >::empty() && final(self).mock_db() == Some(old(self).db()),
    {
        if self.config.mock {
            self.backend = Backend::Mock(MockRedis::new(self.config.db));
        } else if self.config.shards || self.config.cluster.is_none() {
            self.backend = Backend::Remote(BackendKind::Shards);
        } else if self.config.cluster == Some(true) {
            self.backend = Backend::Remote(BackendKind::Cluster);
        } else {
            self.backend = Backend::Remote(BackendKind::Single);
        }
        Ok(())
    }

    /// Closes the backend: every command fails from now on.
    pub fn close(&mut self)
        ensures
            final(self).is_closed(),
            final(self).wf(),
            final(self).selection() == old(self).selection(),
            final(self).max_size() == old(self).max_size(),
            final(self).seed_count() == old(self).seed_count(),
            final(self).db() == old(self).db(),
    {
        self.backend = Backend::Closed(ClosedPool);
    }

    /// Runs a command, given as its name followed by its arguments: a closed
    /// manager fails with the not-initialized error; the stand-in answers it
    /// here, a server-reported error becoming an error; a remote backend gets
    /// the command handed back with its routing information.
    pub fn execute(&mut self, args: &Vec<Vec<u8>>) -> (r: Result<Outcome, RedisError>)
        requires
            old(self).wf(),
            args@.len() <= i64::MAX,
        ensures
            final(self).wf(),
            final(self).is_closed() == old(self).is_closed(),
            final(self).kind() == old(self).kind(),
            final(self).selection() == old(self).selection(),
            final(self).max_size() == old(self).max_size(),
            final(self).seed_count() == old(self).seed_count(),
            final(self).db() == old(self).db(),
            final(self).mock_db() == old(self).mock_db(),
            refuses_when_closed(old(self).is_closed(), r),
            old(self).kind() == Some(BackendKind::Mock) ==> mock_outcome(
                old(self).mock_store(),
                final(self).mock_store(),
                bytes_views(args@),
                r,
            ),
            (old(self).kind().is_some() && old(self).kind().unwrap() != BackendKind::Mock) ==> forwarded(r)
                == old(self).kind() && final(self).mock_store() == old(self).mock_store()
                && forwarded_params_are(r, bytes_views(args@)),
    {
        let mut b = Backend::Closed(ClosedPool);
        std::mem::swap(&mut self.backend, &mut b);
        let (r, b) = match b {
            Backend::Closed(c) => {
                let r = match c.execute(args) {
                    Ok(x) => Ok(Outcome::Reply(x)),
                    Err(e) => Err(e),
                };
                (r, Backend::Closed(c))
            },
            Backend::Mock(mut m) => {
                let ghost before = m.store();
                let res = m.execute(args);
                let ghost now = choose|now: u64| command_post(before, m.store(), bytes_views(args@), now, res);
                let r = match res {
                    Ok(x) => match finish(x) {
                        Ok(y) => Ok(Outcome::Reply(y)),
                        Err(e) => Err(e),
                    },
                    Err(e) => Err(e),
                };
                assert(command_post(before, m.store(), bytes_views(args@), now, res));
                (r, Backend::Mock(m))
            },
            Backend::Remote(k) => (Ok(Outcome::Forward(k, Params::from_args(args))), Backend::Remote(k)),
        };
        self.backend = b;
        r
    }

    /// The status snapshot: the backend's own entries (for a closed one,
    /// `closed`; for the stand-in, `closed`, `impl` and `db`; for a remote
    /// one, `closed` and `impl`), then the seed nodes and the pool size.
    pub fn status(&self) -> (r: Vec<(Vec<u8>, Reply)>)
        ensures
            self.is_closed() ==> r@.len() == 3 && r@[0].0@ == T_CLOSED@ && (r@[0].1 matches Reply::Boolean(
                true,
            )),
            !self.is_closed() ==> r@[0].0@ == T_CLOSED@ && (r@[0].1 matches Reply::Boolean(false))
                && r@.len() >= 4 && r@[1].0@ == T_IMPL@ && (r@[1].1 matches Reply::SimpleString(t)
                && t@ == kind_label(self.kind().unwrap())),
            r@.len() >= 3,
            r@[r@.len() - 1].0@ == T_MAX_SIZE@,
            r@[r@.len() - 1].1 matches Reply::Int(n) && n == self.max_size(),
            r@[r@.len() - 2].0@ == T_INITIAL_NODES@,
            r@[r@.len() - 2].1 matches Reply::Array(v) && v@.len() == self.seed_count(),
    {
        let mut r: Vec<(Vec<u8>, Reply)> = match &self.backend {
            Backend::Closed(c) => c.status(),
            Backend::Mock(m) => m.status(),
            Backend::Remote(k) => {
                let mut v: Vec<(Vec<u8>, Reply)> = Vec::new();
                v.push((key_of(&T_CLOSED), Reply::Boolean(false)));
                v.push((key_of(&T_IMPL), Reply::SimpleString(k.label())));
                v
            },
        };
        let mut nodes: Vec<Reply> = Vec::new();
        let mut i: usize = 0;
        while i < self.config.initial_nodes.len()
            invariant
                0 <= i <= self.config.initial_nodes@.len(),
                nodes@.len() == i,
                r@.len() >= 1,
                self.is_closed() ==> r@.len() == 1 && r@[0].0@ == T_CLOSED@ && (r@[0].1 matches Reply::Boolean(
                    true,
                )),
                !self.is_closed() ==> r@[0].0@ == T_CLOSED@ && (r@[0].1 matches Reply::Boolean(false))
                    && r@.len() >= 2 && r@[1].0@ == T_IMPL@ && (r@[1].1 matches Reply::SimpleString(t)
                    && t@ == kind_label(self.kind().unwrap())),
            decreases self.config.initial_nodes@.len() - i,
        {
            nodes.push(Reply::SimpleString(vstd::slice::slice_to_vec(self.config.initial_nodes[i].as_slice())));
            i += 1;
        }
        r.push((key_of(&T_INITIAL_NODES), Reply::Array(nodes)));
        r.push((key_of(&T_MAX_SIZE), Reply::Int(self.config.max_size as i64)));
        r
    }
}

/// A status key as an owned byte string.
fn key_of(k: &[u8]) -> (r: Vec<u8>)
    ensures
        r@ == k@,
{
    vstd::slice::slice_to_vec(k)
}

/// A reply as a result: a server-reported error becomes an error with its
/// text, any other reply passes through.
pub fn finish(value: Reply) -> (r: Result<Reply, RedisError>)
    ensures
        match value {
            Reply::ServerError(t) => r matches Err(RedisError::RedisError(u)) && u@ == t@,
            _ => r matches Ok(x) && x == value,
        },
{
    match value {
        Reply::ServerError(t) => Err(RedisError::RedisError(t)),
        other => Ok(other),
    }
}

/// A finished reply as the manager hands it out: a server-reported error
/// becomes an error with its text, any other reply is handed out as it is.
pub open spec fn finished(x: Reply, r: Result<Outcome, RedisError>) -> bool {
    match x {
        Reply::ServerError(t) => r matches Err(RedisError::RedisError(u)) && u@ == t@,
        _ => r matches Ok(Outcome::Reply(y)) && y == x,
    }
}

/// What running a command on the stand-in gives: at some clock time the
/// command changes the store as `command_post` says, and its reply is
/// finished (an error passes through).
pub open spec fn mock_outcome(
    old: Map<Seq<u8>, EntryView>,
    new: Map<Seq<u8>, EntryView>,
    a: Seq<Seq<u8>>,
    r: Result<Outcome, RedisError>,
) -> bool {
    exists|now: u64, res: Result<Reply, RedisError>|
        #[trigger] command_post(old, new, a, now, res) && match res {
            Ok(x) => finished(x, r),
            Err(e) => r == Err::<Outcome, RedisError>(e),
        }
}

/// A forwarded command carries the routing information of its arguments.
pub open spec fn forwarded_params_are(r: Result<Outcome, RedisError>, a: Seq<Seq<u8>>) -> bool {
    match r {
        Ok(Outcome::Forward(_, p)) => p.key_seq() == key_list(route_key(a)) && p.block == route_block(a),
        _ => false,
    }
}

/// What `execute` promises of a closed manager: the not-initialized error.
pub open spec fn refuses_when_closed(closed: bool, r: Result<Outcome, RedisError>) -> bool {
    closed ==> (r matches Err(e) && is_not_initialized(e))
}

/// The backend kind a command was handed back for, if it was.
pub open spec fn forwarded(r: Result<Outcome, RedisError>) -> Option<BackendKind> {
    match r {
        Ok(Outcome::Forward(k, _)) => Some(k),
        _ => None,
    }
}

/// After `close`, whatever command `execute` is given, the result is the
/// not-initialized error: `close` leaves the manager closed, and `execute`
/// on a closed manager refuses.
pub proof fn lemma_closed_refuses(after: PoolManager, r: Result<Outcome, RedisError>)
    requires
        after.is_closed(),
        refuses_when_closed(after.is_closed(), r),
    ensures
        r matches Err(RedisError::PoolError(crate::error::PoolFault::NotInitialized)),
{
}

} // verus!
