use vstd::prelude::*;
use crate::words::{bytes_eq, bytes_views, KW_BLOCK, KW_BLPOP, KW_BRPOP, KW_BZMPOP, KW_CLIENT, KW_CLUSTER, KW_EVAL, KW_INFO, KW_KEYS, KW_KEYSLOT, KW_MIGRATE, KW_STREAMS, KW_XGROUP, KW_XINFO, KW_XREAD, KW_XREADGROUP, KW_ZDIFF, KW_ZDIFFSTORE, KW_ZINTER, KW_ZINTERCARD, KW_ZINTERSTORE, KW_ZMPOP, KW_ZUNION, KW_ZUNIONSTORE};
use vstd::slice::slice_to_vec;

verus! {

/// The routing information of one command: the key that decides its slot
/// (at most one) and whether the command may block on the server.
#[derive(Clone, Debug, PartialEq, Eq, Default)]
pub struct Params {
    pub keys: Vec<Vec<u8>>,
    pub block: bool,
}

/// Argument `i` of a command (the command name is argument 0).
pub open spec fn arg_at(a: Seq<Seq<u8>>, i: int) -> Option<Seq<u8>> {
    if 0 <= i < a.len() {
        Some(a[i])
    } else {
        None
    }
}

/// The first index at or after `from` whose argument is `w`, or the number
/// of arguments when there is none.
pub open spec fn find_from(a: Seq<Seq<u8>>, w: Seq<u8>, from: int) -> int
    decreases a.len() - from,
{
    if from < 0 || from >= a.len() {
        a.len() as int
    } else if a[from] == w {
        from
    } else {
        find_from(a, w, from + 1)
    }
}

/// Commands whose key follows one leading token.
pub open spec fn key_after_one(n: Seq<u8>) -> bool {
    n == KW_XGROUP@ || n == KW_XINFO@ || n == KW_ZMPOP@ || n == KW_ZDIFF@ || n == KW_ZINTER@
        || n == KW_ZINTERCARD@ || n == KW_ZINTERSTORE@ || n == KW_ZUNION@
}

/// Commands whose key follows two leading tokens.
pub open spec fn key_after_two(n: Seq<u8>) -> bool {
    n == KW_BZMPOP@ || n == KW_EVAL@ || n == KW_ZDIFFSTORE@ || n == KW_ZUNIONSTORE@
}

/// Stream reads, whose key is the first stream after `STREAMS`.
pub open spec fn is_stream_read(n: Seq<u8>) -> bool {
    n == KW_XREAD@ || n == KW_XREADGROUP@
}

/// Commands that carry no key.
pub open spec fn keyless(n: Seq<u8>) -> bool {
    n == KW_INFO@ || n == KW_CLIENT@ || n == KW_KEYS@
}

/// The routing key of a command given as its name followed by its arguments.
pub open spec fn route_key(a: Seq<Seq<u8>>) -> Option<Seq<u8>> {
    if a.len() == 0 {
        None
    } else {
        let n = a[0];
        if n == KW_CLUSTER@ {
            if arg_at(a, 1) == Some(KW_KEYSLOT@) {
                arg_at(a, 2)
            } else {
                None
            }
        } else if key_after_one(n) {
            arg_at(a, 2)
        } else if key_after_two(n) {
            arg_at(a, 3)
        } else if is_stream_read(n) {
            arg_at(a, find_from(a, KW_STREAMS@, 1) + 1)
        } else if n == KW_MIGRATE@ {
            arg_at(a, find_from(a, KW_KEYS@, 1) + 1)
        } else if keyless(n) {
            None
        } else {
            arg_at(a, 1)
        }
    }
}

/// Whether a command blocks on the server.
pub open spec fn route_block(a: Seq<Seq<u8>>) -> bool {
    a.len() > 0 && {
        let n = a[0];
        n == KW_BZMPOP@ || n == KW_BLPOP@ || n == KW_BRPOP@ || (is_stream_read(n) && exists|
            i: int,
        |
            1 <= i < find_from(a, KW_STREAMS@, 1) && #[trigger] a[i] == KW_BLOCK@)
    }
}

/// The keys of a routing result: none, or the one key.
pub open spec fn key_list(k: Option<Seq<u8>>) -> Seq<Seq<u8>> {
    match k {
        Some(k) => seq![k],
        None => seq![],
    }
}

impl Params {
    /// The routing key list, as byte sequences.
    pub open spec fn key_seq(&self) -> Seq<Seq<u8>> {
        bytes_views(self.keys@)
    }

    /// Routing information for a single key that does not block.
    pub fn from_key(key: &[u8]) -> (r: Params)
        ensures
            r.key_seq() == seq![key@],
            !r.block,
    {
        let mut keys: Vec<Vec<u8>> = Vec::new();
        keys.push(slice_to_vec(key));
        let r = Params { keys, block: false };
        assert(r.key_seq() =~= seq![key@]);
        r
    }

    /// Routing information for a command given as its name followed by its
    /// arguments.
    pub fn from_args(args: &Vec<Vec<u8>>) -> (r: Params)
        ensures
            r.key_seq() == key_list(route_key(bytes_views(args@))),
            r.block == route_block(bytes_views(args@)),
    {
        let ghost a = bytes_views(args@);
        let mut block = false;
        let mut key: Option<usize> = None;
        if args.len() > 0 {
            let n = args[0].as_slice();
            if bytes_eq(n, &KW_CLUSTER) {
                if args.len() > 1 && bytes_eq(args[1].as_slice(), &KW_KEYSLOT) {
                    key = Some(2);
                }
            } else if is_key_after_one(n) {
                key = Some(2);
            } else if is_key_after_two(n) {
                block = bytes_eq(n, &KW_BZMPOP);
                key = Some(3);
            } else if bytes_eq(n, &KW_XREAD) || bytes_eq(n, &KW_XREADGROUP) {
                let end = find_word(args, &KW_STREAMS, 1);
                block = has_word_before(args, &KW_BLOCK, end);
                if end < args.len() {
                    key = Some(end + 1);
                }
            } else if bytes_eq(n, &KW_MIGRATE) {
                let end = find_word(args, &KW_KEYS, 1);
                if end < args.len() {
                    key = Some(end + 1);
                }
            } else if bytes_eq(n, &KW_INFO) || bytes_eq(n, &KW_CLIENT) || bytes_eq(n, &KW_KEYS) {
            } else {
                block = bytes_eq(n, &KW_BLPOP) || bytes_eq(n, &KW_BRPOP);
                key = Some(1);
            }
        }
        let mut keys: Vec<Vec<u8>> = Vec::new();
        match key {
            Some(i) => {
                if i < args.len() {
                    keys.push(slice_to_vec(args[i].as_slice()));
                }
            },
            None => {},
        }
        let r = Params { keys, block };
        assert(r.key_seq() =~= key_list(route_key(a)));
        r
    }
}

fn is_key_after_one(n: &[u8]) -> (r: bool)
    ensures
        r == key_after_one(n@),
{
    bytes_eq(n, &KW_XGROUP) || bytes_eq(n, &KW_XINFO) || bytes_eq(n, &KW_ZMPOP) || bytes_eq(
        n,
        &KW_ZDIFF,
    ) || bytes_eq(n, &KW_ZINTER) || bytes_eq(n, &KW_ZINTERCARD) || bytes_eq(n, &KW_ZINTERSTORE)
        || bytes_eq(n, &KW_ZUNION)
}

fn is_key_after_two(n: &[u8]) -> (r: bool)
    ensures
        r == key_after_two(n@),
{
    bytes_eq(n, &KW_BZMPOP) || bytes_eq(n, &KW_EVAL) || bytes_eq(n, &KW_ZDIFFSTORE) || bytes_eq(
        n,
        &KW_ZUNIONSTORE,
    )
}

/// The first index at or after `from` whose argument is `w`, or the number
/// of arguments.
pub fn find_word(args: &Vec<Vec<u8>>, w: &[u8], from: usize) -> (r: usize)
    requires
        from <= args.len(),
    ensures
        r as int == find_from(bytes_views(args@), w@, from as int),
        from <= r <= args.len(),
    decreases args.len() - from,
{
    let ghost a = bytes_views(args@);
    if from == args.len() {
        from
    } else if bytes_eq(args[from].as_slice(), w) {
        from
    } else {
        find_word(args, w, from + 1)
    }
}

/// Whether some argument with index in `1..end` is `w`.
pub fn has_word_before(args: &Vec<Vec<u8>>, w: &[u8], end: usize) -> (r: bool)
    requires
        end <= args.len(),
    ensures
        r == exists|i: int| 1 <= i < end && #[trigger] bytes_views(args@)[i] == w@,
{
    let ghost a = bytes_views(args@);
    let mut i: usize = 1;
    while i < end
        invariant
            end <= args.len(),
            a == bytes_views(args@),
            1 <= i,
            forall|j: int| 1 <= j < i && j < end ==> #[trigger] a[j] != w@,
        decreases end - i,
    {
        if bytes_eq(args[i].as_slice(), w) {
            assert(a[i as int] == w@);
            return true;
        }
        i += 1;
    }
    false
}

} // verus!
