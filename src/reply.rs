use vstd::prelude::*;

verus! {

/// A reply value of the wire protocol. Text payloads are kept as bytes; a
/// double keeps the decimal text it was sent as. `Dict` is a map reply (pairs
/// in order) and `Members` a set reply.
#[derive(Debug, PartialEq, Eq)]
pub enum Reply {
    Nil,
    Int(i64),
    BulkString(Vec<u8>),
    SimpleString(Vec<u8>),
    Okay,
    Boolean(bool),
    Double(Vec<u8>),
    Array(Vec<Reply>),
    Dict(Vec<(Reply, Reply)>),
    Members(Vec<Reply>),
    ServerError(Vec<u8>),
}

} // verus!
