use redis_rs::command::Params;
use redis_rs::reply::Reply;
use redis_rs::shards::{Shard, ShardNode, Slots};

const SLOT_SIZE: u16 = 16384;

fn bulk(s: &str) -> Reply {
    Reply::BulkString(s.as_bytes().to_vec())
}

#[test]
fn shards_slots_parse() {
    let cluster_slots = Reply::Array(vec![Reply::Array(vec![
        Reply::Int(0),
        Reply::Int(2),
        Reply::Array(vec![bulk("1.2.3.4"), Reply::Int(6379), bulk("123456789")]),
    ])]);
    let slots = Slots::from_reply(&cluster_slots);
    let shard = Shard::new(b"1.2.3.4:6379");
    assert!(!slots.is_empty(), "Slots is empty");
    assert_eq!(slots.get_shard(2), Some(shard.clone()));

    assert_eq!(
        slots.get_node_by_id(b"123456789"),
        Some(ShardNode::from_addr(shard.master.as_slice()))
    );
}

#[test]
fn slots_get_shard() {
    let mut shards = Slots::new();

    let shard1 = Shard::new(b"1.2.3.3");
    shards.insert_shard(3, shard1.clone());

    let shard2 = Shard::new(b"1.2.3.5");
    shards.insert_shard(5, shard2.clone());

    assert_eq!(shards.get_shard(0), Some(shard1.clone()));
    assert_eq!(shards.get_shard(1), Some(shard1.clone()));
    assert_eq!(shards.get_shard(2), Some(shard1.clone()));
    assert_eq!(shards.get_shard(3), Some(shard1));
    assert_eq!(shards.get_shard(4), Some(shard2.clone()));
    assert_eq!(shards.get_shard(5), Some(shard2.clone()));
    assert_eq!(shards.get_shard(6), None);
}

#[test]
fn slots_get_none_shard() {
    let mut shards = Slots::new();
    assert_eq!(shards.get_shard(89), None);

    let shard = Shard::new(b"1.2.3.4");
    shards.insert_shard(1, shard);
    assert_eq!(shards.get_shard(4), None);
}

#[test]
fn slots_get_route() {
    let mut slots = Slots::new();

    let shard1 = Shard::new(b"1.2.3.3");
    slots.insert_shard(SLOT_SIZE, shard1.clone());
    let shard0 = Shard::new(b"1.2.3.4");
    slots.insert_shard(0, shard0);

    let params = Params::from_args(&vec![b"GET".to_vec(), b"a".to_vec()]);
    let route = slots.get_route(&params);
    assert_eq!(Some(shard1), route.shard);
}

#[test]
fn refresh_one_shard_then_lookups() {
    let reply = Reply::Array(vec![Reply::Array(vec![
        Reply::Int(0),
        Reply::Int(2),
        Reply::Array(vec![bulk("1.2.3.4"), Reply::Int(6379), bulk("123456789")]),
    ])]);
    let mut slots = Slots::new();
    assert_eq!(slots.set(&reply), Ok(()));
    assert_eq!(
        slots.get_node_by_id(b"123456789").map(|n| n.addr),
        Some(b"1.2.3.4:6379".to_vec())
    );
    assert_eq!(slots.get_shard(2).map(|s| s.master), Some(b"1.2.3.4:6379".to_vec()));
    assert_eq!(slots.get_shard(3), None);
}

#[test]
fn refresh_replicas_and_placeholders() {
    let reply = Reply::Array(vec![
        Reply::Array(vec![
            Reply::Int(0),
            Reply::Int(8191),
            Reply::Array(vec![bulk("10.0.0.1"), Reply::Int(7000), bulk("m1")]),
            Reply::Array(vec![bulk("10.0.0.2"), Reply::Int(7001), bulk("r1"), bulk("extra")]),
        ]),
        Reply::Array(vec![
            Reply::Int(8192),
            Reply::Int(16383),
            Reply::Array(vec![bulk(""), Reply::Int(7002), bulk("m2")]),
        ]),
        Reply::Int(5),
        Reply::Array(vec![Reply::Int(1), Reply::Int(2)]),
    ]);
    let mut slots = Slots::new();
    assert_eq!(slots.set(&reply), Ok(()));
    let s = slots.get_shard(100).unwrap();
    assert_eq!(s.master, b"10.0.0.1:7000".to_vec());
    assert_eq!(s.slaves, vec![b"10.0.0.2:7001".to_vec()]);
    assert_eq!(slots.get_shard(9000).unwrap().master, b":7002".to_vec());
    assert!(slots.get_node_by_id(b"m2").is_none());
    assert!(slots.get_node_by_id(b"r1").is_some());
    let mut nodes: Vec<Vec<u8>> = slots.get_nodes().into_iter().map(|n| n.addr).collect();
    nodes.sort();
    assert_eq!(nodes, vec![b"10.0.0.1:7000".to_vec(), b"10.0.0.2:7001".to_vec()]);
}

#[test]
fn refresh_refuses_non_array() {
    let mut slots = Slots::new();
    slots.insert_shard(10, Shard::new(b"h:1"));
    assert!(slots.set(&Reply::Nil).is_err());
    assert_eq!(slots.get_shard(10).map(|s| s.master), Some(b"h:1".to_vec()));
    assert!(Slots::from_reply(&Reply::Int(3)).is_empty());
}

#[test]
fn refresh_later_row_wins() {
    let reply = Reply::Array(vec![
        Reply::Array(vec![Reply::Int(0), Reply::Int(9), Reply::Array(vec![bulk("a"), Reply::Int(1), bulk("x")])]),
        Reply::Array(vec![Reply::Int(0), Reply::Int(9), Reply::Array(vec![bulk("b"), Reply::Int(2), bulk("y")])]),
    ]);
    let slots = Slots::from_reply(&reply);
    assert_eq!(slots.get_shard(9).unwrap().master, b"b:2".to_vec());
}

#[test]
fn split_addresses() {
    assert_eq!(ShardNode::from_addr(b"1.2.3.4:6379").split(), (b"1.2.3.4".to_vec(), 6379));
    assert_eq!(ShardNode::from_addr(b"host").split(), (b"host".to_vec(), 0));
    assert_eq!(ShardNode::from_addr(b"host:abc").split(), (b"host".to_vec(), 0));
    assert_eq!(ShardNode::from_addr(b"host:70000").split(), (b"host".to_vec(), 0));
    assert_eq!(ShardNode::from_addr(b"host:+65535").split(), (b"host".to_vec(), 65535));
    assert_eq!(ShardNode::from_addr(b":1:2").split(), (b"".to_vec(), 0));
}

#[test]
fn refresh_reads_bounds_like_redis() {
    let node = |h: &str, id: &str| Reply::Array(vec![bulk(h), Reply::Int(1), bulk(id)]);
    let reply = Reply::Array(vec![
        Reply::Array(vec![Reply::Int(0), bulk("100"), node("a", "x")]),
        Reply::Array(vec![Reply::Int(0), Reply::SimpleString(b"+200".to_vec()), node("b", "y")]),
        Reply::Array(vec![Reply::Int(0), Reply::Int(65536 + 300), node("c", "z")]),
        Reply::Array(vec![Reply::Int(0), bulk("x1"), node("d", "w")]),
    ]);
    let slots = Slots::from_reply(&reply);
    assert_eq!(slots.get_shard(100).unwrap().master, b"a:1".to_vec());
    assert_eq!(slots.get_shard(200).unwrap().master, b"b:1".to_vec());
    assert_eq!(slots.get_shard(300).unwrap().master, b"c:1".to_vec());
    assert_eq!(slots.get_shard(0).unwrap().master, b"d:1".to_vec());
    assert_eq!(slots.get_nodes().len(), 4);
}
