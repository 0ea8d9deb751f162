use redis_rs::error::RedisError;
use redis_rs::reply::Reply;
use redis_rs::router::ClusterRouter;

fn words(ws: &[&str]) -> Vec<Vec<u8>> {
    ws.iter().map(|w| w.as_bytes().to_vec()).collect()
}

fn bulk(s: &str) -> Reply {
    Reply::BulkString(s.as_bytes().to_vec())
}

fn topology() -> Reply {
    Reply::Array(vec![
        Reply::Array(vec![
            Reply::Int(0),
            Reply::Int(8191),
            Reply::Array(vec![bulk("10.0.0.1"), Reply::Int(7000), bulk("id1")]),
        ]),
        Reply::Array(vec![
            Reply::Int(8192),
            Reply::Int(16383),
            Reply::Array(vec![bulk("10.0.0.2"), Reply::Int(7000), bulk("id2")]),
        ]),
    ])
}

#[test]
fn no_nodes_no_slot() {
    let r = ClusterRouter::new();
    assert!(matches!(r.route_command(&words(&["GET", "a"])), Err(RedisError::NoSlot)));
    assert!(matches!(r.route_command(&words(&["INFO"])), Err(RedisError::NoSlot)));
}

#[test]
fn keyless_goes_to_first_node() {
    let mut r = ClusterRouter::new();
    r.register(b"seed:1");
    r.register(b"seed:2");
    r.register(b"seed:1");
    assert_eq!(r.node_addrs(), vec![b"seed:1".to_vec(), b"seed:2".to_vec()]);
    let t = r.route_command(&words(&["INFO"])).unwrap();
    assert_eq!(t.addr, b"seed:1".to_vec());
    assert!(!t.register);
}

#[test]
fn unknown_master_is_registered_once() {
    let mut r = ClusterRouter::new();
    r.register(b"seed:1");
    assert_eq!(r.refresh(&topology()), Ok(()));
    // "foo" hashes to slot 12182, owned by the second shard.
    assert!(matches!(r.send_target(&words(&["GET", "foo"])), Err(RedisError::NotFoundNode)));
    let t = r.route_command(&words(&["GET", "foo"])).unwrap();
    assert_eq!(t.addr, b"10.0.0.2:7000".to_vec());
    assert!(t.register);
    r.register(&t.addr);
    let t2 = r.route_command(&words(&["GET", "foo"])).unwrap();
    assert_eq!(t2.addr, b"10.0.0.2:7000".to_vec());
    assert!(!t2.register);
    assert_eq!(r.send_target(&words(&["GET", "foo"])), Ok(b"10.0.0.2:7000".to_vec()));
}

#[test]
fn discovery_moves_seed_and_lists_missing() {
    let mut r = ClusterRouter::new();
    r.register(b"alias:7000");
    r.refresh(&topology()).unwrap();
    r.adopt_id(b"alias:7000", b"id1");
    assert_eq!(r.node_addrs(), vec![b"10.0.0.1:7000".to_vec()]);
    assert_eq!(r.missing_nodes(), vec![b"10.0.0.2:7000".to_vec()]);
    r.adopt_id(b"10.0.0.1:7000", b"unknown");
    assert_eq!(r.node_addrs(), vec![b"10.0.0.1:7000".to_vec()]);
    r.set_cluster(true);
    assert!(r.is_cluster());
}

#[test]
fn refresh_refuses_malformed() {
    let mut r = ClusterRouter::new();
    assert!(r.refresh(&Reply::Nil).is_err());
}
