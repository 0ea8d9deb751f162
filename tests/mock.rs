use redis_rs::mock::MockRedis;
use redis_rs::reply::Reply;
use redis_rs::error::RedisError;

fn args_of(cmd: &redis::Cmd) -> Vec<Vec<u8>> {
    cmd.args_iter()
        .filter_map(|a| match a {
            redis::Arg::Simple(s) => Some(s.to_vec()),
            _ => None,
        })
        .collect()
}

fn words(ws: &[&str]) -> Vec<Vec<u8>> {
    ws.iter().map(|w| w.as_bytes().to_vec()).collect()
}

fn run(m: &mut MockRedis, ws: &[&str], now: u64) -> Reply {
    m.execute_at(&words(ws), now).unwrap()
}

fn bulk(s: &str) -> Reply {
    Reply::BulkString(s.as_bytes().to_vec())
}

fn simple(s: &str) -> Reply {
    Reply::SimpleString(s.as_bytes().to_vec())
}

#[test]
fn mock_status() {
    let m = MockRedis::new(0);
    let result = m.status();
    assert_eq!(result.len(), 3);
}

#[test]
fn set_get() {
    let key = "key";
    let mut m = MockRedis::new(0);
    let cmd = redis::cmd("SET").arg(key).arg(1).to_owned();
    let result = m.execute(&args_of(&cmd)).unwrap();
    assert_eq!(result, Reply::Nil);
    let cmd = redis::cmd("GET").arg(key).to_owned();
    let result = m.execute(&args_of(&cmd)).unwrap();
    assert_eq!(result, Reply::BulkString(b"1".to_vec()));
}

#[test]
fn hset_hget_hgetall() {
    let key = "hkey";
    let mut m = MockRedis::new(0);
    let cmd = redis::cmd("HSET").arg(key).arg("f").arg(2).to_owned();
    let result = m.execute(&args_of(&cmd)).unwrap();
    assert_eq!(result, Reply::Int(1));
    let cmd = redis::cmd("HGET").arg(key).arg("f").to_owned();
    let result = m.execute(&args_of(&cmd)).unwrap();
    assert_eq!(result, Reply::BulkString(b"2".to_vec()));
    let cmd = redis::cmd("HGETALL").arg(key).to_owned();
    let result = m.execute(&args_of(&cmd)).unwrap();
    assert_eq!(
        result,
        Reply::Dict(vec![(
            Reply::BulkString(b"f".to_vec()),
            Reply::BulkString(b"2".to_vec()),
        )])
    );
}

#[test]
fn set_replaces_and_returns_old() {
    let mut m = MockRedis::new(1);
    assert_eq!(run(&mut m, &["SET", "k", "a"], 5), Reply::Nil);
    assert_eq!(run(&mut m, &["SET", "k", "b", "EX", "10"], 5), bulk("a"));
    assert_eq!(run(&mut m, &["GET", "k"], 5), bulk("b"));
    assert_eq!(run(&mut m, &["SET", "k"], 5), Reply::Nil);
    assert_eq!(run(&mut m, &["GET", "missing"], 5), Reply::Nil);
}

#[test]
fn del_then_exists() {
    let mut m = MockRedis::new(2);
    run(&mut m, &["SET", "key", "1"], 1);
    assert_eq!(run(&mut m, &["EXISTS", "key"], 1), Reply::Boolean(true));
    assert_eq!(run(&mut m, &["DEL", "key", "key", "other"], 1), Reply::Int(1));
    assert_eq!(run(&mut m, &["EXISTS", "key"], 1), Reply::Boolean(false));
}

#[test]
fn hash_edge_cases() {
    let mut m = MockRedis::new(3);
    assert_eq!(run(&mut m, &["HSET", "h", "a", "1", "b", "2", "c"], 1), Reply::Int(2));
    assert_eq!(run(&mut m, &["HSET", "h", "a", "9"], 1), Reply::Int(1));
    assert_eq!(run(&mut m, &["HGET", "h", "a"], 1), bulk("9"));
    assert_eq!(run(&mut m, &["HGET", "h", "c"], 1), Reply::Nil);
    assert_eq!(run(&mut m, &["HGETALL", "none"], 1), Reply::Dict(vec![]));
    run(&mut m, &["SET", "s", "x"], 1);
    assert_eq!(run(&mut m, &["HGET", "s", "a"], 1), Reply::Nil);
}

#[test]
fn stream_ids_increase_and_read_in_order() {
    let mut m = MockRedis::new(4);
    let id1 = run(&mut m, &["XADD", "s", "*", "a", "1"], 1000);
    let id2 = run(&mut m, &["XADD", "s", "*", "b", "2"], 1000);
    assert_eq!(id1, simple("1000-0"));
    assert_eq!(id2, simple("1000-1"));
    let id3 = run(&mut m, &["XADD", "s", "*", "c", "3"], 999);
    assert_eq!(id3, simple("1000-2"));
    let r = run(&mut m, &["XREAD", "STREAMS", "s", "0"], 1000);
    assert_eq!(
        r,
        Reply::Array(vec![
            simple("s"),
            Reply::Array(vec![
                Reply::Array(vec![simple("1000-0"), Reply::Array(vec![bulk("a"), bulk("1")])]),
                Reply::Array(vec![simple("1000-1"), Reply::Array(vec![bulk("b"), bulk("2")])]),
                Reply::Array(vec![simple("1000-2"), Reply::Array(vec![bulk("c"), bulk("3")])]),
            ]),
        ])
    );
    let r = run(&mut m, &["XREAD", "STREAMS", "s", "1000-1"], 1000);
    assert_eq!(
        r,
        Reply::Array(vec![
            simple("s"),
            Reply::Array(vec![Reply::Array(vec![simple("1000-2"), Reply::Array(vec![bulk("c"), bulk("3")])])]),
        ])
    );
    assert_eq!(run(&mut m, &["XREAD", "STREAMS", "s", "$"], 1000), Reply::Array(vec![]));
}

#[test]
fn stream_group_reads_once() {
    let mut m = MockRedis::new(5);
    run(&mut m, &["XADD", "s", "*", "a", "1"], 7);
    assert_eq!(run(&mut m, &["XGROUP", "CREATE", "s", "g", "0"], 7), Reply::Nil);
    run(&mut m, &["XADD", "s", "*", "b", "2"], 8);
    let r = run(&mut m, &["XREADGROUP", "GROUP", "g", "c", "STREAMS", "s", ">"], 9);
    assert_eq!(
        r,
        Reply::Array(vec![
            simple("s"),
            Reply::Array(vec![Reply::Array(vec![simple("8-0"), Reply::Array(vec![bulk("b"), bulk("2")])])]),
        ])
    );
    let r = run(&mut m, &["XREADGROUP", "GROUP", "g", "c", "STREAMS", "s", ">"], 9);
    assert_eq!(r, Reply::Array(vec![]));
}

#[test]
fn stream_missing_group_fails() {
    let mut m = MockRedis::new(6);
    run(&mut m, &["XADD", "s", "*", "a", "1"], 7);
    let r = m.execute_at(&words(&["XREADGROUP", "GROUP", "nope", "c", "STREAMS", "s", ">"]), 9);
    match r {
        Err(RedisError::CommandError(t)) => assert!(t.starts_with(b"NOGROUP")),
        _ => panic!("expected NOGROUP"),
    }
}

#[test]
fn xadd_nomkstream_and_clock() {
    let mut m = MockRedis::new(7);
    assert_eq!(run(&mut m, &["XADD", "s", "NOMKSTREAM", "*", "a", "1"], 1), Reply::Nil);
    assert_eq!(run(&mut m, &["EXISTS", "s"], 1), Reply::Boolean(false));
    let r = m.execute(&words(&["XADD", "t", "*", "a", "1"])).unwrap();
    match r {
        Reply::SimpleString(id) => {
            let text = String::from_utf8(id).unwrap();
            let ms: u64 = text.split('-').next().unwrap().parse().unwrap();
            assert!(ms > 1_600_000_000_000);
        }
        other => panic!("unexpected reply {:?}", other),
    }
}

#[test]
fn other_commands() {
    let mut m = MockRedis::new(8);
    assert_eq!(run(&mut m, &["AUTH", "x"], 1), Reply::Boolean(true));
    assert_eq!(run(&mut m, &["INFO"], 1), bulk("redis_version:7.2.0"));
    assert_eq!(run(&mut m, &["NOSUCH"], 1), Reply::Nil);
    assert_eq!(m.execute_at(&Vec::new(), 1), Ok(Reply::Nil));
}

#[test]
fn list_commands() {
    let mut m = MockRedis::new(9);
    assert_eq!(run(&mut m, &["RPUSH", "l", "b"], 1), Reply::Int(1));
    assert_eq!(run(&mut m, &["LPUSH", "l", "a"], 1), Reply::Int(2));
    assert_eq!(run(&mut m, &["RPUSH", "l", "c"], 1), Reply::Int(3));
    assert_eq!(run(&mut m, &["LLEN", "l"], 1), Reply::Int(3));
    assert_eq!(run(&mut m, &["LRANGE", "l", "0", "-1"], 1), Reply::Array(vec![bulk("a"), bulk("b"), bulk("c")]));
    assert_eq!(run(&mut m, &["LRANGE", "l", "1", "1"], 1), Reply::Array(vec![bulk("b")]));
    assert_eq!(run(&mut m, &["LPOP", "l"], 1), bulk("a"));
    assert_eq!(run(&mut m, &["LPOP", "l", "5"], 1), Reply::Array(vec![bulk("b"), bulk("c")]));
    assert_eq!(run(&mut m, &["LPOP", "l"], 1), Reply::Nil);
    assert_eq!(run(&mut m, &["LLEN", "none"], 1), Reply::Int(0));
    assert_eq!(run(&mut m, &["LRANGE", "none", "0", "1"], 1), Reply::Array(vec![]));
}

#[test]
fn blpop_takes_first_nonempty() {
    let mut m = MockRedis::new(10);
    assert_eq!(run(&mut m, &["BLPOP", "x", "y", "0"], 1), Reply::Nil);
    run(&mut m, &["RPUSH", "y", "1"], 1);
    run(&mut m, &["RPUSH", "y", "2"], 1);
    assert_eq!(run(&mut m, &["BLPOP", "x", "y", "0"], 1), Reply::Array(vec![bulk("y"), bulk("1")]));
    assert_eq!(run(&mut m, &["LLEN", "y"], 1), Reply::Int(1));
}

#[test]
fn hash_more_commands() {
    let mut m = MockRedis::new(11);
    run(&mut m, &["HSET", "h", "a", "1", "b", "2"], 1);
    assert_eq!(run(&mut m, &["HEXISTS", "h", "a"], 1), Reply::Boolean(true));
    assert_eq!(run(&mut m, &["HEXISTS", "h", "z"], 1), Reply::Boolean(false));
    assert_eq!(run(&mut m, &["HMGET", "h", "b", "z", "a"], 1), Reply::Array(vec![bulk("2"), Reply::Nil, bulk("1")]));
    assert_eq!(run(&mut m, &["HMGET", "none", "a"], 1), Reply::Array(vec![]));
    assert_eq!(run(&mut m, &["HDEL", "h", "a", "a", "z"], 1), Reply::Int(1));
    assert_eq!(run(&mut m, &["HGETALL", "h"], 1), Reply::Dict(vec![(bulk("b"), bulk("2"))]));
}

#[test]
fn ttl_and_expire() {
    let mut m = MockRedis::new(12);
    run(&mut m, &["SET", "k", "v", "PX", "2500"], 1000);
    assert_eq!(run(&mut m, &["TTL", "k"], 1000), Reply::Int(2));
    assert_eq!(run(&mut m, &["TTL", "k"], 4000), Reply::Int(-1));
    assert_eq!(run(&mut m, &["EXPIRE", "k", "10"], 1000), Reply::Int(1));
    assert_eq!(run(&mut m, &["TTL", "k"], 1000), Reply::Int(10));
    assert_eq!(run(&mut m, &["EXPIRE", "none", "10"], 1000), Reply::Int(0));
    assert_eq!(run(&mut m, &["TTL", "none"], 1000), Reply::Int(-1));
    run(&mut m, &["SET", "p", "v"], 1000);
    assert_eq!(run(&mut m, &["TTL", "p"], 1000), Reply::Int(-1));
}

#[test]
fn approximate_sets() {
    let mut m = MockRedis::new(13);
    assert_eq!(run(&mut m, &["PFADD", "a", "x", "y", "x"], 1), Reply::Boolean(true));
    assert_eq!(run(&mut m, &["PFADD", "a", "y"], 1), Reply::Boolean(false));
    assert_eq!(run(&mut m, &["PFCOUNT", "a"], 1), Reply::Int(2));
    run(&mut m, &["PFADD", "b", "z", "x"], 1);
    assert_eq!(run(&mut m, &["PFMERGE", "c", "a", "b"], 1), Reply::Boolean(true));
    assert_eq!(run(&mut m, &["PFCOUNT", "c"], 1), Reply::Int(3));
    assert_eq!(run(&mut m, &["PFCOUNT", "none"], 1), Reply::Int(0));
}

#[test]
fn misc_commands() {
    let mut m = MockRedis::new(14);
    assert_eq!(run(&mut m, &["ACL", "WHOAMI"], 1), bulk("test"));
    assert_eq!(run(&mut m, &["ACL", "GENPASS"], 1), bulk("GENPASS"));
    assert_eq!(run(&mut m, &["ACL", "LIST"], 1), Reply::Boolean(true));
    assert_eq!(run(&mut m, &["EVAL", "return ARGV[1]", "0", "hello"], 1), bulk("hello"));
    assert_eq!(run(&mut m, &["EVAL", "return 1", "0", "hello"], 1), Reply::Nil);
    run(&mut m, &["XADD", "s", "*", "a", "1"], 1);
    assert_eq!(run(&mut m, &["XACK", "s", "g", "1-0"], 1), Reply::Int(1));
    assert_eq!(run(&mut m, &["XACK", "none", "g", "1-0"], 1), Reply::Int(0));
}

#[test]
fn sorted_set_commands() {
    let mut m = MockRedis::new(15);
    assert_eq!(run(&mut m, &["ZADD", "z", "1.5", "a", "2", "b"], 1), Reply::Int(2));
    assert_eq!(run(&mut m, &["ZADD", "z", "3", "a"], 1), Reply::Int(1));
    assert_eq!(run(&mut m, &["ZCARD", "z"], 1), Reply::Int(2));
    assert_eq!(run(&mut m, &["ZREM", "z", "a", "x"], 1), Reply::Int(1));
    assert_eq!(run(&mut m, &["ZCARD", "z"], 1), Reply::Int(1));
    assert_eq!(m.scores_of(b"z"), Some(vec![(b"b".to_vec(), b"2".to_vec())]));
    assert_eq!(run(&mut m, &["ZCARD", "none"], 1), Reply::Int(0));
    assert_eq!(
        run(&mut m, &["HGETALL", "z"], 1),
        Reply::Dict(vec![(bulk("b"), Reply::Double(b"2".to_vec()))])
    );
}

#[test]
fn keys_by_prefix() {
    let mut m = MockRedis::new(16);
    run(&mut m, &["SET", "user:1", "a"], 1);
    run(&mut m, &["SET", "user:2", "b"], 1);
    run(&mut m, &["SET", "other", "c"], 1);
    let r = run(&mut m, &["KEYS", "user:*"], 1);
    let mut keys = match r {
        Reply::Array(v) => v,
        other => panic!("unexpected reply {:?}", other),
    };
    keys.sort_by_key(|k| format!("{:?}", k));
    assert_eq!(keys, vec![bulk("user:1"), bulk("user:2")]);
    assert_eq!(run(&mut m, &["KEYS"], 1), Reply::Array(vec![]));
}

#[test]
fn stream_info() {
    let mut m = MockRedis::new(17);
    run(&mut m, &["XADD", "s", "*", "a", "1"], 5);
    run(&mut m, &["XGROUP", "CREATE", "s", "g", "$"], 5);
    assert_eq!(
        run(&mut m, &["XINFO", "STREAM", "s"], 5),
        Reply::Array(vec![
            simple("name"), bulk("s"), simple("messages"), Reply::Int(1), simple("groups"), Reply::Int(1),
            simple("a"), Reply::Int(0), simple("b"), Reply::Int(0), simple("c"), Reply::Int(0), simple("d"), Reply::Int(0),
        ])
    );
    assert_eq!(
        run(&mut m, &["XINFO", "GROUPS", "s"], 5),
        Reply::Array(vec![Reply::Array(vec![
            simple("stream"), bulk("s"), simple("group"), simple("g"), simple("id"), simple("5-0"),
            simple("consumers"), bulk("1"),
        ])])
    );
    assert_eq!(
        run(&mut m, &["XINFO", "CONSUMERS", "s", "g"], 5),
        Reply::Array(vec![Reply::Array(vec![
            simple("stream"), bulk("s"), simple("group"), bulk("g"), simple("consumers"), bulk("1"),
        ])])
    );
    assert_eq!(run(&mut m, &["XINFO", "HELP", "s"], 5), Reply::Nil);
}

#[test]
fn lrem_keeps_first_occurrences() {
    let mut m = MockRedis::new(18);
    for v in ["x", "a", "x", "b", "x"] {
        run(&mut m, &["RPUSH", "l", v], 1);
    }
    assert_eq!(run(&mut m, &["LREM", "l", "1", "x"], 1), Reply::Int(2));
    assert_eq!(run(&mut m, &["LRANGE", "l", "0", "-1"], 1), Reply::Array(vec![bulk("x"), bulk("a"), bulk("b")]));
    assert_eq!(run(&mut m, &["LREM", "l", "0", "x"], 1), Reply::Int(2));
    assert_eq!(run(&mut m, &["LRANGE", "l", "0", "-1"], 1), Reply::Array(vec![bulk("a"), bulk("b")]));
    assert_eq!(run(&mut m, &["LREM", "l", "zz", "a"], 1), Reply::Int(0));
    run(&mut m, &["RPUSH", "l", "a"], 1);
    assert_eq!(run(&mut m, &["LREM", "l", "-1", "a"], 1), Reply::Int(1));
    assert_eq!(run(&mut m, &["LRANGE", "l", "0", "-1"], 1), Reply::Array(vec![bulk("a"), bulk("b")]));
}
