use redis_rs::command::Params;

fn args_of(cmd: &redis::Cmd) -> Vec<Vec<u8>> {
    cmd.args_iter()
        .filter_map(|a| match a {
            redis::Arg::Simple(s) => Some(s.to_vec()),
            _ => None,
        })
        .collect()
}

fn words(ws: &[&str]) -> Vec<Vec<u8>> {
    ws.iter().map(|w| w.as_bytes().to_vec()).collect()
}

#[test]
fn cmd_to_param_get() {
    let cmd = redis::cmd("GET").arg("a").to_owned();
    let param = Params::from_args(&args_of(&cmd));

    let result: Params = Params::from_key(b"a".as_ref());

    assert_eq!(param, result);
}

#[test]
fn cmd_to_param_blpop() {
    let cmd = redis::cmd("BLPOP").arg("a").to_owned();
    let param = Params::from_args(&args_of(&cmd));

    let mut result: Params = Params::from_key(b"a".as_ref());
    result.block = true;

    assert_eq!(param, result);
}

#[test]
fn route_blpop_with_timeout_blocks() {
    let p = Params::from_args(&words(&["BLPOP", "a", "0"]));
    assert_eq!(p.keys, vec![b"a".to_vec()]);
    assert!(p.block);
    let p = Params::from_args(&words(&["GET", "a"]));
    assert_eq!(p.keys, vec![b"a".to_vec()]);
    assert!(!p.block);
}

#[test]
fn route_table() {
    let cases: Vec<(Vec<&str>, Option<&str>, bool)> = vec![
        (vec!["CLUSTER", "KEYSLOT", "k"], Some("k"), false),
        (vec!["CLUSTER", "INFO"], None, false),
        (vec!["XGROUP", "CREATE", "s", "g", "$"], Some("s"), false),
        (vec!["XINFO", "STREAM", "s"], Some("s"), false),
        (vec!["EVAL", "return 1", "1", "k"], Some("k"), false),
        (vec!["ZDIFFSTORE", "dst", "2", "k1", "k2"], Some("k1"), false),
        (vec!["ZUNIONSTORE", "dst", "2", "k1", "k2"], Some("k1"), false),
        (vec!["ZMPOP", "1", "k", "MIN"], Some("k"), false),
        (vec!["BZMPOP", "0", "1", "k", "MIN"], Some("k"), true),
        (vec!["ZDIFF", "2", "k1", "k2"], Some("k1"), false),
        (vec!["ZINTER", "2", "k1", "k2"], Some("k1"), false),
        (vec!["ZINTERCARD", "2", "k1", "k2"], Some("k1"), false),
        (vec!["ZINTERSTORE", "d", "2", "k1"], Some("2"), false),
        (vec!["ZUNION", "2", "k1", "k2"], Some("k1"), false),
        (vec!["XREAD", "COUNT", "1", "STREAMS", "s", "0"], Some("s"), false),
        (vec!["XREAD", "BLOCK", "10", "STREAMS", "s", "0"], Some("s"), true),
        (vec!["XREADGROUP", "GROUP", "g", "c", "BLOCK", "1", "STREAMS", "s", ">"], Some("s"), true),
        (vec!["XREAD", "COUNT", "1"], None, false),
        (vec!["MIGRATE", "h", "p", "", "0", "5", "KEYS", "k1", "k2"], Some("k1"), false),
        (vec!["INFO"], None, false),
        (vec!["CLIENT", "LIST"], None, false),
        (vec!["KEYS", "*"], None, false),
        (vec!["BRPOP", "k", "0"], Some("k"), true),
        (vec!["SET", "k", "v"], Some("k"), false),
        (vec!["PING"], None, false),
    ];
    for (args, key, block) in cases {
        let p = Params::from_args(&words(&args));
        let want: Vec<Vec<u8>> = key.map(|k| vec![k.as_bytes().to_vec()]).unwrap_or_default();
        assert_eq!(p.keys, want, "{:?}", args);
        assert_eq!(p.block, block, "{:?}", args);
    }
}

#[test]
fn route_empty_command() {
    let p = Params::from_args(&Vec::new());
    assert!(p.keys.is_empty());
    assert!(!p.block);
}
