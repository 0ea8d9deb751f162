use redis_rs::error::{PoolFault, RedisError};
use redis_rs::pool::{finish, BackendKind, Config, Outcome, PoolManager};
use redis_rs::reply::Reply;

fn words(ws: &[&str]) -> Vec<Vec<u8>> {
    ws.iter().map(|w| w.as_bytes().to_vec()).collect()
}

#[test]
fn pool_manager_status() {
    let pm = PoolManager::new(Config::default());
    let result = pm.status();
    assert_eq!(result.len(), 3);
}

#[test]
fn client_async_slots_parse() {
    let _pm = PoolManager::new(Config::default());
}

fn mock_config() -> Config {
    let mut c = Config::default();
    c.set_features(&words(&["InMemory"]));
    c
}

#[test]
fn closed_pool_refuses_every_command() {
    let mut pm = PoolManager::new(mock_config());
    for cmd in [vec!["GET", "a"], vec!["SET", "a", "1"], vec!["XREAD", "STREAMS", "s", "0"], vec![]] {
        let r = pm.execute(&words(&cmd));
        assert!(matches!(r, Err(RedisError::PoolError(PoolFault::NotInitialized))));
    }
    pm.init().unwrap();
    match pm.execute(&words(&["SET", "a", "1"])) {
        Ok(Outcome::Reply(Reply::Nil)) => {}
        _ => panic!("mock did not answer"),
    }
    pm.close();
    for cmd in [vec!["GET", "a"], vec!["HGETALL", "h"], vec!["PING"]] {
        let r = pm.execute(&words(&cmd));
        assert!(matches!(r, Err(RedisError::PoolError(PoolFault::NotInitialized))));
    }
    assert_eq!(pm.status().len(), 3);
}

#[test]
fn backend_selection() {
    let mut c = Config::default();
    c.cluster = Some(false);
    let mut pm = PoolManager::new(c);
    pm.init().unwrap();
    match pm.execute(&words(&["BLPOP", "k", "0"])) {
        Ok(Outcome::Forward(BackendKind::Single, p)) => {
            assert!(p.block);
            assert_eq!(p.keys, vec![b"k".to_vec()]);
        }
        _ => panic!("expected a single-node forward"),
    }
    let mut c = Config::default();
    c.cluster = Some(true);
    let mut pm = PoolManager::new(c);
    pm.init().unwrap();
    assert!(matches!(pm.execute(&words(&["GET", "k"])), Ok(Outcome::Forward(BackendKind::Cluster, _))));
    let mut pm = PoolManager::new(Config::default());
    pm.init().unwrap();
    assert!(matches!(pm.execute(&words(&["GET", "k"])), Ok(Outcome::Forward(BackendKind::Shards, _))));
    let st = pm.status();
    assert_eq!(st.len(), 4);
    assert_eq!(st[1], (b"impl".to_vec(), Reply::SimpleString(b"shards_async".to_vec())));
    assert_eq!(st[2], (b"initial_nodes".to_vec(), Reply::Array(vec![])));
    assert_eq!(st[3], (b"max_size".to_vec(), Reply::Int(0)));
}

#[test]
fn default_status_values_and_mock_label() {
    let pm = PoolManager::new(Config::default());
    let st = pm.status();
    assert_eq!(st[0], (b"closed".to_vec(), Reply::Boolean(true)));
    assert_eq!(st[1], (b"initial_nodes".to_vec(), Reply::Array(vec![])));
    assert_eq!(st[2], (b"max_size".to_vec(), Reply::Int(0)));
    let mut pm = PoolManager::new(mock_config());
    pm.init().unwrap();
    let st = pm.status();
    assert_eq!(st[1], (b"impl".to_vec(), Reply::SimpleString(b"mock".to_vec())));
    assert_eq!(BackendKind::Cluster.label(), b"cluster_async".to_vec());
    assert_eq!(BackendKind::Single.label(), b"client_async".to_vec());
}

#[test]
fn features_ignore_case() {
    let mut c = Config::default();
    c.set_features(&words(&["SHARDS", "Bb8", "other"]));
    assert!(c.shards && c.bb8 && !c.mock);
    c.set_features(&words(&["mock"]));
    assert!(c.mock);
}

#[test]
fn server_errors_become_errors() {
    assert_eq!(
        finish(Reply::ServerError(b"ERR bad".to_vec())),
        Err(RedisError::RedisError(b"ERR bad".to_vec()))
    );
    assert_eq!(finish(Reply::Int(3)), Ok(Reply::Int(3)));
}
