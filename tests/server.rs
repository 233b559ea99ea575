use rust_kv::{commit, plan, replication_request, Action, KvStore, Request, Response, ServerRole};

fn s(x: &str) -> String {
    x.to_string()
}

/// Runs one request the way the server does, with the log kept in memory.
fn serve(
    store: &mut KvStore,
    log: &mut Vec<u8>,
    role: ServerRole,
    req: Request,
    has_follower: bool,
) -> (Response, Option<Request>) {
    match plan(store, role, &req) {
        Action::Reply(r) => (r, None),
        Action::Append(b) => {
            log.extend_from_slice(&b);
            commit(store, role, req, Ok(()), has_follower)
        }
        Action::Rewrite(b) => {
            *log = b;
            commit(store, role, req, Ok(()), has_follower)
        }
    }
}

/// What the command-line client prints for a response.
fn client_output(resp: &Response, is_get: bool) -> String {
    match resp {
        Response::Success(Some(v)) => v.clone(),
        Response::Success(None) if is_get => s("key not found"),
        Response::Success(None) => String::new(),
        Response::Failure(e) => e.clone(),
        Response::ScanResult(p) => p.iter().map(|(k, v)| format!("{} = {}", k, v)).collect(),
    }
}

fn is_not_leader(resp: &Response) -> bool {
    matches!(resp, Response::Failure(m) if m == "write rejected: not leader")
}

#[test]
fn test_end_to_end() {
    let mut store = KvStore::new();
    let mut log = Vec::new();
    let role = ServerRole::Leader;
    let set = |k: &str, v: &str| Request::Put { key: s(k), value: s(v) };
    let get = |k: &str| Request::Get { key: s(k) };

    let (r, _) = serve(&mut store, &mut log, role, set("key1", "value1"), false);
    assert!(client_output(&r, false).trim().is_empty());

    let (r, _) = serve(&mut store, &mut log, role, get("key1"), false);
    assert_eq!(client_output(&r, true).trim(), "value1");

    serve(&mut store, &mut log, role, set("key1", "value2"), false);
    let (r, _) = serve(&mut store, &mut log, role, get("key1"), false);
    assert_eq!(client_output(&r, true).trim(), "value2");

    serve(&mut store, &mut log, role, Request::Remove { key: s("key1") }, false);
    let (r, _) = serve(&mut store, &mut log, role, get("key1"), false);
    assert_eq!(client_output(&r, true).trim(), "key not found");

    let reopened = KvStore::open(&log).unwrap();
    assert_eq!(reopened.get(s("key1")), None);
}

#[test]
fn end_to_end_scenario_with_scan() {
    let mut store = KvStore::new();
    let mut log = Vec::new();
    let role = ServerRole::Leader;
    let set = |k: &str, v: &str| Request::Put { key: s(k), value: s(v) };
    let get = |k: &str| Request::Get { key: s(k) };

    serve(&mut store, &mut log, role, set("a", "1"), false);
    let (r, _) = serve(&mut store, &mut log, role, get("a"), false);
    assert!(matches!(r, Response::Success(Some(ref v)) if v == "1"));
    serve(&mut store, &mut log, role, set("a", "2"), false);
    let (r, _) = serve(&mut store, &mut log, role, get("a"), false);
    assert!(matches!(r, Response::Success(Some(ref v)) if v == "2"));
    let (r, _) = serve(&mut store, &mut log, role, Request::Remove { key: s("a") }, false);
    assert!(matches!(r, Response::Success(None)));
    let (r, _) = serve(&mut store, &mut log, role, get("a"), false);
    assert!(matches!(r, Response::Success(None)));

    serve(&mut store, &mut log, role, set("a", "1"), false);
    serve(&mut store, &mut log, role, set("b", "2"), false);
    let (r, _) = serve(&mut store, &mut log, role, Request::Scan { start: s("a"), end: s("c") }, false);
    match r {
        Response::ScanResult(p) => assert_eq!(p, vec![(s("a"), s("1")), (s("b"), s("2"))]),
        other => panic!("unexpected {:?}", other),
    }
}

#[test]
fn remove_of_absent_key_fails_without_logging() {
    let mut store = KvStore::new();
    let mut log = Vec::new();
    let (r, fwd) = serve(&mut store, &mut log, ServerRole::Leader, Request::Remove { key: s("x") }, true);
    assert!(matches!(r, Response::Failure(ref m) if m == "key not found"));
    assert!(fwd.is_none());
    assert!(log.is_empty());
}

#[test]
fn follower_rejects_client_writes() {
    let mut store = KvStore::new();
    store.set(s("a"), s("1"));
    let mut log = Vec::new();
    let role = ServerRole::Follower;
    for req in [
        Request::Put { key: s("b"), value: s("2") },
        Request::Remove { key: s("a") },
        Request::Compact,
    ] {
        let (r, fwd) = serve(&mut store, &mut log, role, req, true);
        assert!(is_not_leader(&r));
        assert!(fwd.is_none());
    }
    assert!(log.is_empty());
    assert_eq!(store.get(s("a")), Some(s("1")));
    assert_eq!(store.get(s("b")), None);
}

#[test]
fn follower_applies_replicated_writes() {
    let mut store = KvStore::new();
    let mut log = Vec::new();
    let role = ServerRole::Follower;
    let (r, _) = serve(&mut store, &mut log, role, Request::ReplicateSet { key: s("a"), value: s("1") }, false);
    assert!(matches!(r, Response::Success(None)));
    assert_eq!(store.get(s("a")), Some(s("1")));
    let (r, _) = serve(&mut store, &mut log, role, Request::ReplicateRm { key: s("a") }, false);
    assert!(matches!(r, Response::Success(None)));
    assert_eq!(store.get(s("a")), None);
    assert_eq!(KvStore::open(&log).unwrap().get(s("a")), None);
}

#[test]
fn follower_serves_reads() {
    let mut store = KvStore::new();
    store.set(s("a"), s("1"));
    let mut log = Vec::new();
    let (r, _) = serve(&mut store, &mut log, ServerRole::Follower, Request::Get { key: s("a") }, false);
    assert!(matches!(r, Response::Success(Some(ref v)) if v == "1"));
}

#[test]
fn leader_forwards_committed_writes_to_follower() {
    let mut leader = KvStore::new();
    let mut leader_log = Vec::new();
    let mut follower = KvStore::new();
    let mut follower_log = Vec::new();
    let writes = [
        Request::Put { key: s("a"), value: s("1") },
        Request::Put { key: s("b"), value: s("2") },
        Request::Remove { key: s("a") },
    ];
    for req in writes {
        let (r, fwd) = serve(&mut leader, &mut leader_log, ServerRole::Leader, req, true);
        assert!(matches!(r, Response::Success(None)));
        let fwd = fwd.expect("a committed write is forwarded");
        let (r, again) = serve(&mut follower, &mut follower_log, ServerRole::Follower, fwd, true);
        assert!(matches!(r, Response::Success(None)));
        assert!(again.is_none());
    }
    assert_eq!(follower.scan(s(""), s("z")), leader.scan(s(""), s("z")));
    assert_eq!(follower_log, leader_log);
}

#[test]
fn leader_without_follower_forwards_nothing() {
    let mut store = KvStore::new();
    let mut log = Vec::new();
    let (_, fwd) = serve(&mut store, &mut log, ServerRole::Leader, Request::Put { key: s("a"), value: s("1") }, false);
    assert!(fwd.is_none());
}

#[test]
fn failed_log_write_leaves_index_unchanged() {
    let mut store = KvStore::new();
    let req = Request::Put { key: s("a"), value: s("1") };
    assert!(matches!(plan(&store, ServerRole::Leader, &req), Action::Append(_)));
    let (r, fwd) = commit(&mut store, ServerRole::Leader, req, Err(s("disk full")), true);
    assert!(matches!(r, Response::Failure(ref m) if m == "disk full"));
    assert!(fwd.is_none());
    assert_eq!(store.get(s("a")), None);
}

#[test]
fn compact_request_rewrites_log() {
    let mut store = KvStore::new();
    let mut log = Vec::new();
    let role = ServerRole::Leader;
    for i in 0..10 {
        serve(&mut store, &mut log, role, Request::Put { key: s("k"), value: format!("{}", i) }, false);
    }
    let before = log.len();
    let (r, _) = serve(&mut store, &mut log, role, Request::Compact, true);
    assert!(matches!(r, Response::Success(None)));
    assert!(log.len() < before);
    assert_eq!(KvStore::open(&log).unwrap().get(s("k")), Some(s("9")));
}

#[test]
fn replication_request_forwards_writes() {
    match replication_request(&Request::Put { key: s("a"), value: s("1") }) {
        Some(Request::ReplicateSet { key, value }) => assert_eq!((key, value), (s("a"), s("1"))),
        other => panic!("unexpected {:?}", other),
    }
    match replication_request(&Request::Remove { key: s("a") }) {
        Some(Request::ReplicateRm { key }) => assert_eq!(key, "a"),
        other => panic!("unexpected {:?}", other),
    }
    assert!(replication_request(&Request::Get { key: s("a") }).is_none());
    assert!(replication_request(&Request::Compact).is_none());
}
