use kaddht::commands::{parse_command, Command};
use kaddht::keyspace::{bucket_index, bytes_eq, closer, kad_id};
use kaddht::node::Node;
use kaddht::query::{quorum_met_exec, PeerInfo, Quorum, QueryOutcome, RpcRequest, RpcResponse};
use kaddht::routing::{InsertOutcome, RoutingTable};
use kaddht::store::{Record, RecordStore};

fn b(s: &str) -> Vec<u8> {
    s.as_bytes().to_vec()
}

fn table_contains(t: &RoutingTable, peer: &Vec<u8>) -> bool {
    t.buckets
        .iter()
        .any(|bkt| bkt.iter().any(|e| e.peer == *peer))
}

fn new_node(name: &str) -> Node {
    Node::new(b(name), b("addr"), 20, 3, 1_000, 10_000)
}

#[test]
fn kad_id_is_deterministic_and_32_bytes() {
    let a = kad_id(&b("hello"));
    let c = kad_id(&b("hello"));
    let d = kad_id(&b("world"));
    assert_eq!(a.bytes.len(), 32);
    assert_eq!(a.bytes, c.bytes);
    assert_ne!(a.bytes, d.bytes);
}

#[test]
fn bucket_index_of_equal_keys_is_256() {
    let a = kad_id(&b("x"));
    let c = kad_id(&b("x"));
    assert_eq!(bucket_index(&a, &c), 256);
    let d = kad_id(&b("y"));
    assert!(bucket_index(&a, &d) < 256);
}

#[test]
fn closer_is_irreflexive_and_antisymmetric() {
    let t = kad_id(&b("target"));
    let a = kad_id(&b("a"));
    let c = kad_id(&b("c"));
    assert!(!closer(&t, &a, &a));
    if closer(&t, &a, &c) {
        assert!(!closer(&t, &c, &a));
    }
}

#[test]
fn parse_get() {
    match parse_command(&b("GET k1")) {
        Command::Get { key } => assert_eq!(key, b("k1")),
        _ => panic!("expected GET"),
    }
}

#[test]
fn parse_get_provider() {
    match parse_command(&b("GET_PROVIDER k1")) {
        Command::GetProvider { key } => assert_eq!(key, b("k1")),
        _ => panic!("expected GET_PROVIDER"),
    }
}

#[test]
fn parse_put() {
    match parse_command(&b("PUT k1 v1")) {
        Command::Put { key, value } => {
            assert_eq!(key, b("k1"));
            assert_eq!(value, b("v1"));
        }
        _ => panic!("expected PUT"),
    }
}

#[test]
fn parse_put_provider() {
    match parse_command(&b("PUT_PROVIDER k1")) {
        Command::PutProvider { key } => assert_eq!(key, b("k1")),
        _ => panic!("expected PUT_PROVIDER"),
    }
}

#[test]
fn parse_missing_key_or_unknown_is_usage() {
    assert!(matches!(parse_command(&b("GET")), Command::Usage));
    assert!(matches!(parse_command(&b("PUT k1")), Command::Usage));
    assert!(matches!(parse_command(&b("NOPE k1")), Command::Usage));
    assert!(matches!(parse_command(&b("")), Command::Usage));
}

#[test]
fn parse_empty_second_token_is_accepted_as_key() {
    match parse_command(&b("GET ")) {
        Command::Get { key } => assert_eq!(key, b("")),
        _ => panic!("expected GET with empty key"),
    }
}

#[test]
fn routing_insert_refresh_and_self_discard() {
    let mut t = RoutingTable::new(b("self"), 20);
    assert!(matches!(t.insert(b("p1"), b("a1")), InsertOutcome::Inserted));
    assert!(matches!(t.insert(b("p1"), b("a2")), InsertOutcome::Refreshed));
    assert!(matches!(t.insert(b("self"), b("a3")), InsertOutcome::Discarded));
    assert!(table_contains(&t, &b("p1")));
    assert!(!table_contains(&t, &b("self")));
}

#[test]
fn routing_full_bucket_probe_and_eviction() {
    let mut t = RoutingTable::new(b("self"), 1);
    let mut full_peer: Option<Vec<u8>> = None;
    for i in 0..64 {
        let p = b(&format!("peer{}", i));
        if matches!(t.insert(p.clone(), b("a")), InsertOutcome::Full) {
            full_peer = Some(p);
            break;
        }
    }
    let p = full_peer.expect("with capacity 1 some bucket must fill");
    // an unreachable new peer is dropped
    assert!(matches!(
        t.insert_probed(p.clone(), b("a"), false),
        InsertOutcome::Discarded
    ));
    assert!(!table_contains(&t, &p));
    // a reachable one evicts the least-recently-seen entry
    assert!(matches!(
        t.insert_probed(p.clone(), b("a"), true),
        InsertOutcome::Inserted
    ));
    assert!(table_contains(&t, &p));
}

#[test]
fn bucket_capacity_is_never_exceeded() {
    let mut t = RoutingTable::new(b("self"), 2);
    for i in 0..128 {
        let _ = t.insert(b(&format!("peer{}", i)), b("a"));
    }
    for bkt in t.buckets.iter() {
        assert!(bkt.len() <= 2);
    }
}

#[test]
fn closest_is_sorted_distinct_and_bounded() {
    let mut t = RoutingTable::new(b("self"), 20);
    for i in 0..32 {
        let _ = t.insert(b(&format!("peer{}", i)), b("a"));
    }
    let target = kad_id(&b("somekey"));
    let r = t.closest(&target, 10);
    assert!(r.len() <= 10);
    for i in 0..r.len() {
        for j in (i + 1)..r.len() {
            assert_ne!(r[i].peer, r[j].peer);
            // sorted by non-decreasing distance: a later entry is never
            // strictly closer than an earlier one
            assert!(!closer(&target, &r[j].kad, &r[i].kad));
        }
    }
}

#[test]
fn routing_remove_is_idempotent() {
    let mut t = RoutingTable::new(b("self"), 20);
    let _ = t.insert(b("p1"), b("a"));
    t.remove(&b("p1"));
    assert!(!table_contains(&t, &b("p1")));
    t.remove(&b("p1"));
    assert!(!table_contains(&t, &b("p1")));
}

#[test]
fn store_put_get_round_trip() {
    let mut s = RecordStore::new();
    s.put(Record { key: b("k"), value: b("v"), publisher: None, expires: None });
    let got = s.get(&b("k"), 0).expect("record must be there");
    assert_eq!(got.value, b("v"));
}

#[test]
fn store_overwrite_is_last_write_wins() {
    let mut s = RecordStore::new();
    s.put(Record { key: b("k"), value: b("v1"), publisher: None, expires: None });
    s.put(Record { key: b("k"), value: b("v2"), publisher: None, expires: None });
    assert_eq!(s.get(&b("k"), 0).unwrap().value, b("v2"));
    assert_eq!(s.records.len(), 1);
}

#[test]
fn store_expired_record_is_absent_and_purged() {
    let mut s = RecordStore::new();
    s.put(Record { key: b("k"), value: b("v"), publisher: None, expires: Some(10) });
    assert!(s.get(&b("k"), 9).is_some());
    assert!(s.get(&b("k"), 10).is_none());
    assert_eq!(s.records.len(), 0);
}

#[test]
fn providers_are_a_set_with_refreshed_ttl() {
    let mut s = RecordStore::new();
    s.add_provider(b("k"), b("p"), 100);
    s.add_provider(b("k"), b("p"), 200);
    assert_eq!(s.providers.len(), 1);
    assert_eq!(s.providers[0].expires, 200);
    let live = s.providers(&b("k"), 150);
    assert_eq!(live, vec![b("p")]);
    let expired = s.providers(&b("k"), 200);
    assert!(expired.is_empty());
}

#[test]
fn quorum_formula() {
    assert!(quorum_met_exec(Quorum::One, 1, 5));
    assert!(!quorum_met_exec(Quorum::One, 0, 5));
    assert!(quorum_met_exec(Quorum::N(3), 3, 5));
    assert!(!quorum_met_exec(Quorum::N(3), 2, 5));
    assert!(quorum_met_exec(Quorum::All, 5, 5));
    assert!(!quorum_met_exec(Quorum::All, 4, 5));
}

#[test]
fn isolated_node_get_returns_not_found() {
    let mut n = new_node("lonely");
    let qid = n.get(b("k"), Quorum::One, 0);
    assert!(n.query_next_rpcs(qid, 0).is_empty());
    match n.query_try_finish(qid, 1) {
        Some(QueryOutcome::NotFound) => {}
        _ => panic!("an isolated node's lookup must end in NotFound"),
    }
}

#[test]
fn failed_peer_is_removed_and_excluded() {
    let mut n = new_node("a");
    assert!(matches!(n.observe_peer(b("x"), b("ax")), InsertOutcome::Inserted));
    let qid = n.get(b("k"), Quorum::One, 0);
    let batch = n.query_next_rpcs(qid, 0);
    assert_eq!(batch.len(), 1);
    assert_eq!(batch[0].0.peer, b("x"));
    n.on_rpc_failure(qid, &b("x"));
    assert!(!table_contains(&n.table, &b("x")));
    assert!(n.query_next_rpcs(qid, 0).is_empty());
    match n.query_try_finish(qid, 1) {
        Some(QueryOutcome::NotFound) => {}
        _ => panic!("query must end in NotFound after its only peer failed"),
    }
}

#[test]
fn put_reaches_quorum_one_with_single_ack() {
    let mut n = new_node("a");
    let _ = n.observe_peer(b("x"), b("ax"));
    let qid = n.put(b("k"), b("v"), Quorum::One, 0);
    // local-first write
    assert_eq!(n.store.records.len(), 1);
    // iteration round: FindNode to x, which reports nobody closer
    let batch = n.query_next_rpcs(qid, 0);
    assert_eq!(batch.len(), 1);
    assert!(matches!(batch[0].1, RpcRequest::FindNode { .. }));
    n.on_rpc_response(qid, &b("x"), &RpcResponse::Nodes { closer: Vec::new() });
    // store round: Store to x, replicating the record as written locally,
    // published by this node and with no expiry of its own
    let batch = n.query_next_rpcs(qid, 0);
    assert_eq!(batch.len(), 1);
    match &batch[0].1 {
        RpcRequest::Store { record } => {
            assert_eq!(record.key, b("k"));
            assert_eq!(record.value, b("v"));
            assert_eq!(record.publisher, Some(b("a")));
            assert_eq!(record.expires, None);
        }
        _ => panic!("store round must send Store"),
    }
    n.on_rpc_response(qid, &b("x"), &RpcResponse::StoreAck);
    match n.query_try_finish(qid, 1) {
        Some(QueryOutcome::Stored { acks, contacted }) => {
            assert_eq!(acks, 1);
            assert_eq!(contacted, 1);
        }
        _ => panic!("one acknowledgment must satisfy Quorum::One"),
    }
}

#[test]
fn put_with_unmet_quorum_fails() {
    let mut n = new_node("a");
    let _ = n.observe_peer(b("x"), b("ax"));
    let qid = n.put(b("k"), b("v"), Quorum::N(2), 0);
    let _ = n.query_next_rpcs(qid, 0);
    n.on_rpc_response(qid, &b("x"), &RpcResponse::Nodes { closer: Vec::new() });
    let _ = n.query_next_rpcs(qid, 0);
    n.on_rpc_response(qid, &b("x"), &RpcResponse::StoreAck);
    match n.query_try_finish(qid, 1) {
        Some(QueryOutcome::QuorumUnmet { acks, contacted }) => {
            assert_eq!(acks, 1);
            assert_eq!(contacted, 1);
        }
        _ => panic!("one acknowledgment cannot satisfy Quorum::N(2)"),
    }
}

#[test]
fn duplicate_acks_are_counted_once() {
    let mut n = new_node("a");
    let _ = n.observe_peer(b("x"), b("ax"));
    let qid = n.put(b("k"), b("v"), Quorum::N(2), 0);
    let _ = n.query_next_rpcs(qid, 0);
    n.on_rpc_response(qid, &b("x"), &RpcResponse::Nodes { closer: Vec::new() });
    let _ = n.query_next_rpcs(qid, 0);
    n.on_rpc_response(qid, &b("x"), &RpcResponse::StoreAck);
    n.on_rpc_response(qid, &b("x"), &RpcResponse::StoreAck);
    match n.query_try_finish(qid, 1) {
        Some(QueryOutcome::QuorumUnmet { acks, .. }) => assert_eq!(acks, 1),
        _ => panic!("a repeated acknowledgment from one peer counts once"),
    }
}

#[test]
fn start_providing_is_idempotent() {
    let mut n = new_node("a");
    let _ = n.start_providing(b("k"), 0);
    let _ = n.start_providing(b("k"), 5);
    let mine: Vec<_> = n
        .store
        .providers
        .iter()
        .filter(|p| p.key == b("k") && p.provider == b("a"))
        .collect();
    assert_eq!(mine.len(), 1);
    assert_eq!(mine[0].expires, 5 + 10_000);
}

#[test]
fn handle_rpc_store_and_get_value() {
    let mut n = new_node("a");
    let req = RpcRequest::Store {
        record: Record { key: b("k"), value: b("v"), publisher: None, expires: None },
    };
    assert!(matches!(
        n.handle_rpc(b("x"), b("ax"), &req, 0),
        RpcResponse::StoreAck
    ));
    match n.handle_rpc(b("x"), b("ax"), &RpcRequest::GetValue { key: b("k") }, 0) {
        RpcResponse::Value { record: Some(rec), .. } => assert_eq!(rec.value, b("v")),
        _ => panic!("stored value must be served"),
    }
    // the sender was learned
    assert!(table_contains(&n.table, &b("x")));
}

#[test]
fn handle_rpc_providers() {
    let mut n = new_node("a");
    let req = RpcRequest::AddProvider { key: b("k"), provider: b("p") };
    assert!(matches!(
        n.handle_rpc(b("x"), b("ax"), &req, 0),
        RpcResponse::AddProviderAck
    ));
    match n.handle_rpc(b("x"), b("ax"), &RpcRequest::GetProviders { key: b("k") }, 1) {
        RpcResponse::Providers { providers, .. } => assert_eq!(providers, vec![b("p")]),
        _ => panic!("provider must be listed"),
    }
}

/// Drive one node's query against a set of serving nodes until it ends.
fn run_query(nodes: &mut Vec<Node>, who: usize, qid: u64, now: u64) -> QueryOutcome {
    for _step in 0..1000 {
        let batch = nodes[who].query_next_rpcs(qid, now);
        if batch.is_empty() {
            if let Some(outcome) = nodes[who].query_try_finish(qid, now) {
                return outcome;
            }
            continue;
        }
        for (peer, req) in batch {
            let from = nodes[who].self_peer.clone();
            let from_addr = nodes[who].self_addr.clone();
            let serving = nodes.iter().position(|n| n.self_peer == peer.peer);
            match serving {
                Some(si) => {
                    let resp = nodes[si].handle_rpc(from, from_addr, &req, now);
                    nodes[who].on_rpc_response(qid, &peer.peer, &resp);
                }
                None => {
                    nodes[who].on_rpc_failure(qid, &peer.peer);
                }
            }
        }
    }
    panic!("query did not converge");
}

#[test]
fn four_node_network_put_then_get() {
    let names = ["na", "nb", "nc", "nd"];
    let mut nodes: Vec<Node> = names.iter().map(|n| new_node(n)).collect();
    // local discovery: everybody learns everybody
    for i in 0..4 {
        for j in 0..4 {
            if i != j {
                let p = nodes[j].self_peer.clone();
                let a = nodes[j].self_addr.clone();
                let _ = nodes[i].observe_peer(p, a);
            }
        }
    }
    let qid = nodes[0].put(b("k"), b("v1"), Quorum::One, 0);
    match run_query(&mut nodes, 0, qid, 0) {
        QueryOutcome::Stored { acks, .. } => assert!(acks >= 1),
        o => panic!("put must succeed with Quorum::One, got {:?}", outcome_name(&o)),
    }
    // node B finds the value in the network
    let qid2 = nodes[1].get(b("k"), Quorum::One, 0);
    match run_query(&mut nodes, 1, qid2, 0) {
        QueryOutcome::FoundRecord { record } => assert_eq!(record.value, b("v1")),
        o => panic!("get must find the stored value, got {:?}", outcome_name(&o)),
    }
}

fn outcome_name(o: &QueryOutcome) -> &'static str {
    match o {
        QueryOutcome::FoundRecord { .. } => "FoundRecord",
        QueryOutcome::NotFound => "NotFound",
        QueryOutcome::FoundProviders { .. } => "FoundProviders",
        QueryOutcome::Stored { .. } => "Stored",
        QueryOutcome::QuorumUnmet { .. } => "QuorumUnmet",
        QueryOutcome::Converged { .. } => "Converged",
        QueryOutcome::TimedOut => "TimedOut",
    }
}

#[test]
fn get_providers_across_network() {
    let mut nodes: Vec<Node> = ["na", "nb"].iter().map(|n| new_node(n)).collect();
    for i in 0..2 {
        for j in 0..2 {
            if i != j {
                let p = nodes[j].self_peer.clone();
                let a = nodes[j].self_addr.clone();
                let _ = nodes[i].observe_peer(p, a);
            }
        }
    }
    let qid = nodes[0].start_providing(b("k"), 0);
    let _ = run_query(&mut nodes, 0, qid, 0);
    let qid2 = nodes[1].get_providers(b("k"), 0);
    match run_query(&mut nodes, 1, qid2, 0) {
        QueryOutcome::FoundProviders { providers } => {
            assert!(providers.iter().any(|p| *p == b("na")));
        }
        o => panic!("provider lookup must find the announcer, got {:?}", outcome_name(&o)),
    }
}

#[test]
fn query_times_out() {
    let mut n = new_node("a");
    let _ = n.observe_peer(b("x"), b("ax"));
    let qid = n.get(b("k"), Quorum::One, 0);
    let _ = n.query_next_rpcs(qid, 0);
    // no response ever arrives; the deadline passes
    match n.query_try_finish(qid, 2_000) {
        Some(QueryOutcome::TimedOut) => {}
        _ => panic!("a query past its deadline must time out"),
    }
}

#[test]
fn kad_id_matches_known_digest_of_empty_input() {
    let id = kad_id(&Vec::new());
    let expected: [u8; 32] = [
        0xe3, 0xb0, 0xc4, 0x42, 0x98, 0xfc, 0x1c, 0x14, 0x9a, 0xfb, 0xf4, 0xc8, 0x99, 0x6f,
        0xb9, 0x24, 0x27, 0xae, 0x41, 0xe4, 0x64, 0x9b, 0x93, 0x4c, 0xa4, 0x95, 0x99, 0x1b,
        0x78, 0x52, 0xb8, 0x55,
    ];
    assert_eq!(id.bytes, expected.to_vec());
}
