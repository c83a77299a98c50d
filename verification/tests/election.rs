//! Campaigns of a node, step by step, and the lists of members.
use rw_core::election::{
    Command, ElectionError, EtcdElectionClient, KeyValue, META_ELECTION_KEY, MetaLeaderInfo, Phase,
    is_lease_lost, leader_by_reply, leader_info, sort_by_revision,
};

fn kv(value: &[u8], lease: i64, create_revision: i64) -> KeyValue {
    KeyValue { value: value.to_vec(), lease, create_revision }
}

fn no_leader() -> ElectionError {
    ElectionError::GRpcStatus("election: no leader".to_string())
}

fn broken() -> ElectionError {
    ElectionError::Other("connection refused".to_string())
}

#[test]
fn new_node_wins_and_loses() {
    let mut node = EtcdElectionClient::new("node-1".to_string());
    assert!(!node.is_leader());
    assert_eq!(node.known_leader(), None);
    assert_eq!(node.run_once(5), Command::AskLeader);
    assert_eq!(node.on_leader(Err(no_leader())), Command::Grant(5));
    assert_eq!(node.on_granted(Ok(77)), Command::Probe(77));
    assert_eq!(node.on_probed(Ok(Some(5))), Command::Campaign(77, b"node-1".to_vec()));
    assert!(!node.is_leader());
    assert_eq!(node.on_campaigned(Ok(())), Command::AwaitLoss);
    assert!(node.is_leader());
    assert_eq!(
        node.known_leader(),
        Some(MetaLeaderInfo { node_address: "node-1".to_string(), lease_id: 0 })
    );
    assert_eq!(
        node.leader(None),
        Ok(Some(MetaLeaderInfo { node_address: "node-1".to_string(), lease_id: 0 }))
    );
    assert_eq!(node.on_lost(), Command::Finish);
    assert!(!node.is_leader());
    assert_eq!(node.phase, Phase::Idle);
    assert_eq!(
        node.leader(Some(Ok(kv(b"node-2", 4, 1)))),
        Ok(Some(MetaLeaderInfo { node_address: "node-2".to_string(), lease_id: 4 }))
    );
    assert_eq!(node.leader(Some(Err(no_leader()))), Ok(None));
    assert_eq!(node.leader(Some(Err(broken()))), Err(broken()));
}

#[test]
fn leader_goes_on_with_its_lease() {
    let mut node = EtcdElectionClient::new("node-1".to_string());
    node.run_once(5);
    assert_eq!(node.on_leader(Ok(Some(kv(b"node-1", 33, 1)))), Command::Probe(33));
    assert_eq!(node.on_probed(Ok(None)), Command::Campaign(33, b"node-1".to_vec()));
}

#[test]
fn void_lease_is_replaced() {
    let mut node = EtcdElectionClient::new("node-1".to_string());
    node.run_once(5);
    node.on_leader(Ok(Some(kv(b"node-1", 33, 1))));
    assert_eq!(node.on_probed(Ok(Some(0))), Command::Grant(5));
    assert_eq!(node.on_granted(Ok(34)), Command::Campaign(34, b"node-1".to_vec()));
}

#[test]
fn other_leader_means_new_lease() {
    let mut node = EtcdElectionClient::new("node-1".to_string());
    node.run_once(9);
    assert_eq!(node.on_leader(Ok(Some(kv(b"node-10", 33, 1)))), Command::Grant(9));
    node.run_once(8);
    assert_eq!(node.on_leader(Ok(None)), Command::Grant(8));
}

#[test]
fn failures_end_the_campaign() {
    let mut node = EtcdElectionClient::new("node-1".to_string());
    node.run_once(5);
    assert_eq!(node.on_leader(Err(broken())), Command::Fail(broken()));
    node.run_once(5);
    let other = ElectionError::GRpcStatus("something else".to_string());
    assert_eq!(node.on_leader(Err(other)), Command::Fail(ElectionError::GRpcStatus("something else".to_string())));
    node.run_once(5);
    node.on_leader(Ok(None));
    assert_eq!(node.on_granted(Err(broken())), Command::Fail(broken()));
    node.run_once(5);
    node.on_leader(Ok(None));
    node.on_granted(Ok(1));
    assert_eq!(node.on_probed(Err(broken())), Command::Fail(broken()));
    node.run_once(5);
    node.on_leader(Ok(None));
    node.on_granted(Ok(1));
    node.on_probed(Ok(Some(3)));
    assert_eq!(node.on_campaigned(Err(broken())), Command::Fail(broken()));
    assert!(!node.is_leader());
    assert_eq!(node.phase, Phase::Idle);
}

#[test]
fn new_campaign_gives_up_leadership() {
    let mut node = EtcdElectionClient::new("n".to_string());
    node.run_once(5);
    node.on_leader(Ok(None));
    node.on_granted(Ok(1));
    node.on_probed(Ok(Some(3)));
    node.on_campaigned(Ok(()));
    assert!(node.is_leader());
    node.run_once(5);
    assert!(!node.is_leader());
}

#[test]
fn lease_is_lost_without_time_to_live() {
    assert!(is_lease_lost(&Err(broken())));
    assert!(is_lease_lost(&Ok(Some(0))));
    assert!(is_lease_lost(&Ok(Some(-1))));
    assert!(!is_lease_lost(&Ok(Some(1))));
    assert!(!is_lease_lost(&Ok(None)));
}

#[test]
fn reply_names_the_leader() {
    assert_eq!(
        leader_by_reply(Ok(kv("höst:5690".as_bytes(), 12, 1))),
        Ok(Some(MetaLeaderInfo { node_address: "höst:5690".to_string(), lease_id: 12 }))
    );
    assert_eq!(leader_by_reply(Err(no_leader())), Ok(None));
    assert_eq!(leader_by_reply(Err(broken())), Err(broken()));
    assert_eq!(leader_info("a".to_string(), -1).lease_id, u64::MAX);
}

#[test]
fn members_are_listed_by_age() {
    let members = EtcdElectionClient::get_members(vec![
        kv(b"c", 3, 30),
        kv(b"a", 1, 10),
        kv(b"b1", 21, 20),
        kv(b"b2", 22, 20),
        kv(&[0x66, 0xff, 0x6f], 4, 40),
    ]);
    assert_eq!(
        members,
        vec![
            ("a".to_string(), 1, true),
            ("b1".to_string(), 21, false),
            ("b2".to_string(), 22, false),
            ("c".to_string(), 3, false),
            ("f\u{fffd}o".to_string(), 4, false),
        ]
    );
    assert_eq!(EtcdElectionClient::get_members(vec![]), vec![]);
    assert_eq!(META_ELECTION_KEY, "__meta_election");
}

#[test]
fn oldest_comes_first() {
    let sorted = sort_by_revision(vec![kv(b"x", 1, 5), kv(b"y", 2, -5), kv(b"z", 3, 5)]);
    let leases: Vec<i64> = sorted.iter().map(|kv| kv.lease).collect();
    assert_eq!(leases, vec![2, 1, 3]);
}
