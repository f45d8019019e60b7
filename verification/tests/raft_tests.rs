use infra_core::raft::timer::{
    ElectionTimer, TimerEvent, ELECTION_TIMEOUT_MAX_MS, ELECTION_TIMEOUT_MIN_MS, HEARTBEAT_INTERVAL_MS,
};
use infra_core::raft::node::{Action, RaftNode, Role};
use infra_core::raft::router::route_allowed;
use infra_core::raft::rpc::{Message, RequestVoteArgs};
use infra_core::raft::store::{Command, KeyValueStore};
use std::collections::HashSet;

#[test]
fn store_reads_back_writes() {
    let mut store = KeyValueStore::new();
    assert_eq!(store.apply(&Command::Put { key: "a".into(), value: "1".into() }), None);
    assert_eq!(store.apply(&Command::Put { key: "a".into(), value: "2".into() }), Some("1".to_string()));
    assert_eq!(store.get("a"), Some(&"2".to_string()));
    assert_eq!(store.apply(&Command::Delete { key: "a".into() }), Some("2".to_string()));
    assert_eq!(store.get("a"), None);
    assert!(store.get_all().is_empty());
}

#[test]
fn a_fresh_replica_is_a_follower_with_one_entry() {
    let node = RaftNode::new(1, vec![2, 3]);
    assert_eq!(node.role(), Role::Follower);
    assert_eq!(node.current_term(), 0);
    assert_eq!(node.last_log_index(), 0);
    assert_eq!(node.last_log_term(), 0);
    assert_eq!(node.commit_index(), 0);
}

#[test]
fn election_asks_every_peer_for_a_vote() {
    let mut node = RaftNode::new(1, vec![2, 3]);
    let actions = node.start_election();
    assert_eq!(node.role(), Role::Candidate);
    assert_eq!(node.current_term(), 1);
    let targets: Vec<usize> = actions
        .iter()
        .filter_map(|a| match a {
            Action::Send { to, msg: Message::RequestVote { .. } } => Some(*to),
            _ => None,
        })
        .collect();
    assert_eq!(targets, vec![2, 3]);
    assert!(actions.iter().any(|a| matches!(a, Action::ResetElectionTimer)));
}

#[test]
fn a_vote_request_with_a_higher_term_is_granted_and_the_term_adopted() {
    let mut node = RaftNode::new(2, vec![1, 3]);
    let msg = Message::RequestVote {
        args: RequestVoteArgs { term: 3, candidate_id: 1, last_log_index: 0, last_log_term: 0 },
        from: 1,
    };
    assert!(node.accepts(&msg));
    let actions = node.handle_message(msg);
    assert_eq!(node.current_term(), 3);
    assert_eq!(node.role(), Role::Follower);
    let granted = actions.iter().any(|a| match a {
        Action::Send { to: 1, msg: Message::RequestVoteResponse { reply, .. } } => reply.vote_granted && reply.term == 3,
        _ => false,
    });
    assert!(granted);
}

#[test]
fn a_stale_vote_request_is_refused() {
    let mut node = RaftNode::new(2, vec![1, 3]);
    node.start_election();
    node.start_election();
    let actions = node.handle_message(Message::RequestVote {
        args: RequestVoteArgs { term: 1, candidate_id: 1, last_log_index: 0, last_log_term: 0 },
        from: 1,
    });
    assert_eq!(node.current_term(), 2);
    let refused = actions.iter().any(|a| match a {
        Action::Send { msg: Message::RequestVoteResponse { reply, .. }, .. } => !reply.vote_granted,
        _ => false,
    });
    assert!(refused);
}

#[test]
fn routing_respects_crashes_and_partitions() {
    let mut crashed = HashSet::new();
    let none: Vec<HashSet<usize>> = Vec::new();
    assert!(route_allowed(1, 2, &none, &crashed));
    crashed.insert(2);
    assert!(!route_allowed(1, 2, &none, &crashed));
    crashed.clear();
    let groups: Vec<HashSet<usize>> = vec![[1usize, 2].into_iter().collect(), [3usize, 4, 5].into_iter().collect()];
    assert!(route_allowed(1, 2, &groups, &crashed));
    assert!(route_allowed(4, 5, &groups, &crashed));
    assert!(!route_allowed(2, 3, &groups, &crashed));
}

#[test]
fn election_timer_draws_in_range_and_decides_what_is_due() {
    let mut t = ElectionTimer::new(1000);
    let timeout = t.timeout_ms();
    assert!((ELECTION_TIMEOUT_MIN_MS..ELECTION_TIMEOUT_MAX_MS).contains(&timeout));
    assert_eq!(t.due(Role::Follower, 1000 + 149), TimerEvent::Idle);
    assert_eq!(t.due(Role::Candidate, 1000 + timeout - 1), TimerEvent::Idle);
    assert_eq!(t.due(Role::Follower, 1000 + timeout), TimerEvent::Election);
    assert_eq!(t.due(Role::Follower, 1000 + 300), TimerEvent::Election);
    assert_eq!(t.due(Role::Follower, 10), TimerEvent::Idle);
    assert_eq!(t.due(Role::Leader, 1000 + 49), TimerEvent::Idle);
    assert_eq!(t.due(Role::Leader, 1000 + HEARTBEAT_INTERVAL_MS), TimerEvent::Heartbeat);
    t.touch(2000);
    assert_eq!(t.timeout_ms(), timeout);
    assert_eq!(t.due(Role::Leader, 2049), TimerEvent::Idle);
    for _ in 0..100 {
        t.reset(5000);
        assert!((150..300).contains(&t.timeout_ms()));
        assert_eq!(t.due(Role::Follower, 5149), TimerEvent::Idle);
    }
}
