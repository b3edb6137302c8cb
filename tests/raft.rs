use maelstrom_raft::election::{backoff_from, loop_pause_from, timeout_from};
use maelstrom_raft::election::{
    AppendEntries, ClientRoute, Election, ElectionState, ReplyBody, RequestVote, State,
    replication_due,
};
use maelstrom_raft::log::{Entry, Op};
use maelstrom_raft::raft_state::RaftState;

fn strings(ids: &[&str]) -> Vec<String> {
    ids.iter().map(|s| s.to_string()).collect()
}

fn write(key: i32, value: i32, msg_id: i32) -> Op {
    Op::Write { key, value, requester: "c1".to_string(), msg_id }
}

fn elect_single(rs: &RaftState) -> ElectionState {
    let mut es = ElectionState::init(rs, 0);
    assert!(es.election_due(1));
    es.become_candidate(rs, 1);
    let election = Election::start(rs, es.current_term());
    assert!(es.validate_election(rs, &election, 1));
    assert_eq!(es.current_state(), State::LEADER);
    es
}

#[test]
fn single_node_write_then_read() {
    let mut rs = RaftState::init("n1".to_string(), vec![]);
    let mut es = elect_single(&rs);
    let route = es.route_client_request(&mut rs, write(1, 7, 10), 10);
    assert!(matches!(route, Ok(ClientRoute::Appended)));
    let replies = es.advance_commit_index(&mut rs);
    assert_eq!(replies.len(), 1);
    assert_eq!(replies[0].dest, "c1");
    assert!(matches!(replies[0].body, ReplyBody::WriteOk { in_reply_to: 10 }));

    let read = Op::Read { key: 1, requester: "c1".to_string(), msg_id: 11 };
    assert!(matches!(es.route_client_request(&mut rs, read, 11), Ok(ClientRoute::Appended)));
    let replies = es.advance_commit_index(&mut rs);
    assert_eq!(replies.len(), 1);
    assert!(matches!(replies[0].body, ReplyBody::ReadOk { value: 7, in_reply_to: 11 }));
    assert_eq!(es.commit_index(), 3);
    assert_eq!(es.last_applied(), 3);
}

#[test]
fn cas_success_then_failure() {
    let mut rs = RaftState::init("n1".to_string(), vec![]);
    let mut es = elect_single(&rs);
    es.route_client_request(&mut rs, write(1, 7, 1), 1).ok().unwrap();
    es.advance_commit_index(&mut rs);
    let cas = |from: i32, to: i32, msg_id: i32| Op::CAS {
        key: 1,
        from,
        to,
        requester: "c1".to_string(),
        msg_id,
    };
    es.route_client_request(&mut rs, cas(7, 8, 2), 2).ok().unwrap();
    let replies = es.advance_commit_index(&mut rs);
    assert!(matches!(replies[0].body, ReplyBody::CasOk { in_reply_to: 2 }));
    es.route_client_request(&mut rs, cas(7, 9, 3), 3).ok().unwrap();
    let replies = es.advance_commit_index(&mut rs);
    match &replies[0].body {
        ReplyBody::Error(e) => {
            assert_eq!(e.in_reply_to, 3);
            assert_eq!(e.error.code, 22);
        }
        _ => panic!("expected a precondition failure"),
    }
    assert_eq!(rs.read_value(1).ok(), Some(8));
}

#[test]
fn read_of_missing_key_is_key_does_not_exist() {
    let rs = RaftState::init("n1".to_string(), vec![]);
    let err = rs.read_value(5).err().unwrap();
    assert_eq!(err.code, 20);
    assert_eq!(err.text, "No key found at 5");
}

#[test]
fn three_node_election_and_heartbeat() {
    let mut n1 = RaftState::init("n1".to_string(), strings(&["n2", "n3"]));
    let mut n2 = RaftState::init("n2".to_string(), strings(&["n1", "n3"]));
    let n3 = RaftState::init("n3".to_string(), strings(&["n1", "n2"]));
    let mut e1 = ElectionState::init(&n1, 0);
    let mut e2 = ElectionState::init(&n2, 0);
    let mut e3 = ElectionState::init(&n3, 0);
    let req: RequestVote = e1.become_candidate(&n1, 5);
    assert_eq!(req.term, 1);
    assert_eq!(req.last_log_index, 1);
    let mut election = Election::start(&n1, req.term);
    let v2 = e2.handle_request_vote(&n2, &req, 5);
    let v3 = e3.handle_request_vote(&n3, &req, 5);
    assert!(v2.vote_granted && v3.vote_granted);
    assert_eq!(e2.voted_for(), Some("n1".to_string()));
    assert!(!e1.count_vote(&n1, &mut election, v2.term, v2.vote_granted, "n2".to_string(), 5));
    assert!(!e1.count_vote(&n1, &mut election, v3.term, v3.vote_granted, "n3".to_string(), 5));
    assert_eq!(election.votes_received(), 3);
    assert!(e1.validate_election(&n1, &election, 5));
    assert_eq!(e1.current_state(), State::LEADER);
    assert_eq!(e1.next_index_of_node(0), 2);
    assert_eq!(e1.match_index_of_node(0), 0);

    let hb = e1.append_entries_for(&n1, 0);
    assert_eq!(hb.prev_log_index, 1);
    assert_eq!(hb.prev_log_term, 0);
    assert!(hb.entries.is_empty());
    assert!(replication_due(hb.entries.len(), 1001));
    assert!(!replication_due(0, 1000));
    let resp = e2.handle_append_entries(&mut n2, hb, 7, 6).ok().unwrap();
    assert!(resp.success);
    assert_eq!(e2.get_leader(), Some("n1".to_string()));
    assert_eq!(e2.current_state(), State::FOLLOWER);
    let replies = e1.handle_append_response(&mut n1, 0, 2, 0, resp.term, resp.success, 6);
    assert!(replies.is_empty());
    assert_eq!(e1.match_index_of_node(0), 1);
    assert_eq!(n1.majority(), 2);
}

#[test]
fn second_vote_in_same_term_is_refused() {
    let n2 = RaftState::init("n2".to_string(), strings(&["n1", "n3"]));
    let mut e2 = ElectionState::init(&n2, 0);
    let req = |id: &str| RequestVote {
        term: 1,
        candidate_id: id.to_string(),
        last_log_index: 1,
        last_log_term: 0,
    };
    assert!(e2.handle_request_vote(&n2, &req("n1"), 0).vote_granted);
    assert!(!e2.handle_request_vote(&n2, &req("n3"), 0).vote_granted);
}

#[test]
fn stale_log_gets_no_vote() {
    let mut n2 = RaftState::init("n2".to_string(), strings(&["n1"]));
    n2.append_single_entry(write(1, 1, 1), 3);
    let mut e2 = ElectionState::init(&n2, 0);
    let req = RequestVote { term: 4, candidate_id: "n1".to_string(), last_log_index: 5, last_log_term: 2 };
    let resp = e2.handle_request_vote(&n2, &req, 0);
    assert!(!resp.vote_granted);
    assert_eq!(resp.term, 4);
    assert_eq!(e2.current_term(), 4);
}

#[test]
fn higher_term_response_ends_candidacy() {
    let n1 = RaftState::init("n1".to_string(), strings(&["n2", "n3"]));
    let mut e1 = ElectionState::init(&n1, 0);
    e1.become_candidate(&n1, 1);
    let mut election = Election::start(&n1, 1);
    let stepped = e1.count_vote(&n1, &mut election, 3, false, "n2".to_string(), 1);
    assert!(stepped);
    assert_eq!(e1.current_state(), State::FOLLOWER);
    assert_eq!(e1.current_term(), 3);
    assert_eq!(election.votes_received(), 1);
    assert!(!e1.validate_election(&n1, &election, 1));
    assert_eq!(e1.current_state(), State::FOLLOWER);
}

#[test]
fn append_entries_with_zero_prev_index_aborts() {
    let mut n2 = RaftState::init("n2".to_string(), strings(&["n1"]));
    let mut e2 = ElectionState::init(&n2, 0);
    let req = AppendEntries {
        term: 1,
        leader_id: "n1".to_string(),
        prev_log_index: 0,
        prev_log_term: 0,
        entries: vec![],
        leader_commit: 1,
    };
    let err = e2.handle_append_entries(&mut n2, req, 42, 0).err().unwrap();
    assert_eq!(err.error.code, 14);
    assert_eq!(err.in_reply_to, 42);
}

#[test]
fn append_after_truncate_keeps_prefix() {
    let mut n2 = RaftState::init("n2".to_string(), strings(&["n1"]));
    n2.append_single_entry(write(1, 1, 1), 1);
    n2.append_single_entry(write(2, 2, 2), 1);
    let mut e2 = ElectionState::init(&n2, 0);
    let req = AppendEntries {
        term: 2,
        leader_id: "n1".to_string(),
        prev_log_index: 2,
        prev_log_term: 1,
        entries: vec![Entry { term: 2, op: Some(write(3, 3, 3)) }],
        leader_commit: 10,
    };
    let resp = e2.handle_append_entries(&mut n2, req, 1, 0).ok().unwrap();
    assert!(resp.success);
    assert_eq!(n2.log_size(), 3);
    assert_eq!(n2.log_entry(2).unwrap().term, 1);
    assert_eq!(n2.log_entry(3).unwrap().term, 2);
    assert_eq!(e2.commit_index(), 3);
    let replies = e2.advance_state_machine(&mut n2);
    assert!(replies.is_empty());
    assert_eq!(n2.read_value(1).ok(), Some(1));
    assert_eq!(n2.read_value(3).ok(), Some(3));
    assert_eq!(n2.read_value(2).ok(), None);
}

#[test]
fn mismatched_previous_term_is_refused() {
    let mut n2 = RaftState::init("n2".to_string(), strings(&["n1"]));
    let mut e2 = ElectionState::init(&n2, 0);
    let req = AppendEntries {
        term: 1,
        leader_id: "n1".to_string(),
        prev_log_index: 1,
        prev_log_term: 5,
        entries: vec![],
        leader_commit: 1,
    };
    assert!(!e2.handle_append_entries(&mut n2, req, 1, 0).ok().unwrap().success);
    let old = AppendEntries {
        term: 0,
        leader_id: "n1".to_string(),
        prev_log_index: 1,
        prev_log_term: 0,
        entries: vec![],
        leader_commit: 1,
    };
    e2.maybe_step_down(2, 0);
    let resp = e2.handle_append_entries(&mut n2, old, 1, 0).ok().unwrap();
    assert!(!resp.success);
    assert_eq!(resp.term, 2);
}

#[test]
fn follower_forwards_or_is_unavailable() {
    let mut n2 = RaftState::init("n2".to_string(), strings(&["n1"]));
    let mut e2 = ElectionState::init(&n2, 0);
    match e2.route_client_request(&mut n2, write(42, 1, 9), 9) {
        Err(e) => {
            assert_eq!(e.error.code, 11);
            assert_eq!(e.in_reply_to, 9);
        }
        Ok(_) => panic!("no leader is known"),
    }
    e2.set_leader("n1".to_string());
    match e2.route_client_request(&mut n2, write(42, 1, 9), 9) {
        Ok(ClientRoute::Forward(to)) => assert_eq!(to, "n1"),
        _ => panic!("expected forwarding"),
    }
    assert_eq!(n2.log_size(), 1);
}

#[test]
fn commit_uses_majority_of_whole_cluster() {
    let mut n1 = RaftState::init("n1".to_string(), strings(&["n2", "n3", "n4"]));
    let mut e1 = ElectionState::init(&n1, 0);
    e1.become_candidate(&n1, 1);
    e1.become_leader(&n1, 1);
    n1.append_single_entry(write(1, 1, 1), 1);
    n1.append_single_entry(write(2, 2, 2), 1);
    assert_eq!(n1.majority(), 3);
    e1.set_node_match_index(0, 3);
    assert_eq!(e1.median_commit_index(&n1), 0);
    e1.set_node_match_index(1, 2);
    assert_eq!(e1.median_commit_index(&n1), 2);
    let replies = e1.advance_commit_index(&mut n1);
    assert_eq!(replies.len(), 1);
    assert_eq!(e1.commit_index(), 2);
}

#[test]
fn failed_append_moves_next_index_back_not_below_one() {
    let mut n1 = RaftState::init("n1".to_string(), strings(&["n2"]));
    let mut e1 = ElectionState::init(&n1, 0);
    e1.become_candidate(&n1, 1);
    e1.become_leader(&n1, 1);
    assert_eq!(e1.next_index_of_node(0), 2);
    e1.handle_append_response(&mut n1, 0, 2, 0, 1, false, 1);
    assert_eq!(e1.next_index_of_node(0), 1);
    e1.handle_append_response(&mut n1, 0, 1, 0, 1, false, 1);
    assert_eq!(e1.next_index_of_node(0), 1);
    e1.handle_append_response(&mut n1, 0, 1, 0, 5, false, 1);
    assert_eq!(e1.current_state(), State::FOLLOWER);
    assert_eq!(e1.current_term(), 5);
}

#[test]
fn same_prefix_applied_twice_gives_same_map() {
    let entries = vec![
        Entry { term: 1, op: Some(write(1, 5, 1)) },
        Entry { term: 1, op: Some(Op::CAS { key: 1, from: 5, to: 6, requester: "c".to_string(), msg_id: 2 }) },
        Entry { term: 1, op: Some(write(2, 9, 3)) },
    ];
    let mut maps = vec![];
    for _ in 0..2 {
        let mut rs = RaftState::init("n1".to_string(), strings(&["n2"]));
        let mut es = ElectionState::init(&rs, 0);
        let mut copy: Vec<Entry> = entries.iter().cloned().collect();
        rs.append_log_entries(&mut copy);
        es.set_commit_index(4);
        es.advance_state_machine(&mut rs);
        maps.push((rs.read_value(1).ok(), rs.read_value(2).ok()));
    }
    assert_eq!(maps[0], (Some(6), Some(9)));
    assert_eq!(maps[0], maps[1]);
}

#[test]
fn timers_fall_in_their_ranges() {
    for _ in 0..50 {
        let t = maelstrom_raft::election::timeout_ms();
        assert!((3000..=12000).contains(&t));
        let p = maelstrom_raft::election::loop_pause_ms();
        assert!((50..150).contains(&p));
        let b = maelstrom_raft::election::backoff_ms();
        assert!((50..1000).contains(&b));
    }
    let rs = RaftState::init("n1".to_string(), vec![]);
    let mut es = ElectionState::init(&rs, 0);
    es.reset_election_time(1000);
    assert!(es.next_election_time() >= 4000 && es.next_election_time() <= 13000);
    assert!(!es.step_down_due(1_000_000));
}

#[test]
fn becoming_follower_keeps_the_vote_of_the_term() {
    let rs = RaftState::init("n1".to_string(), strings(&["n2"]));
    let mut es = ElectionState::init(&rs, 0);
    es.become_candidate(&rs, 0);
    es.become_follower(0);
    assert_eq!(es.current_state(), State::FOLLOWER);
    assert_eq!(es.voted_for(), Some("n1".to_string()));
    assert!(es.get_leader().is_none());
    assert!(es.advance_term(0).is_err());
    assert!(es.advance_term(1).is_ok());
    assert_eq!(es.voted_for(), Some("n1".to_string()));
    assert!(es.advance_term(2).is_ok());
    assert_eq!(es.voted_for(), None);
}

#[test]
fn raft_state_log_operations() {
    let mut rs = RaftState::init("n1".to_string(), strings(&["n2", "n3"]));
    assert_eq!(rs.peer_count(), 2);
    assert_eq!(rs.peer(1), "n3");
    assert_eq!(rs.node_id(), "n1");
    rs.append_single_entry(write(1, 1, 1), 1);
    rs.append_single_entry(write(2, 2, 2), 2);
    assert_eq!(rs.log_last().term, 2);
    assert_eq!(rs.log_from_index(2).len(), 2);
    assert_eq!(rs.log_from_index(0).len(), 0);
    rs.truncate_log(2);
    assert_eq!(rs.log_size(), 2);
    rs.init_log("n1".to_string());
    assert_eq!(rs.log_size(), 1);
    assert!(rs.log_entry(2).is_none());
    assert_eq!(rs.cas_value(9, 1, 2).err().unwrap().code, 20);
}

#[test]
fn timeouts_from_draws() {
    assert_eq!(timeout_from(0), 3000);
    assert_eq!(timeout_from(9), 12000);
    assert_eq!(timeout_from(23), 6000);
    assert_eq!(loop_pause_from(0), 50);
    assert_eq!(loop_pause_from(199), 149);
    assert_eq!(backoff_from(949), 999);
    assert_eq!(backoff_from(950), 50);
}

#[test]
fn vote_responses_and_heartbeats_restart_timers() {
    let n1 = RaftState::init("n1".to_string(), strings(&["n2", "n3"]));
    let mut e1 = ElectionState::init(&n1, 0);
    e1.become_candidate(&n1, 0);
    let mut election = Election::start(&n1, 1);
    e1.count_vote(&n1, &mut election, 1, true, "n2".to_string(), 100_000);
    assert!(e1.step_down_time() >= 103_000 && e1.step_down_time() <= 112_000);

    let mut n2 = RaftState::init("n2".to_string(), strings(&["n1"]));
    let mut e2 = ElectionState::init(&n2, 0);
    let req = AppendEntries {
        term: 1,
        leader_id: "n1".to_string(),
        prev_log_index: 1,
        prev_log_term: 0,
        entries: vec![],
        leader_commit: 1,
    };
    e2.handle_append_entries(&mut n2, req, 1, 50_000).ok().unwrap();
    assert!(e2.next_election_time() >= 53_000 && e2.next_election_time() <= 62_000);
}
