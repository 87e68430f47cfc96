use raft_core::codec::LogEntry;
use raft_core::node::{RaftCluster, RaftNode, Role};
use raft_core::rpc::{AppendEntriesReply, AppendEntriesReq, RequestVoteReply, RequestVoteReq};

fn le(index: u64, term: u64) -> LogEntry {
    LogEntry { command: format!("cmd{}", index).into_bytes(), index, term, client_id: 9 }
}

fn node_with(term: u64, voted_for: Option<u64>, log: Vec<LogEntry>) -> RaftNode {
    RaftNode::restore(1, vec![0, 2], term, voted_for, log).unwrap()
}

#[test]
fn grants_vote_to_up_to_date_candidate() {
    let mut n = node_with(5, None, vec![]);
    let reply = n.request_vote(&RequestVoteReq {
        term: 5,
        candidate_id: 2,
        last_log_index: 0,
        last_log_term: 0,
    });
    assert_eq!(reply, RequestVoteReply { term: 5, vote_granted: true });
    assert_eq!(n.voted_for, Some(2));
}

#[test]
fn appends_after_matching_entry_and_commits() {
    let mut n = node_with(1, None, vec![le(1, 1)]);
    assert_eq!(n.commit_index, 0);
    let reply = n.append_entries(&AppendEntriesReq {
        term: 2,
        leader_id: 0,
        prev_log_index: 1,
        prev_log_term: 1,
        entries: vec![le(2, 2)],
        leader_commit: 2,
    });
    assert!(reply.success);
    assert_eq!(reply.term, 2);
    assert_eq!(n.log.len(), 2);
    assert_eq!(n.log[1].term, 2);
    assert_eq!(n.commit_index, 2);
    assert_eq!(n.current_term, 2);
}

#[test]
fn conflicting_entry_is_replaced() {
    let mut n = node_with(1, None, vec![le(1, 1), le(2, 1)]);
    let reply = n.append_entries(&AppendEntriesReq {
        term: 3,
        leader_id: 0,
        prev_log_index: 1,
        prev_log_term: 1,
        entries: vec![le(2, 3)],
        leader_commit: 2,
    });
    assert!(reply.success);
    assert_eq!(reply.term, 3);
    assert_eq!(n.log.len(), 2);
    assert_eq!(n.log[0].term, 1);
    assert_eq!(n.log[1].term, 3);
    assert_eq!(n.commit_index, 2);
}

#[test]
fn one_vote_per_term() {
    let mut n = node_with(4, None, vec![]);
    let a = RequestVoteReq { term: 4, candidate_id: 0, last_log_index: 0, last_log_term: 0 };
    let b = RequestVoteReq { term: 4, candidate_id: 2, last_log_index: 0, last_log_term: 0 };
    assert!(n.request_vote(&a).vote_granted);
    assert!(!n.request_vote(&b).vote_granted);
    assert!(n.request_vote(&a).vote_granted);
    let c = RequestVoteReq { term: 5, candidate_id: 2, last_log_index: 0, last_log_term: 0 };
    assert_eq!(n.request_vote(&c), RequestVoteReply { term: 5, vote_granted: true });
}

#[test]
fn stale_or_outdated_candidates_are_refused() {
    let mut n = node_with(4, None, vec![le(1, 2), le(2, 3)]);
    let stale = RequestVoteReq { term: 3, candidate_id: 0, last_log_index: 9, last_log_term: 9 };
    assert_eq!(n.request_vote(&stale), RequestVoteReply { term: 4, vote_granted: false });
    let older_term = RequestVoteReq { term: 6, candidate_id: 0, last_log_index: 5, last_log_term: 2 };
    assert_eq!(n.request_vote(&older_term), RequestVoteReply { term: 6, vote_granted: false });
    assert_eq!(n.voted_for, None);
    let shorter = RequestVoteReq { term: 6, candidate_id: 0, last_log_index: 1, last_log_term: 3 };
    assert!(!n.request_vote(&shorter).vote_granted);
    let equal = RequestVoteReq { term: 6, candidate_id: 0, last_log_index: 2, last_log_term: 3 };
    assert!(n.request_vote(&equal).vote_granted);
}

#[test]
fn stale_append_is_refused_without_change() {
    let mut n = node_with(5, Some(0), vec![le(1, 1)]);
    let reply = n.append_entries(&AppendEntriesReq {
        term: 4,
        leader_id: 0,
        prev_log_index: 1,
        prev_log_term: 1,
        entries: vec![le(2, 4)],
        leader_commit: 2,
    });
    assert_eq!(reply, AppendEntriesReply { term: 5, success: false, match_index: 0 });
    assert_eq!(n.log.len(), 1);
}

#[test]
fn missing_previous_entry_is_refused() {
    let mut n = node_with(1, None, vec![le(1, 1)]);
    let reply = n.append_entries(&AppendEntriesReq {
        term: 2,
        leader_id: 0,
        prev_log_index: 2,
        prev_log_term: 2,
        entries: vec![le(3, 2)],
        leader_commit: 0,
    });
    assert!(!reply.success);
    assert_eq!(n.log.len(), 1);
    let reply = n.append_entries(&AppendEntriesReq {
        term: 2,
        leader_id: 0,
        prev_log_index: 1,
        prev_log_term: 2,
        entries: vec![],
        leader_commit: 0,
    });
    assert!(!reply.success);
}

#[test]
fn misnumbered_entries_are_refused() {
    let mut n = node_with(1, None, vec![]);
    let reply = n.append_entries(&AppendEntriesReq {
        term: 1,
        leader_id: 0,
        prev_log_index: 0,
        prev_log_term: 0,
        entries: vec![le(2, 1)],
        leader_commit: 0,
    });
    assert!(!reply.success);
    assert!(n.log.is_empty());
}

#[test]
fn matching_entries_are_kept_and_commit_never_drops() {
    let mut n = node_with(1, None, vec![le(1, 1), le(2, 1), le(3, 1)]);
    let r = n.append_entries(&AppendEntriesReq {
        term: 1,
        leader_id: 0,
        prev_log_index: 0,
        prev_log_term: 0,
        entries: vec![le(1, 1)],
        leader_commit: 3,
    });
    assert!(r.success);
    assert_eq!(r.match_index, 1);
    assert_eq!(n.log.len(), 3);
    assert_eq!(n.commit_index, 1);
    let r = n.append_entries(&AppendEntriesReq {
        term: 1,
        leader_id: 0,
        prev_log_index: 3,
        prev_log_term: 1,
        entries: vec![],
        leader_commit: 3,
    });
    assert!(r.success);
    assert_eq!(n.commit_index, 3);
    let r = n.append_entries(&AppendEntriesReq {
        term: 1,
        leader_id: 0,
        prev_log_index: 0,
        prev_log_term: 0,
        entries: vec![],
        leader_commit: 1,
    });
    assert!(r.success);
    assert_eq!(n.commit_index, 3);
}

#[test]
fn committed_entries_are_never_cut() {
    let mut n = node_with(1, None, vec![le(1, 1), le(2, 1)]);
    n.append_entries(&AppendEntriesReq {
        term: 1,
        leader_id: 0,
        prev_log_index: 2,
        prev_log_term: 1,
        entries: vec![],
        leader_commit: 2,
    });
    assert_eq!(n.commit_index, 2);
    let r = n.append_entries(&AppendEntriesReq {
        term: 2,
        leader_id: 2,
        prev_log_index: 0,
        prev_log_term: 0,
        entries: vec![le(1, 2)],
        leader_commit: 2,
    });
    assert!(!r.success);
    assert_eq!(n.log[0].term, 1);
}

#[test]
fn restore_rejects_misnumbered_log() {
    assert!(RaftNode::restore(1, vec![0], 1, None, vec![le(2, 1)]).is_none());
    assert!(RaftNode::restore(1, vec![0], 1, None, vec![le(1, 1), le(2, 1)]).is_some());
}

#[test]
fn election_replication_and_commit_in_a_cluster() {
    let mut c = RaftCluster::new(3);
    let req = c.raft_nodes[0].start_election().unwrap();
    assert_eq!(req, RequestVoteReq { term: 1, candidate_id: 0, last_log_index: 0, last_log_term: 0 });
    assert_eq!(c.raft_nodes[0].role, Role::Candidate);
    let r1 = c.raft_nodes[1].request_vote(&req);
    assert!(r1.vote_granted);
    c.raft_nodes[0].handle_vote_reply(1, &r1);
    assert_eq!(c.raft_nodes[0].role, Role::Leader);
    let r2 = c.raft_nodes[2].request_vote(&req);
    c.raft_nodes[0].handle_vote_reply(2, &r2);
    assert_eq!(c.raft_nodes[0].votes.len(), 2);
    assert_eq!(c.leaders_in_term(1), 1);

    assert_eq!(c.raft_nodes[0].propose(b"put a 1".to_vec(), 77), Some(1));
    assert_eq!(c.raft_nodes[1].propose(b"put b 2".to_vec(), 77), None);
    let ae = c.raft_nodes[0].replicate_request(0).unwrap();
    assert_eq!(ae.prev_log_index, 0);
    assert_eq!(ae.entries.len(), 1);
    let reply = c.raft_nodes[1].append_entries(&ae);
    assert_eq!(reply, AppendEntriesReply { term: 1, success: true, match_index: 1 });
    assert_eq!(c.raft_nodes[0].commit_index, 0);
    c.raft_nodes[0].handle_append_reply(0, &reply);
    assert_eq!(c.raft_nodes[0].match_index[0], 1);
    assert_eq!(c.raft_nodes[0].next_index[0], 2);
    assert_eq!(c.raft_nodes[0].commit_index, 1);
    let applied = c.raft_nodes[0].apply_next().unwrap();
    assert_eq!(applied.command, b"put a 1".to_vec());
    assert!(c.raft_nodes[0].apply_next().is_none());
    assert_eq!(c.raft_nodes[0].last_applied, 1);
}

#[test]
fn failed_replication_steps_next_index_back() {
    let mut c = RaftCluster::new(3);
    c.raft_nodes[0].start_election().unwrap();
    c.raft_nodes[0].handle_vote_reply(1, &RequestVoteReply { term: 1, vote_granted: true });
    c.raft_nodes[0].propose(vec![1], 1).unwrap();
    c.raft_nodes[0].propose(vec![2], 1).unwrap();
    assert_eq!(c.raft_nodes[0].next_index[1], 1);
    c.raft_nodes[0].handle_append_reply(1, &AppendEntriesReply { term: 1, success: false, match_index: 0 });
    assert_eq!(c.raft_nodes[0].next_index[1], 1);
    c.raft_nodes[0].handle_append_reply(1, &AppendEntriesReply { term: 1, success: true, match_index: 2 });
    assert_eq!(c.raft_nodes[0].next_index[1], 3);
    c.raft_nodes[0].handle_append_reply(1, &AppendEntriesReply { term: 1, success: false, match_index: 0 });
    assert_eq!(c.raft_nodes[0].next_index[1], 2);
    c.raft_nodes[0].handle_append_reply(1, &AppendEntriesReply { term: 4, success: false, match_index: 0 });
    assert_eq!(c.raft_nodes[0].role, Role::Follower);
    assert_eq!(c.raft_nodes[0].current_term, 4);
}

#[test]
fn entries_of_older_terms_are_not_committed_by_count() {
    let mut n = RaftNode::restore(0, vec![1, 2], 1, None, vec![le(1, 1)]).unwrap();
    n.start_election().unwrap();
    assert_eq!(n.current_term, 2);
    n.handle_vote_reply(1, &RequestVoteReply { term: 2, vote_granted: true });
    assert_eq!(n.role, Role::Leader);
    n.handle_append_reply(0, &AppendEntriesReply { term: 2, success: true, match_index: 1 });
    n.handle_append_reply(1, &AppendEntriesReply { term: 2, success: true, match_index: 1 });
    assert_eq!(n.commit_index, 0);
    assert_eq!(n.propose(vec![5], 1), Some(2));
    n.handle_append_reply(0, &AppendEntriesReply { term: 2, success: true, match_index: 2 });
    assert_eq!(n.commit_index, 2);
}

#[test]
fn single_node_leads_at_once() {
    let mut n = RaftNode::new(0, vec![]);
    n.start_election().unwrap();
    assert_eq!(n.role, Role::Leader);
    assert!(n.start_election().is_none());
}

#[test]
fn leader_steps_down_on_current_term_append() {
    let mut c = RaftCluster::new(3);
    c.raft_nodes[0].start_election().unwrap();
    c.raft_nodes[0].handle_vote_reply(2, &RequestVoteReply { term: 1, vote_granted: true });
    assert_eq!(c.raft_nodes[0].role, Role::Leader);
    c.raft_nodes[0].propose(vec![1], 1).unwrap();
    let r = c.raft_nodes[0].append_entries(&AppendEntriesReq {
        term: 0,
        leader_id: 1,
        prev_log_index: 0,
        prev_log_term: 0,
        entries: vec![],
        leader_commit: 0,
    });
    assert!(!r.success);
    assert_eq!(c.raft_nodes[0].role, Role::Leader);
    assert_eq!(c.raft_nodes[0].log.len(), 1);
}

#[test]
fn leader_log_only_grows() {
    let mut n = RaftNode::new(0, vec![]);
    n.start_election().unwrap();
    n.propose(vec![1], 1).unwrap();
    n.propose(vec![2], 1).unwrap();
    let before: Vec<(u64, u64)> = n.log.iter().map(|e| (e.index, e.term)).collect();
    n.propose(vec![3], 1).unwrap();
    let r = n.append_entries(&AppendEntriesReq {
        term: 0,
        leader_id: 5,
        prev_log_index: 0,
        prev_log_term: 0,
        entries: vec![le(1, 0)],
        leader_commit: 0,
    });
    assert!(!r.success);
    assert_eq!(n.role, Role::Leader);
    let after: Vec<(u64, u64)> = n.log.iter().map(|e| (e.index, e.term)).collect();
    assert_eq!(&after[..2], &before[..]);
    assert_eq!(after.len(), 3);
}

#[test]
fn replicated_follower_log_matches_leader() {
    let mut c = RaftCluster::new(3);
    c.raft_nodes[0].start_election().unwrap();
    c.raft_nodes[0].handle_vote_reply(1, &RequestVoteReply { term: 1, vote_granted: true });
    for k in 0..3u8 {
        c.raft_nodes[0].propose(vec![k; 600], 1).unwrap();
    }
    c.raft_nodes[2].append_entries(&AppendEntriesReq {
        term: 1,
        leader_id: 0,
        prev_log_index: 0,
        prev_log_term: 0,
        entries: vec![le(1, 0), le(2, 0)],
        leader_commit: 0,
    });
    assert_eq!(c.raft_nodes[2].log.len(), 2);
    for _ in 0..4 {
        let req = c.raft_nodes[0].replicate_request(1).unwrap();
        let reply = c.raft_nodes[2].append_entries(&req);
        c.raft_nodes[0].handle_append_reply(1, &reply);
    }
    let leader: Vec<(u64, u64, Vec<u8>)> =
        c.raft_nodes[0].log.iter().map(|e| (e.index, e.term, e.command.clone())).collect();
    let follower: Vec<(u64, u64, Vec<u8>)> =
        c.raft_nodes[2].log.iter().map(|e| (e.index, e.term, e.command.clone())).collect();
    assert_eq!(leader, follower);
    assert_eq!(c.raft_nodes[0].match_index[1], 3);
    assert_eq!(c.raft_nodes[0].commit_index, 3);
}
