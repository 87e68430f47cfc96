use raft_core::codec::{DecodeError, LogEntry};
use raft_core::rpc::{AppendEntriesReq, RequestVoteReq};

fn vote() -> RequestVoteReq {
    RequestVoteReq { term: 8, candidate_id: 3, last_log_index: 12, last_log_term: 7 }
}

fn append() -> AppendEntriesReq {
    AppendEntriesReq {
        term: 9,
        leader_id: 1,
        prev_log_index: 4,
        prev_log_term: 8,
        entries: vec![
            LogEntry { command: vec![1, 2, 3], index: 5, term: 9, client_id: 11 },
            LogEntry { command: vec![7; 1000], index: 6, term: 9, client_id: 12 },
        ],
        leader_commit: 3,
    }
}

#[test]
fn request_vote_frame_layout_and_round_trip() {
    let id = [0xab; 16];
    let f = vote().encode(id, 42);
    assert_eq!(f.len(), 61);
    assert_eq!(&f[0..16], &id);
    assert_eq!(&f[16..24], &42u64.to_le_bytes());
    assert_eq!(f[24], 0);
    assert_eq!(&f[25..33], &8u64.to_le_bytes());
    assert_eq!(&f[57..61], &crc32c::crc32c(&f[0..57]).to_le_bytes());
    let (rid, sender, req) = RequestVoteReq::decode(&f).unwrap();
    assert_eq!(rid, id.to_vec());
    assert_eq!(sender, 42);
    assert_eq!(req, vote());
}

#[test]
fn request_vote_frame_errors() {
    let f = vote().encode([1; 16], 2);
    assert_eq!(RequestVoteReq::decode(&f[..60].to_vec()).unwrap_err(), DecodeError::IncompleteRead);
    for i in 0..f.len() {
        let mut g = f.clone();
        g[i] ^= 0x10;
        assert_eq!(RequestVoteReq::decode(&g).unwrap_err(), DecodeError::CorruptEntry, "byte {}", i);
    }
    let a = append().encode([1; 16], 2);
    assert_eq!(RequestVoteReq::decode(&a).unwrap_err(), DecodeError::CorruptEntry);
}

#[test]
fn append_entries_frame_round_trip() {
    let f = append().encode([5; 16], 1);
    assert_eq!(f[24], 1);
    assert_eq!(&f[65..73], &2u64.to_le_bytes());
    assert_eq!(f.len(), 73 + 512 + 1536 + 4);
    let (rid, sender, req) = AppendEntriesReq::decode(&f).unwrap();
    assert_eq!(rid, vec![5; 16]);
    assert_eq!(sender, 1);
    assert_eq!(req.term, 9);
    assert_eq!(req.leader_id, 1);
    assert_eq!(req.prev_log_index, 4);
    assert_eq!(req.prev_log_term, 8);
    assert_eq!(req.leader_commit, 3);
    assert_eq!(req.entries.len(), 2);
    assert_eq!(req.entries[1].command, vec![7; 1000]);
    assert_eq!(req.entries[1].client_id, 12);
}

#[test]
fn append_entries_frame_errors() {
    let f = append().encode([5; 16], 1);
    let mut g = f.clone();
    g[700] ^= 1;
    assert_eq!(AppendEntriesReq::decode(&g).unwrap_err(), DecodeError::CorruptEntry);
    assert_eq!(AppendEntriesReq::decode(&f[..76].to_vec()).unwrap_err(), DecodeError::IncompleteRead);
    let v = vote().encode([1; 16], 2);
    assert_eq!(AppendEntriesReq::decode(&v).unwrap_err(), DecodeError::IncompleteRead);
    let empty = AppendEntriesReq { entries: vec![], ..append() };
    let e = empty.encode([0; 16], 0);
    assert_eq!(e.len(), 77);
    assert_eq!(AppendEntriesReq::decode(&e).unwrap().2.entries.len(), 0);
}

#[test]
fn send_rpc_uses_fresh_ids() {
    let a = vote().send_rpc(4);
    let b = vote().send_rpc(4);
    assert_ne!(&a[0..16], &b[0..16]);
    let (_, sender, req) = RequestVoteReq::decode(&a).unwrap();
    assert_eq!(sender, 4);
    assert_eq!(req, vote());
    let c = append().send_rpc(6);
    let (_, sender, req) = AppendEntriesReq::decode(&c).unwrap();
    assert_eq!(sender, 6);
    assert_eq!(req.entries.len(), 2);
}
