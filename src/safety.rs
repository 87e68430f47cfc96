//! Safety properties of the consensus rules.
use vstd::prelude::*;
use vstd::set_lib::{lemma_len_subset, lemma_set_disjoint_lens};
use crate::codec::EntryModel;
use crate::node::{
    count_at_least, grants_vote, holds_prev, is_majority, merged, term_at, vote_after, RaftNode,
};
use crate::rpc::RequestVoteReq;

verus! {

/// The voters, among `ballots`, that voted for `c`; `ballots[i]` is the vote
/// node `i` cast in one term.
pub open spec fn voters_for(ballots: Seq<Option<u64>>, c: u64) -> Set<int> {
    Set::new(|i: int| 0 <= i < ballots.len() && ballots[i] == Some(c))
}

/// Two logs that agree on the term at a position agree on every entry up
/// to and including it.
pub open spec fn log_matching(a: Seq<EntryModel>, b: Seq<EntryModel>) -> bool {
    forall|i: int|
        0 <= i < a.len() && i < b.len() && #[trigger] a[i].term == #[trigger] b[i].term ==> a.take(
            i + 1,
        ) == b.take(i + 1)
}

/// A node grants at most one candidate its vote in a term: after granting
/// `r1`, the node grants `r2` of the same term only to the same candidate.
pub proof fn lemma_one_vote_per_term(
    current_term: u64,
    voted_for: Option<u64>,
    log: Seq<EntryModel>,
    r1: RequestVoteReq,
    r2: RequestVoteReq,
)
    requires
        grants_vote(current_term, voted_for, log, r1),
        grants_vote(r1.term, vote_after(current_term, voted_for, log, r1), log, r2),
        r1.term == r2.term,
    ensures
        r1.candidate_id == r2.candidate_id,
{
}

/// Election safety: in one term, where every node casts at most one vote,
/// two candidates that each won a majority of the votes are the same.
pub proof fn lemma_election_safety(ballots: Seq<Option<u64>>, a: u64, b: u64)
    requires
        2 * voters_for(ballots, a).len() > ballots.len(),
        2 * voters_for(ballots, b).len() > ballots.len(),
    ensures
        a == b,
{
    let all = Set::new(|i: int| 0 <= i < ballots.len());
    assert(all =~= vstd::set_lib::set_int_range(0, ballots.len() as int));
    vstd::set_lib::lemma_int_range(0, ballots.len() as int);
    let va = voters_for(ballots, a);
    let vb = voters_for(ballots, b);
    assert(va.subset_of(all));
    assert(vb.subset_of(all));
    lemma_len_subset(va, all);
    lemma_len_subset(vb, all);
    if a != b {
        assert(va.disjoint(vb));
        lemma_set_disjoint_lens(va, vb);
        assert((va + vb).subset_of(all));
        lemma_len_subset(va + vb, all);
    }
}

/// Log matching is kept by replication: when a follower whose log matches
/// the leader's accepts entries `leader[p..q]` placed after the leader's
/// entry `p`, its new log still matches the leader's. The new log is either
/// unchanged or the leader's first `q` entries.
pub proof fn lemma_log_matching_preserved(
    leader: Seq<EntryModel>,
    follower: Seq<EntryModel>,
    p: u64,
    q: int,
)
    requires
        log_matching(leader, follower),
        p <= q <= leader.len(),
        holds_prev(follower, p, term_at(leader, p)),
    ensures
        log_matching(leader, merged(follower, p as nat, leader.subrange(p as int, q))),
        merged(follower, p as nat, leader.subrange(p as int, q)) == follower || merged(
            follower,
            p as nat,
            leader.subrange(p as int, q),
        ) == leader.take(q),
{
    let e = leader.subrange(p as int, q);
    let m = merged(follower, p as nat, e);
    crate::node::lemma_first_conflict_bounds(follower, p as nat, e);
    if p > 0 {
        assert(leader[p - 1].term == follower[p - 1].term);
        assert(leader.take(p as int) == follower.take(p as int));
    }
    let agree_to = match crate::node::first_conflict(follower, p as nat, e) {
        Some(c) => c as int,
        None => if q < follower.len() {
            q
        } else {
            follower.len() as int
        },
    };
    assert forall|j: int| 0 <= j < agree_to implies #[trigger] follower[j] == leader[j] by {
        if j < p {
            assert(follower.take(p as int)[j] == leader.take(p as int)[j]);
        } else {
            assert(follower[j].term == e[j - p].term);
            assert(follower.take(j + 1) == leader.take(j + 1));
            assert(follower.take(j + 1)[j] == leader.take(j + 1)[j]);
        }
    }
    if m != follower {
        assert(m =~= leader.take(q));
        assert forall|i: int|
            0 <= i < leader.len() && i < m.len() && #[trigger] leader[i].term
                == #[trigger] m[i].term implies leader.take(i + 1) == m.take(i + 1) by {
            assert(leader.take(i + 1) =~= m.take(i + 1));
        }
    }
}

/// The peers whose `match_index` is at least `n`.
pub open spec fn peers_holding(match_index: Seq<u64>, n: u64) -> Set<int> {
    Set::new(|p: int| 0 <= p < match_index.len() && match_index[p] >= n)
}

/// `count_at_least` counts the peers that hold `n`.
pub proof fn lemma_count_is_peers_holding(m: Seq<u64>, n: u64)
    ensures
        peers_holding(m, n).finite(),
        count_at_least(m, n) == peers_holding(m, n).len(),
    decreases m.len(),
{
    if m.len() == 0 {
        assert(peers_holding(m, n) =~= Set::empty());
    } else {
        let d = m.drop_last();
        lemma_count_is_peers_holding(d, n);
        let last = m.len() - 1;
        if m.last() >= n {
            assert(peers_holding(m, n) =~= peers_holding(d, n).insert(last));
        } else {
            assert(peers_holding(m, n) =~= peers_holding(d, n));
        }
    }
}

/// A leader commits index `n` only when the entry there was created in its
/// current term and the leader together with the peers holding `n` form a
/// majority of the cluster: replication count alone never commits an entry of
/// an earlier term.
pub proof fn lemma_commit_rule(node: RaftNode, n: u64)
    requires
        node.may_commit(n),
    ensures
        1 <= n <= node.log@.len(),
        node.log_view()[n - 1].term == node.current_term,
        is_majority(1 + peers_holding(node.match_index@, n).len(), node.cluster_size()),
{
    lemma_count_is_peers_holding(node.match_index@, n);
}

} // verus!
