//! The consensus state machine of one node.
use vstd::prelude::*;
use crate::codec::{entries_view, EntryModel, LogEntry};
use crate::rpc::{AppendEntriesReply, AppendEntriesReq, RequestVoteReply, RequestVoteReq};

verus! {

/// What a node currently believes itself to be.
#[derive(Clone, Copy, Debug, PartialEq, Eq, Structural)]
pub enum Role {
    Follower,
    Candidate,
    Leader,
}

/// One node: persistent state (`current_term`, `voted_for`, `log`) and
/// volatile state (everything else). `next_index[k]` and `match_index[k]`
/// belong to `peers[k]`; `votes` lists who granted a vote in the current
/// election, the node itself included.
#[derive(Debug)]
pub struct RaftNode {
    pub id: u64,
    pub peers: Vec<u64>,
    pub current_term: u64,
    pub voted_for: Option<u64>,
    pub log: Vec<LogEntry>,
    pub role: Role,
    pub commit_index: u64,
    pub last_applied: u64,
    pub next_index: Vec<u64>,
    pub match_index: Vec<u64>,
    pub votes: Vec<u64>,
}

/// The term of the last entry of `log`, 0 for an empty log.
pub open spec fn last_term(log: Seq<EntryModel>) -> u64 {
    if log.len() == 0 {
        0
    } else {
        log.last().term
    }
}

/// Whether a log whose last entry is (`index`, `term`) is at least as
/// up to date as `log`: compared by term first, then by index.
pub open spec fn at_least_as_up_to_date(term: u64, index: u64, log: Seq<EntryModel>) -> bool {
    term > last_term(log) || (term == last_term(log) && index >= log.len())
}

/// Entry `i` (0-based) holds index `i + 1`.
pub open spec fn log_indexed(log: Seq<EntryModel>) -> bool {
    forall|i: int| 0 <= i < log.len() ==> #[trigger] log[i].index == i + 1
}

/// Whether a node in `current_term` that voted for `voted_for` and holds
/// `log` grants the vote `req` asks for.
pub open spec fn grants_vote(
    current_term: u64,
    voted_for: Option<u64>,
    log: Seq<EntryModel>,
    req: RequestVoteReq,
) -> bool {
    &&& req.term >= current_term
    &&& (req.term > current_term || voted_for is None || voted_for == Some(req.candidate_id))
    &&& at_least_as_up_to_date(req.last_log_term, req.last_log_index, log)
}

/// The vote recorded after answering `req`.
pub open spec fn vote_after(
    current_term: u64,
    voted_for: Option<u64>,
    log: Seq<EntryModel>,
    req: RequestVoteReq,
) -> Option<u64> {
    if grants_vote(current_term, voted_for, log, req) {
        Some(req.candidate_id)
    } else if req.term > current_term {
        None
    } else {
        voted_for
    }
}

/// The position (0-based) of the first of `entries` that disagrees in term
/// with the entry at the same position of `log`, placing `entries` from `p` on.
pub open spec fn first_conflict(log: Seq<EntryModel>, p: nat, entries: Seq<EntryModel>) -> Option<
    nat,
>
    decreases entries.len(),
{
    if entries.len() == 0 || p >= log.len() {
        None
    } else if log[p as int].term != entries[0].term {
        Some(p)
    } else {
        first_conflict(log, p + 1, entries.drop_first())
    }
}

/// `log` after placing `entries` from position `p` on: from the first conflict
/// on the log is cut and the rest of `entries` follows; entries that agree are kept.
pub open spec fn merged(log: Seq<EntryModel>, p: nat, entries: Seq<EntryModel>) -> Seq<EntryModel> {
    match first_conflict(log, p, entries) {
        Some(c) => log.take(c as int) + entries.skip(c - p),
        None => if p + entries.len() <= log.len() {
            log
        } else {
            log + entries.skip(log.len() - p)
        },
    }
}

/// `entries` carry the indices `prev + 1`, `prev + 2`, ...
pub open spec fn entries_indexed(entries: Seq<EntryModel>, prev: u64) -> bool {
    forall|k: int| 0 <= k < entries.len() ==> #[trigger] entries[k].index == prev + 1 + k
}

/// The term of the entry at `index` (1-based) of `log`, 0 for index 0.
pub open spec fn term_at(log: Seq<EntryModel>, index: u64) -> u64 {
    if index == 0 {
        0
    } else {
        log[index - 1].term
    }
}

/// `log` holds an entry at `index` with `term`, or `index` is 0.
pub open spec fn holds_prev(log: Seq<EntryModel>, index: u64, term: u64) -> bool {
    index == 0 || (index <= log.len() && log[index - 1].term == term)
}

/// Whether a node in `current_term` holding `log` with `commit_index`
/// accepts `req`: the term is current, the previous entry matches, the
/// entries are numbered on from it, and nothing committed would be cut.
pub open spec fn accepts(
    current_term: u64,
    log: Seq<EntryModel>,
    commit_index: u64,
    req: AppendEntriesReq,
) -> bool {
    let entries = entries_view(req.entries@);
    &&& req.term >= current_term
    &&& holds_prev(log, req.prev_log_index, req.prev_log_term)
    &&& req.prev_log_index + entries.len() < u64::MAX
    &&& entries_indexed(entries, req.prev_log_index)
    &&& match first_conflict(log, req.prev_log_index as nat, entries) {
        Some(c) => c >= commit_index,
        None => true,
    }
}

/// How many of `m` are at least `n`.
pub open spec fn count_at_least(m: Seq<u64>, n: u64) -> nat
    decreases m.len(),
{
    if m.len() == 0 {
        0
    } else {
        count_at_least(m.drop_last(), n) + if m.last() >= n {
            1nat
        } else {
            0nat
        }
    }
}

/// Whether more than half of a cluster of `size` holds `count` members.
pub open spec fn is_majority(count: nat, size: nat) -> bool {
    2 * count > size
}

impl RaftNode {
    /// Whether the leader knows index `n` to be held by a majority, itself included.
    pub open spec fn replicated_on_majority(&self, n: u64) -> bool {
        is_majority(count_at_least(self.match_index@, n) + 1, self.cluster_size())
    }

    /// Whether a leader may commit up to index `n`: the entry there is of its
    /// own term and a majority holds it.
    pub open spec fn may_commit(&self, n: u64) -> bool {
        &&& 1 <= n <= self.log@.len()
        &&& self.log_view()[n - 1].term == self.current_term
        &&& self.replicated_on_majority(n)
    }

    pub open spec fn log_view(&self) -> Seq<EntryModel> {
        entries_view(self.log@)
    }

    pub open spec fn cluster_size(&self) -> nat {
        self.peers@.len() + 1
    }

    /// The invariant every node keeps.
    pub open spec fn wf(&self) -> bool {
        &&& log_indexed(self.log_view())
        &&& self.log@.len() < u64::MAX
        &&& self.last_applied <= self.commit_index <= self.log@.len()
        &&& self.next_index@.len() == self.peers@.len()
        &&& self.match_index@.len() == self.peers@.len()
        &&& self.peers@.len() < usize::MAX
        &&& forall|k: int|
            0 <= k < self.peers@.len() ==> 1 <= #[trigger] self.next_index@[k] <= self.log@.len() + 1
        &&& forall|k: int| 0 <= k < self.peers@.len() ==> #[trigger] self.match_index@[k] <= self.log@.len()
        &&& self.votes@.no_duplicates()
        &&& forall|k: int|
            0 <= k < self.votes@.len() ==> #[trigger] self.votes@[k] == self.id || self.peers@.contains(
                self.votes@[k],
            )
    }

    /// What every transition keeps: terms never go back, a vote cast in a
    /// term is never changed within it, the commit index never goes back and
    /// nothing committed is undone, and a node that stays leader only appends
    /// to its log.
    pub open spec fn stable_step(&self, next: &RaftNode) -> bool {
        &&& next.wf()
        &&& next.id == self.id
        &&& next.peers@ == self.peers@
        &&& next.current_term >= self.current_term
        &&& (next.current_term == self.current_term && self.voted_for is Some ==> next.voted_for
            == self.voted_for)
        &&& next.commit_index >= self.commit_index
        &&& next.last_applied >= self.last_applied
        &&& next.log_view().take(self.commit_index as int) == self.log_view().take(
            self.commit_index as int,
        )
        &&& (self.role == Role::Leader && next.role == Role::Leader ==> self.log_view().is_prefix_of(
            next.log_view(),
        ))
    }

    /// A follower in term 0 with an empty log.
    pub fn new(id: u64, peers: Vec<u64>) -> (r: RaftNode)
        requires
            peers@.len() < usize::MAX,
        ensures
            r.wf(),
            r.id == id,
            r.peers@ == peers@,
            r.current_term == 0,
            r.voted_for is None,
            r.log@.len() == 0,
            r.role == Role::Follower,
            r.commit_index == 0,
    {
        let n = peers.len();
        let next_index = fill(n, 1);
        let match_index = fill(n, 0);
        RaftNode {
            id,
            peers,
            current_term: 0,
            voted_for: None,
            log: Vec::new(),
            role: Role::Follower,
            commit_index: 0,
            last_applied: 0,
            next_index,
            match_index,
            votes: Vec::new(),
        }
    }

    /// A follower rebuilt from persisted state after a restart; `None` when
    /// the log does not hold indices 1, 2, ... in order, or holds `u64::MAX` entries.
    pub fn restore(
        id: u64,
        peers: Vec<u64>,
        current_term: u64,
        voted_for: Option<u64>,
        log: Vec<LogEntry>,
    ) -> (r: Option<RaftNode>)
        requires
            peers@.len() < usize::MAX,
        ensures
            r is Some <==> log_indexed(entries_view(log@)) && log@.len() < u64::MAX,
            r matches Some(n) ==> {
                &&& n.wf()
                &&& n.id == id
                &&& n.peers@ == peers@
                &&& n.current_term == current_term
                &&& n.voted_for == voted_for
                &&& n.log_view() == entries_view(log@)
                &&& n.role == Role::Follower
                &&& n.commit_index == 0
                &&& n.last_applied == 0
            },
    {
        let mut i: usize = 0;
        while i < log.len()
            invariant
                i <= log@.len(),
                forall|j: int| 0 <= j < i ==> #[trigger] log@[j].index == j + 1,
            decreases log@.len() - i,
        {
            if log[i].index != i as u64 + 1 {
                assert(entries_view(log@)[i as int].index != i + 1);
                return None;
            }
            i = i + 1;
        }
        if log.len() as u64 == u64::MAX {
            return None;
        }
        let n = peers.len();
        let next_index = fill(n, log.len() as u64 + 1);
        let match_index = fill(n, 0);
        Some(
            RaftNode {
                id,
                peers,
                current_term,
                voted_for,
                log,
                role: Role::Follower,
                commit_index: 0,
                last_applied: 0,
                next_index,
                match_index,
                votes: Vec::new(),
            },
        )
    }

    /// The index and term of the last entry of the log, (0, 0) when it is empty.
    pub fn last_log(&self) -> (r: (u64, u64))
        requires
            self.wf(),
        ensures
            r.0 == self.log@.len(),
            r.1 == last_term(self.log_view()),
    {
        let n = self.log.len();
        if n == 0 {
            (0, 0)
        } else {
            proof {
                assert(self.log_view()[n - 1].index == n);
            }
            (self.log[n - 1].index, self.log[n - 1].term)
        }
    }

    /// Answers a request for a vote. A higher term is adopted first, with no
    /// vote cast in it and as a follower; the vote is then granted as
    /// [`grants_vote`] says and recorded.
    pub fn request_vote(&mut self, req: &RequestVoteReq) -> (r: RequestVoteReply)
        requires
            old(self).wf(),
        ensures
            old(self).stable_step(final(self)),
            r.vote_granted == grants_vote(
                old(self).current_term,
                old(self).voted_for,
                old(self).log_view(),
                *req,
            ),
            final(self).voted_for == vote_after(
                old(self).current_term,
                old(self).voted_for,
                old(self).log_view(),
                *req,
            ),
            final(self).current_term == if req.term > old(self).current_term {
                req.term
            } else {
                old(self).current_term
            },
            r.term == final(self).current_term,
            final(self).role == if req.term > old(self).current_term {
                Role::Follower
            } else {
                old(self).role
            },
            final(self).log@ == old(self).log@,
            final(self).commit_index == old(self).commit_index,
            final(self).last_applied == old(self).last_applied,
            final(self).next_index@ == old(self).next_index@,
            final(self).match_index@ == old(self).match_index@,
            final(self).votes@ == if req.term > old(self).current_term {
                Seq::empty()
            } else {
                old(self).votes@
            },
    {
        let (last_index, last_term_) = self.last_log();
        let up_to_date = req.last_log_term > last_term_ || (req.last_log_term == last_term_
            && req.last_log_index >= last_index);
        let term_ok = req.term >= self.current_term;
        let free = match self.voted_for {
            None => true,
            Some(c) => c == req.candidate_id,
        };
        let granted = term_ok && (req.term > self.current_term || free) && up_to_date;
        if req.term > self.current_term {
            self.step_down(req.term);
        }
        if granted {
            self.voted_for = Some(req.candidate_id);
        }
        RequestVoteReply { term: self.current_term, vote_granted: granted }
    }

    /// Adopts a higher term: no vote cast in it yet, and a follower.
    fn step_down(&mut self, term: u64)
        requires
            old(self).wf(),
            term > old(self).current_term,
        ensures
            final(self).wf(),
            final(self).current_term == term,
            final(self).voted_for is None,
            final(self).role == Role::Follower,
            final(self).votes@.len() == 0,
            final(self).id == old(self).id,
            final(self).peers == old(self).peers,
            final(self).log == old(self).log,
            final(self).commit_index == old(self).commit_index,
            final(self).last_applied == old(self).last_applied,
            final(self).next_index == old(self).next_index,
            final(self).match_index == old(self).match_index,
    {
        self.current_term = term;
        self.voted_for = None;
        self.role = Role::Follower;
        self.votes = Vec::new();
    }

    /// Answers a request to replicate entries. A stale term is refused and
    /// changes nothing. Otherwise the request's term is adopted (a higher one
    /// with no vote cast in it) and the node becomes a follower; when
    /// [`accepts`] holds the log becomes [`merged`] and the commit index
    /// moves up to the leader's, but not past the last entry the request placed.
    pub fn append_entries(&mut self, req: &AppendEntriesReq) -> (r: AppendEntriesReply)
        requires
            old(self).wf(),
        ensures
            old(self).stable_step(final(self)),
            r.term == final(self).current_term,
            r.success == accepts(
                old(self).current_term,
                old(self).log_view(),
                old(self).commit_index,
                *req,
            ),
            req.term < old(self).current_term ==> *final(self) == *old(self),
            req.term >= old(self).current_term ==> {
                &&& final(self).current_term == req.term
                &&& final(self).role == Role::Follower
                &&& final(self).voted_for == if req.term > old(self).current_term {
                    None
                } else {
                    old(self).voted_for
                }
            },
            r.success ==> {
                let last = req.prev_log_index + req.entries@.len();
                &&& final(self).log_view() == merged(
                    old(self).log_view(),
                    req.prev_log_index as nat,
                    entries_view(req.entries@),
                )
                &&& r.match_index == last
                &&& final(self).commit_index == if req.leader_commit > old(self).commit_index {
                    if req.leader_commit < last {
                        req.leader_commit as int
                    } else if last > old(self).commit_index {
                        last
                    } else {
                        old(self).commit_index as int
                    }
                } else {
                    old(self).commit_index as int
                }
            },
            !r.success ==> final(self).log@ == old(self).log@ && final(self).commit_index
                == old(self).commit_index && r.match_index == 0,
            final(self).last_applied == old(self).last_applied,
    {
        let ghost log0 = self.log_view();
        let ghost entries = entries_view(req.entries@);
        let fail = AppendEntriesReply { term: self.current_term, success: false, match_index: 0 };
        if req.term < self.current_term {
            return fail;
        }
        if req.term > self.current_term {
            self.step_down(req.term);
        } else {
            self.role = Role::Follower;
            self.votes = Vec::new();
        }
        let fail = AppendEntriesReply { term: self.current_term, success: false, match_index: 0 };
        let prev = req.prev_log_index;
        if prev > 0 {
            if prev > self.log.len() as u64 {
                return fail;
            }
            if self.log[(prev - 1) as usize].term != req.prev_log_term {
                assert(log0[prev - 1].term != req.prev_log_term);
                return fail;
            }
        }
        let m = req.entries.len();
        if prev >= u64::MAX - m as u64 {
            return fail;
        }
        if !numbered_from(&req.entries, prev) {
            return fail;
        }
        let np = self.peers.len();
        if !place_entries(&mut self.log, prev as usize, &req.entries, self.commit_index) {
            return fail;
        }
        proof {
            let log1 = self.log_view();
            assert forall|i: int| 0 <= i < log1.len() implies #[trigger] log1[i].index == i + 1 by {
                lemma_merged_indexed(log0, prev as nat, entries, i);
            }
            lemma_merged_keeps(log0, prev as nat, entries, self.commit_index as nat);
        }
        let last = prev + m as u64;
        if req.leader_commit > self.commit_index {
            if req.leader_commit < last {
                self.commit_index = req.leader_commit;
            } else if last > self.commit_index {
                self.commit_index = last;
            }
        }
        self.next_index = fill(np, 1);
        self.match_index = fill(np, 0);
        AppendEntriesReply { term: self.current_term, success: true, match_index: last }
    }

    /// Starts an election when the election timeout has elapsed: a follower
    /// or candidate moves to the next term as a candidate and votes for itself
    /// (alone in its cluster it is leader at once). Returns the request to
    /// send to every peer; `None`, changing nothing, for a leader or when the
    /// term cannot grow.
    pub fn start_election(&mut self) -> (r: Option<RequestVoteReq>)
        requires
            old(self).wf(),
        ensures
            old(self).stable_step(final(self)),
            r is None <==> old(self).role == Role::Leader || old(self).current_term == u64::MAX,
            r is None ==> *final(self) == *old(self),
            r matches Some(req) ==> {
                &&& final(self).current_term == old(self).current_term + 1
                &&& final(self).voted_for == Some(old(self).id)
                &&& final(self).votes@ == seq![old(self).id]
                &&& final(self).role == if is_majority(1, old(self).cluster_size()) {
                    Role::Leader
                } else {
                    Role::Candidate
                }
                &&& final(self).log@ == old(self).log@
                &&& req == RequestVoteReq {
                    term: final(self).current_term,
                    candidate_id: old(self).id,
                    last_log_index: old(self).log@.len() as u64,
                    last_log_term: last_term(old(self).log_view()),
                }
            },
    {
        if self.role == Role::Leader || self.current_term == u64::MAX {
            return None;
        }
        let (last_log_index, last_log_term) = self.last_log();
        self.current_term = self.current_term + 1;
        self.role = Role::Candidate;
        self.voted_for = Some(self.id);
        self.votes = Vec::new();
        self.votes.push(self.id);
        assert(self.votes@.no_duplicates());
        if self.peers.len() == 0 {
            self.become_leader();
        }
        Some(
            RequestVoteReq {
                term: self.current_term,
                candidate_id: self.id,
                last_log_index,
                last_log_term,
            },
        )
    }

    /// Takes the lead: every peer is presumed to need what follows the log,
    /// and nothing is known to be replicated yet.
    fn become_leader(&mut self)
        requires
            old(self).wf(),
        ensures
            final(self).wf(),
            final(self).role == Role::Leader,
            final(self).next_index@ == Seq::new(
                old(self).peers@.len(),
                |k: int| (old(self).log@.len() + 1) as u64,
            ),
            final(self).match_index@ == Seq::new(old(self).peers@.len(), |k: int| 0u64),
            final(self).id == old(self).id,
            final(self).peers == old(self).peers,
            final(self).current_term == old(self).current_term,
            final(self).voted_for == old(self).voted_for,
            final(self).log == old(self).log,
            final(self).commit_index == old(self).commit_index,
            final(self).last_applied == old(self).last_applied,
            final(self).votes == old(self).votes,
    {
        let n = self.peers.len();
        self.next_index = fill(n, self.log.len() as u64 + 1);
        self.match_index = fill(n, 0);
        self.role = Role::Leader;
    }

    /// Counts the answer `from` gave to this node's request for a vote. A
    /// higher term makes the node a follower in it. A vote granted to a
    /// candidate in its current term by a peer not yet counted is recorded,
    /// and a majority of votes, its own included, makes it leader.
    pub fn handle_vote_reply(&mut self, from: u64, reply: &RequestVoteReply)
        requires
            old(self).wf(),
        ensures
            old(self).stable_step(final(self)),
            reply.term > old(self).current_term ==> final(self).current_term == reply.term
                && final(self).role == Role::Follower && final(self).voted_for is None,
            reply.term <= old(self).current_term ==> final(self).current_term == old(
                self,
            ).current_term && final(self).voted_for == old(self).voted_for,
            final(self).log@ == old(self).log@,
            final(self).commit_index == old(self).commit_index,
            ({
                let counted = old(self).role == Role::Candidate && reply.term == old(
                    self,
                ).current_term && reply.vote_granted && old(self).peers@.contains(from)
                    && !old(self).votes@.contains(from);
                &&& counted ==> final(self).votes@ == old(self).votes@.push(from)
                &&& counted ==> final(self).role == if is_majority(
                    final(self).votes@.len(),
                    old(self).cluster_size(),
                ) {
                    Role::Leader
                } else {
                    Role::Candidate
                }
                &&& !counted && reply.term <= old(self).current_term ==> *final(self) == *old(
                    self,
                )
            }),
    {
        if reply.term > self.current_term {
            self.step_down(reply.term);
            return;
        }
        if self.role == Role::Candidate && reply.term == self.current_term && reply.vote_granted
            && contains(&self.peers, from) && !contains(&self.votes, from) {
            self.votes.push(from);
            if self.votes.len() > (self.peers.len() + 1) / 2 {
                self.become_leader();
            }
        }
    }

    /// A leader appends a client's command to its log as a new entry of its
    /// term; returns the entry's index. `None`, changing nothing, when the
    /// node is not leader or the log is full.
    pub fn propose(&mut self, command: Vec<u8>, client_id: u64) -> (r: Option<u64>)
        requires
            old(self).wf(),
        ensures
            old(self).stable_step(final(self)),
            r is None <==> old(self).role != Role::Leader || old(self).log@.len() + 1 >= u64::MAX,
            r is None ==> *final(self) == *old(self),
            r matches Some(i) ==> {
                &&& i == old(self).log@.len() + 1
                &&& final(self).log_view() == old(self).log_view().push(
                    EntryModel {
                        command: command@,
                        index: i,
                        term: old(self).current_term,
                        client_id,
                    },
                )
                &&& final(self).role == Role::Leader
                &&& final(self).current_term == old(self).current_term
                &&& final(self).commit_index == old(self).commit_index
            },
    {
        if self.role != Role::Leader || self.log.len() as u64 >= u64::MAX - 1 {
            return None;
        }
        let index = self.log.len() as u64 + 1;
        let ghost before = self.log_view();
        self.log.push(LogEntry { command, index, term: self.current_term, client_id });
        assert(self.log_view() =~= before.push(
            EntryModel { command: command@, index, term: self.current_term, client_id },
        ));
        assert(self.log_view().take(self.commit_index as int) =~= before.take(
            self.commit_index as int,
        ));
        Some(index)
    }

    /// The request a leader sends to `peers[k]`: the entries from
    /// `next_index[k]` on, after the entry just before them. `None` for a
    /// node that is not leader.
    pub fn replicate_request(&self, k: usize) -> (r: Option<AppendEntriesReq>)
        requires
            self.wf(),
            k < self.peers@.len(),
        ensures
            r is Some <==> self.role == Role::Leader,
            r matches Some(req) ==> {
                let prev = self.next_index@[k as int] - 1;
                &&& req.term == self.current_term
                &&& req.leader_id == self.id
                &&& req.prev_log_index == prev
                &&& req.prev_log_term == term_at(self.log_view(), prev as u64)
                &&& holds_prev(self.log_view(), req.prev_log_index, req.prev_log_term)
                &&& entries_view(req.entries@) == self.log_view().skip(prev)
                &&& req.leader_commit == self.commit_index
            },
    {
        if self.role != Role::Leader {
            return None;
        }
        proof {
            assert(1 <= self.next_index@[k as int] <= self.log@.len() + 1);
        }
        let prev = self.next_index[k] - 1;
        let prev_log_term = if prev == 0 {
            0
        } else {
            self.log[(prev - 1) as usize].term
        };
        let mut entries: Vec<LogEntry> = Vec::new();
        let n: usize = self.log.len();
        assert(prev <= n);
        let mut i: usize = prev as usize;
        assert(entries_view(entries@) =~= self.log_view().subrange(prev as int, i as int));
        while i < self.log.len()
            invariant
                prev <= i <= self.log@.len(),
                entries_view(entries@) == self.log_view().subrange(prev as int, i as int),
            decreases self.log@.len() - i,
        {
            let e = self.log[i].duplicate();
            let ghost before = entries_view(entries@);
            entries.push(e);
            assert(entries_view(entries@) =~= before.push(self.log_view()[i as int]));
            i = i + 1;
            assert(entries_view(entries@) =~= self.log_view().subrange(prev as int, i as int));
        }
        assert(self.log_view().skip(prev as int) =~= self.log_view().subrange(
            prev as int,
            self.log@.len() as int,
        ));
        Some(
            AppendEntriesReq {
                term: self.current_term,
                leader_id: self.id,
                prev_log_index: prev,
                prev_log_term,
                entries,
                leader_commit: self.commit_index,
            },
        )
    }

    /// Counts what `peers[k]` answered to a leader's request to replicate.
    /// A higher term makes the node a follower in it. For a leader in the
    /// reply's term, success moves the peer's cursors to the index it reports
    /// (when the log holds it) and then the commit index as [`Self::advance_commit`]
    /// does; failure steps the peer's next index back by one, but not below 1.
    pub fn handle_append_reply(&mut self, k: usize, reply: &AppendEntriesReply)
        requires
            old(self).wf(),
            k < old(self).peers@.len(),
        ensures
            old(self).stable_step(final(self)),
            final(self).log@ == old(self).log@,
            reply.term > old(self).current_term ==> final(self).current_term == reply.term
                && final(self).role == Role::Follower && final(self).voted_for is None,
            reply.term <= old(self).current_term ==> final(self).current_term == old(
                self,
            ).current_term && final(self).voted_for == old(self).voted_for && final(self).role
                == old(self).role,
            ({
                let leads = old(self).role == Role::Leader && reply.term == old(self).current_term;
                let m = reply.match_index;
                &&& leads && reply.success && m <= old(self).log@.len() ==> {
                    &&& final(self).match_index@ == old(self).match_index@.update(
                        k as int,
                        if m > old(self).match_index@[k as int] {
                            m
                        } else {
                            old(self).match_index@[k as int]
                        },
                    )
                    &&& final(self).next_index@ == old(self).next_index@.update(k as int, (m + 1) as u64)
                    &&& final(self).commit_index >= old(self).commit_index
                    &&& final(self).commit_index > old(self).commit_index ==> final(self).may_commit(
                        final(self).commit_index,
                    )
                    &&& forall|n: u64| n > final(self).commit_index ==> !final(self).may_commit(n)
                }
                &&& leads && !reply.success ==> {
                    &&& final(self).next_index@ == old(self).next_index@.update(
                        k as int,
                        if old(self).next_index@[k as int] > 1 {
                            (old(self).next_index@[k as int] - 1) as u64
                        } else {
                            1u64
                        },
                    )
                    &&& final(self).match_index@ == old(self).match_index@
                    &&& final(self).commit_index == old(self).commit_index
                }
                &&& !leads && reply.term <= old(self).current_term ==> *final(self) == *old(self)
                &&& leads && reply.success && m > old(self).log@.len() ==> *final(self) == *old(
                    self,
                )
            }),
    {
        if reply.term > self.current_term {
            self.step_down(reply.term);
            return;
        }
        if self.role != Role::Leader || reply.term != self.current_term {
            return;
        }
        if reply.success {
            let m = reply.match_index;
            if m > self.log.len() as u64 {
                return;
            }
            if m > self.match_index[k] {
                self.match_index.set(k, m);
            }
            self.next_index.set(k, m + 1);
            self.advance_commit();
        } else {
            let next = self.next_index[k];
            if next > 1 {
                self.next_index.set(k, next - 1);
            }
        }
    }

    /// A leader moves its commit index up to the highest index it may commit
    /// (see [`Self::may_commit`]), if that is above the present one.
    pub fn advance_commit(&mut self)
        requires
            old(self).wf(),
            old(self).role == Role::Leader,
        ensures
            old(self).stable_step(final(self)),
            *final(self) == (RaftNode { commit_index: final(self).commit_index, ..*old(self) }),
            final(self).commit_index >= old(self).commit_index,
            final(self).commit_index > old(self).commit_index ==> final(self).may_commit(
                final(self).commit_index,
            ),
            forall|n: u64| n > final(self).commit_index ==> !final(self).may_commit(n),
    {
        let mut n: u64 = self.log.len() as u64;
        let size = self.peers.len() + 1;
        let ghost s0 = *self;
        while n > self.commit_index
            invariant
                self.wf(),
                *self == s0,
                s0 == *old(self),
                n <= self.log@.len(),
                size == self.cluster_size(),
                forall|j: u64| n < j ==> !self.may_commit(j),
            decreases n,
        {
            let held = count_at_least_exec(&self.match_index, n);
            let len: usize = self.log.len();
            let at = (n - 1) as usize;
            let own_term = self.log[at].term == self.current_term;
            let majority = held + 1 > size / 2;
            proof {
                assert(self.log_view()[at as int].term == self.log@[at as int].term);
                assert(majority == is_majority((held + 1) as nat, size as nat));
                assert((own_term && majority) == self.may_commit(n));
            }
            if own_term && majority {
                let ghost before = *self;
                self.commit_index = n;
                proof {
                    assert(self.log_view() == before.log_view());
                    assert(forall|j: u64| #[trigger] self.may_commit(j) == before.may_commit(j));
                    assert(self.log_view().take(before.commit_index as int)
                        == before.log_view().take(before.commit_index as int));
                }
                return;
            }
            n = n - 1;
        }
    }

    /// Hands out the next committed entry not yet handed out, advancing
    /// `last_applied`; `None` when every committed entry has been.
    pub fn apply_next(&mut self) -> (r: Option<LogEntry>)
        requires
            old(self).wf(),
        ensures
            old(self).stable_step(final(self)),
            r is None <==> old(self).last_applied == old(self).commit_index,
            r is None ==> *final(self) == *old(self),
            r matches Some(e) ==> {
                &&& final(self).last_applied == old(self).last_applied + 1
                &&& e@ == old(self).log_view()[old(self).last_applied as int]
                &&& *final(self) == (RaftNode {
                    last_applied: final(self).last_applied,
                    ..*old(self)
                })
            },
    {
        if self.last_applied >= self.commit_index {
            return None;
        }
        let n: usize = self.log.len();
        let i = self.last_applied as usize;
        let e = self.log[i].duplicate();
        assert(e@ == self.log_view()[i as int]);
        self.last_applied = self.last_applied + 1;
        Some(e)
    }
}

/// Whether `entries` carry the indices `prev + 1`, `prev + 2`, ...
fn numbered_from(entries: &Vec<LogEntry>, prev: u64) -> (r: bool)
    requires
        prev + entries@.len() < u64::MAX,
    ensures
        r == entries_indexed(entries_view(entries@), prev),
{
    let m = entries.len();
    let mut k: usize = 0;
    while k < m
        invariant
            m == entries@.len(),
            prev + m < u64::MAX,
            k <= m,
            forall|j: int| 0 <= j < k ==> #[trigger] entries_view(entries@)[j].index == prev + 1 + j,
        decreases m - k,
    {
        if entries[k].index != prev + 1 + k as u64 {
            assert(entries_view(entries@)[k as int].index != prev + 1 + k);
            return false;
        }
        k = k + 1;
    }
    true
}

/// Places `entries` into `log` from position `p` on, as [`merged`] says,
/// unless the first conflict lies below `commit_index`; then `log` is left as it was.
#[verifier::loop_isolation(false)]
fn place_entries(log: &mut Vec<LogEntry>, p: usize, entries: &Vec<LogEntry>, commit_index: u64) -> (ok: bool)
    requires
        p <= old(log)@.len(),
    ensures
        ok == match first_conflict(entries_view(old(log)@), p as nat, entries_view(entries@)) {
            Some(c) => c >= commit_index,
            None => true,
        },
        ok ==> entries_view(final(log)@) == merged(
            entries_view(old(log)@),
            p as nat,
            entries_view(entries@),
        ),
        !ok ==> final(log)@ == old(log)@,
{
    let ghost log0 = entries_view(log@);
    let ghost ev = entries_view(entries@);
    let m = entries.len();
    let n = log.len();
    let mut k: usize = 0;
    assert(ev.skip(0) =~= ev);
    while k < m && k < n - p && log[p + k].term == entries[k].term
        invariant
            m == entries@.len(),
            n == log@.len(),
            log0 == entries_view(log@),
            p <= n,
            k <= m,
            k <= n - p,
            first_conflict(log0, p as nat, ev) == first_conflict(log0, (p + k) as nat, ev.skip(k as int)),
        decreases m - k,
    {
        proof {
            assert(ev.skip(k as int).drop_first() =~= ev.skip(k + 1));
        }
        k = k + 1;
    }
    if k < m && k < n - p {
        assert(first_conflict(log0, (p + k) as nat, ev.skip(k as int)) == Some((p + k) as nat));
        if ((p + k) as u64) < commit_index {
            return false;
        }
        log.truncate(p + k);
    }
    let ghost kept = entries_view(log@);
    let mut j: usize = k;
    if log.len() - p <= k {
        while j < m
            invariant
                m == entries@.len(),
                k <= j <= m,
                log@.len() == p + j,
                entries_view(log@) == kept + ev.subrange(k as int, j as int),
            decreases m - j,
        {
            let e = entries[j].duplicate();
            let ghost before = entries_view(log@);
            log.push(e);
            assert(entries_view(log@) =~= before.push(ev[j as int]));
            j = j + 1;
            assert(entries_view(log@) =~= kept + ev.subrange(k as int, j as int));
        }
    }
    proof {
        if k < m && k < n - p {
            assert(ev.skip(k as int) =~= ev.subrange(k as int, m as int));
            assert(kept =~= log0.take(p + k));
        } else if k < m {
            assert(ev.skip(n - p) =~= ev.subrange(k as int, m as int));
            assert(kept =~= log0);
        } else {
            assert(ev.skip(k as int).len() == 0);
            assert(ev.subrange(k as int, j as int) =~= Seq::<EntryModel>::empty());
            assert(kept =~= log0);
            assert(entries_view(log@) =~= log0);
        }
    }
    true
}

pub(crate) proof fn lemma_first_conflict_bounds(log: Seq<EntryModel>, p: nat, entries: Seq<EntryModel>)
    ensures
        first_conflict(log, p, entries) matches Some(c) ==> p <= c < log.len() && c < p + entries.len()
            && log[c as int].term != entries[c - p].term,
        forall|i: int| p <= i < p + entries.len() && i < log.len() && (first_conflict(log, p, entries) matches Some(c) ==> i < c) ==> #[trigger] log[i].term == entries[i - p].term,
    decreases entries.len(),
{
    if entries.len() > 0 && p < log.len() && log[p as int].term == entries[0].term {
        lemma_first_conflict_bounds(log, p + 1, entries.drop_first());
        assert forall|i: int| p <= i < p + entries.len() && i < log.len() && (first_conflict(log, p, entries) matches Some(c) ==> i < c) implies #[trigger] log[i].term == entries[i - p].term by {
            if i > p {
                assert(entries.drop_first()[i - (p + 1)] == entries[i - p]);
            }
        }
        if let Some(c) = first_conflict(log, p, entries) {
            assert(entries.drop_first()[c - (p + 1)] == entries[c - p]);
        }
    }
}

/// Entries of a merged log sit where their indices say, when both inputs do.
proof fn lemma_merged_indexed(log: Seq<EntryModel>, p: nat, entries: Seq<EntryModel>, i: int)
    requires
        log_indexed(log),
        p <= log.len(),
        entries_indexed(entries, p as u64),
        p + entries.len() < u64::MAX,
        0 <= i < merged(log, p, entries).len(),
    ensures
        merged(log, p, entries)[i].index == i + 1,
{
    lemma_first_conflict_bounds(log, p, entries);
    let r = merged(log, p, entries);
    match first_conflict(log, p, entries) {
        Some(c) => {
            if i >= c {
                assert(r[i] == entries[i - p]);
            }
        },
        None => {
            if i >= log.len() {
                assert(r[i] == entries[i - p]);
            }
        },
    }
}

/// Merging keeps the first `commit` entries when no conflict lies below it,
/// and leaves at least `p + entries.len()` entries.
proof fn lemma_merged_keeps(log: Seq<EntryModel>, p: nat, entries: Seq<EntryModel>, commit: nat)
    requires
        commit <= log.len(),
        p <= log.len(),
        first_conflict(log, p, entries) matches Some(c) ==> c >= commit,
    ensures
        merged(log, p, entries).take(commit as int) == log.take(commit as int),
        merged(log, p, entries).len() >= p + entries.len(),
        merged(log, p, entries).len() >= commit,
        merged(log, p, entries).len() <= log.len() || merged(log, p, entries).len() == p
            + entries.len(),
{
    lemma_first_conflict_bounds(log, p, entries);
    assert(merged(log, p, entries).take(commit as int) =~= log.take(commit as int));
}

/// How many of `m` are at least `n`.
fn count_at_least_exec(m: &Vec<u64>, n: u64) -> (r: usize)
    ensures
        r == count_at_least(m@, n),
        r <= m@.len(),
{
    let mut c: usize = 0;
    let mut i: usize = 0;
    assert(m@.take(0) =~= Seq::<u64>::empty());
    while i < m.len()
        invariant
            i <= m@.len(),
            c <= i,
            c == count_at_least(m@.take(i as int), n),
        decreases m@.len() - i,
    {
        assert(m@.take(i + 1).drop_last() =~= m@.take(i as int));
        if m[i] >= n {
            c = c + 1;
        }
        i = i + 1;
    }
    assert(m@.take(m@.len() as int) =~= m@);
    c
}

/// Whether `v` holds `x`.
fn contains(v: &Vec<u64>, x: u64) -> (r: bool)
    ensures
        r == v@.contains(x),
{
    let mut i: usize = 0;
    while i < v.len()
        invariant
            i <= v@.len(),
            forall|j: int| 0 <= j < i ==> v@[j] != x,
        decreases v@.len() - i,
    {
        if v[i] == x {
            return true;
        }
        i = i + 1;
    }
    false
}

/// `n` copies of `v`.
fn fill(n: usize, v: u64) -> (r: Vec<u64>)
    ensures
        r@ == Seq::new(n as nat, |i: int| v),
{
    let mut r: Vec<u64> = Vec::new();
    let mut i: usize = 0;
    while i < n
        invariant
            i <= n,
            r@ == Seq::new(i as nat, |j: int| v),
        decreases n - i,
    {
        r.push(v);
        i = i + 1;
        assert(r@ =~= Seq::new(i as nat, |j: int| v));
    }
    r
}

/// Nodes run side by side in one process, for simulation and testing.
#[derive(Debug)]
pub struct RaftCluster {
    pub raft_nodes: Vec<RaftNode>,
}

/// The ids `0..size` without `i`, in order.
pub open spec fn others(size: nat, i: nat) -> Seq<u64> {
    Seq::new((size - 1) as nat, |j: int| if j < i { j as u64 } else { (j + 1) as u64 })
}

impl RaftCluster {
    /// `size` followers in term 0 with ids `0..size`, each with every other
    /// node as a peer.
    pub fn new(size: u64) -> (r: RaftCluster)
        requires
            size < usize::MAX,
        ensures
            r.raft_nodes@.len() == size,
            forall|i: int|
                0 <= i < size ==> {
                    let n = #[trigger] r.raft_nodes@[i];
                    &&& n.wf()
                    &&& n.id == i
                    &&& n.peers@ == others(size as nat, i as nat)
                    &&& n.current_term == 0
                    &&& n.voted_for is None
                    &&& n.log@.len() == 0
                    &&& n.role == Role::Follower
                    &&& n.commit_index == 0
                },
    {
        let mut raft_nodes: Vec<RaftNode> = Vec::new();
        let mut i: u64 = 0;
        while i < size
            invariant
                i <= size < usize::MAX,
                raft_nodes@.len() == i,
                forall|k: int|
                    0 <= k < i ==> {
                        let n = #[trigger] raft_nodes@[k];
                        &&& n.wf()
                        &&& n.id == k
                        &&& n.peers@ == others(size as nat, k as nat)
                        &&& n.current_term == 0
                        &&& n.voted_for is None
                        &&& n.log@.len() == 0
                        &&& n.role == Role::Follower
                        &&& n.commit_index == 0
                    },
            decreases size - i,
        {
            let mut peers: Vec<u64> = Vec::new();
            let mut j: u64 = 0;
            while j < size
                invariant
                    i < size < usize::MAX,
                    j <= size,
                    peers@ == others(size as nat, i as nat).take(if j <= i { j as int } else { j - 1 }),
                decreases size - j,
            {
                if j != i {
                    let ghost before = peers@;
                    peers.push(j);
                    if j < i {
                        assert(peers@ =~= others(size as nat, i as nat).take(j + 1));
                    } else {
                        assert(peers@ =~= others(size as nat, i as nat).take(j as int));
                    }
                }
                j = j + 1;
            }
            assert(peers@ =~= others(size as nat, i as nat));
            let node = RaftNode::new(i, peers);
            raft_nodes.push(node);
            i = i + 1;
        }
        RaftCluster { raft_nodes }
    }

    /// How many nodes believe themselves leader in `term`.
    pub fn leaders_in_term(&self, term: u64) -> (r: usize)
        ensures
            r == Set::new(
                |i: int|
                    0 <= i < self.raft_nodes@.len() && self.raft_nodes@[i].role == Role::Leader
                        && self.raft_nodes@[i].current_term == term,
            ).len(),
    {
        let mut c: usize = 0;
        let mut i: usize = 0;
        let ghost mut found: Set<int> = Set::empty();
        while i < self.raft_nodes.len()
            invariant
                i <= self.raft_nodes@.len(),
                c <= i,
                found.finite(),
                found.len() == c,
                found == Set::new(
                    |k: int|
                        0 <= k < i && self.raft_nodes@[k].role == Role::Leader
                            && self.raft_nodes@[k].current_term == term,
                ),
            decreases self.raft_nodes@.len() - i,
        {
            let n = &self.raft_nodes[i];
            if n.role == Role::Leader && n.current_term == term {
                proof {
                    found = found.insert(i as int);
                }
                c = c + 1;
            }
            i = i + 1;
            assert(found =~= Set::new(
                |k: int|
                    0 <= k < i && self.raft_nodes@[k].role == Role::Leader
                        && self.raft_nodes@[k].current_term == term,
            ));
        }
        assert(found =~= Set::new(
            |k: int|
                0 <= k < self.raft_nodes@.len() && self.raft_nodes@[k].role == Role::Leader
                    && self.raft_nodes@[k].current_term == term,
        ));
        c
    }
}

} // verus!
