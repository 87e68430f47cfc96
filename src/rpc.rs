//! The messages that nodes exchange.
use vstd::prelude::*;
use crate::bytes::{from_le32, from_le64, le32, le64, push_u32, push_u64, read_u32, read_u64};
use crate::bytes::{lemma_le32_round_trip, lemma_le64_round_trip};
use crate::codec::{
    checksum, crc32c_of, decode_spec, encoded, entries_view, lemma_encoded_len, lemma_round_trip,
    push_range, DecodeError, EntryModel, LogEntry,
};

verus! {

/// A candidate asks for a vote.
#[derive(Clone, Copy, Debug, PartialEq, Eq, Structural)]
pub struct RequestVoteReq {
    pub term: u64,
    pub candidate_id: u64,
    pub last_log_index: u64,
    pub last_log_term: u64,
}

/// The answer to a [`RequestVoteReq`].
#[derive(Clone, Copy, Debug, PartialEq, Eq, Structural)]
pub struct RequestVoteReply {
    pub term: u64,
    pub vote_granted: bool,
}

/// A leader replicates entries, or only asserts its leadership when `entries` is empty.
#[derive(Clone, Debug)]
pub struct AppendEntriesReq {
    pub term: u64,
    pub leader_id: u64,
    pub prev_log_index: u64,
    pub prev_log_term: u64,
    pub entries: Vec<LogEntry>,
    pub leader_commit: u64,
}

/// The answer to an [`AppendEntriesReq`]; on success `match_index` is the
/// highest index the follower now holds in agreement with the request.
#[derive(Clone, Copy, Debug, PartialEq, Eq, Structural)]
pub struct AppendEntriesReply {
    pub term: u64,
    pub success: bool,
    pub match_index: u64,
}

/// Kind byte of a [`RequestVoteReq`] frame.
pub const KIND_REQUEST_VOTE: u8 = 0;

/// Kind byte of an [`AppendEntriesReq`] frame.
pub const KIND_APPEND_ENTRIES: u8 = 1;

/// Bytes before the kind-specific fields: request id, sender id, kind, term.
pub const FRAME_HEAD: usize = 33;

/// Length of a whole [`RequestVoteReq`] frame.
pub const REQUEST_VOTE_FRAME: usize = 61;

/// Bytes before the entries of an [`AppendEntriesReq`] frame.
pub const APPEND_ENTRIES_HEAD: usize = 73;

/// A fresh random request id.
///
/// Relies on `uuid::Uuid::new_v4` for a random id and on `Uuid::to_bytes_le`
/// for its 16 bytes; nothing is promised about their values.
#[verifier::external_body]
fn new_request_id() -> (r: [u8; 16]) {
    uuid::Uuid::new_v4().to_bytes_le()
}

/// The fields every frame begins with.
pub open spec fn frame_head(id: Seq<u8>, sender: u64, kind: u8, term: u64) -> Seq<u8> {
    id + le64(sender) + seq![kind] + le64(term)
}

/// `content` followed by its CRC32C.
pub open spec fn sealed(content: Seq<u8>) -> Seq<u8> {
    content + le32(crc32c_of(content))
}

pub open spec fn request_vote_frame(id: Seq<u8>, sender: u64, req: RequestVoteReq) -> Seq<u8> {
    sealed(
        frame_head(id, sender, KIND_REQUEST_VOTE, req.term) + le64(req.candidate_id) + le64(
            req.last_log_index,
        ) + le64(req.last_log_term),
    )
}

/// The pages of `es`, one entry after another.
pub open spec fn encoded_entries(es: Seq<EntryModel>) -> Seq<u8>
    decreases es.len(),
{
    if es.len() == 0 {
        Seq::empty()
    } else {
        encoded(es[0]) + encoded_entries(es.drop_first())
    }
}

/// The fields of an [`AppendEntriesReq`] other than its entries.
pub ghost struct AppendEntriesHead {
    pub term: u64,
    pub leader_id: u64,
    pub prev_log_index: u64,
    pub prev_log_term: u64,
    pub leader_commit: u64,
}

pub open spec fn append_entries_frame(id: Seq<u8>, sender: u64, req: AppendEntriesReq) -> Seq<u8> {
    sealed(
        frame_head(id, sender, KIND_APPEND_ENTRIES, req.term) + le64(req.leader_id) + le64(
            req.prev_log_index,
        ) + le64(req.prev_log_term) + le64(req.leader_commit) + le64(req.entries@.len() as u64)
            + encoded_entries(entries_view(req.entries@)),
    )
}

/// Whether the last four bytes of `b` are the CRC32C of the rest.
pub open spec fn seal_holds(b: Seq<u8>) -> bool {
    from_le32(b.subrange(b.len() - 4, b.len() as int)) == crc32c_of(b.subrange(0, b.len() - 4))
}

/// The request id, sender and request that a vote request frame holds.
pub open spec fn decode_request_vote_spec(b: Seq<u8>) -> Result<
    (Seq<u8>, u64, RequestVoteReq),
    DecodeError,
> {
    if b.len() < REQUEST_VOTE_FRAME {
        Err(DecodeError::IncompleteRead)
    } else if !seal_holds(b) || b.len() != REQUEST_VOTE_FRAME || b[24] != KIND_REQUEST_VOTE {
        Err(DecodeError::CorruptEntry)
    } else {
        Ok(
            (
                b.subrange(0, 16),
                from_le64(b.subrange(16, 24)),
                RequestVoteReq {
                    term: from_le64(b.subrange(25, 33)),
                    candidate_id: from_le64(b.subrange(33, 41)),
                    last_log_index: from_le64(b.subrange(41, 49)),
                    last_log_term: from_le64(b.subrange(49, 57)),
                },
            ),
        )
    }
}

/// `count` entries decoded one after another, which must use up `b`.
pub open spec fn decode_entries(b: Seq<u8>, count: nat) -> Result<Seq<EntryModel>, DecodeError>
    decreases count,
{
    if count == 0 {
        if b.len() == 0 {
            Ok(Seq::empty())
        } else {
            Err(DecodeError::CorruptEntry)
        }
    } else {
        match decode_spec(b) {
            Err(e) => Err(e),
            Ok((e, used)) => match decode_entries(b.skip(used as int), (count - 1) as nat) {
                Ok(rest) => Ok(seq![e] + rest),
                Err(x) => Err(x),
            },
        }
    }
}

/// The request id, sender, fields and entries that an append request frame holds.
pub open spec fn decode_append_entries_spec(b: Seq<u8>) -> Result<
    (Seq<u8>, u64, AppendEntriesHead, Seq<EntryModel>),
    DecodeError,
> {
    if b.len() < APPEND_ENTRIES_HEAD + 4 {
        Err(DecodeError::IncompleteRead)
    } else if !seal_holds(b) || b[24] != KIND_APPEND_ENTRIES {
        Err(DecodeError::CorruptEntry)
    } else {
        let content = b.subrange(0, b.len() - 4);
        match decode_entries(
            content.skip(APPEND_ENTRIES_HEAD as int),
            from_le64(b.subrange(65, 73)) as nat,
        ) {
            Err(e) => Err(e),
            Ok(es) => Ok(
                (
                    b.subrange(0, 16),
                    from_le64(b.subrange(16, 24)),
                    AppendEntriesHead {
                        term: from_le64(b.subrange(25, 33)),
                        leader_id: from_le64(b.subrange(33, 41)),
                        prev_log_index: from_le64(b.subrange(41, 49)),
                        prev_log_term: from_le64(b.subrange(49, 57)),
                        leader_commit: from_le64(b.subrange(57, 65)),
                    },
                    es,
                ),
            ),
        }
    }
}

/// Appends the fields every frame begins with.
fn push_head(out: &mut Vec<u8>, id: [u8; 16], sender: u64, kind: u8, term: u64)
    ensures
        final(out)@ == old(out)@ + frame_head(id@, sender, kind, term),
{
    let ghost start = out@;
    let mut i: usize = 0;
    while i < 16
        invariant
            i <= 16,
            out@ == start + id@.take(i as int),
        decreases 16 - i,
    {
        out.push(id[i]);
        i = i + 1;
        assert(out@ =~= start + id@.take(i as int));
    }
    assert(id@.take(16) =~= id@);
    push_u64(out, sender);
    out.push(kind);
    push_u64(out, term);
    assert(out@ =~= start + frame_head(id@, sender, kind, term));
}

/// Appends the CRC32C of everything in `out`.
fn seal(out: &mut Vec<u8>)
    ensures
        final(out)@ == sealed(old(out)@),
{
    let crc = checksum(out);
    push_u32(out, crc);
}

/// Checks the seal of a frame of at least four bytes.
fn check_seal(b: &Vec<u8>) -> (r: bool)
    requires
        b@.len() >= 4,
    ensures
        r == seal_holds(b@),
{
    let n = b.len();
    let mut content: Vec<u8> = Vec::new();
    push_range(&mut content, b, 0, n - 4);
    read_u32(b, n - 4) == checksum(&content)
}

impl RequestVoteReq {
    /// The frame that carries this request from `sender`, under `request_id`.
    pub fn encode(&self, request_id: [u8; 16], sender: u64) -> (r: Vec<u8>)
        ensures
            r@ == request_vote_frame(request_id@, sender, *self),
    {
        let mut out: Vec<u8> = Vec::new();
        push_head(&mut out, request_id, sender, KIND_REQUEST_VOTE, self.term);
        push_u64(&mut out, self.candidate_id);
        push_u64(&mut out, self.last_log_index);
        push_u64(&mut out, self.last_log_term);
        seal(&mut out);
        out
    }

    /// The frame that carries this request from `node_id`, under a fresh
    /// random request id.
    pub fn send_rpc(&self, node_id: u64) -> (r: Vec<u8>)
        ensures
            r@.len() == REQUEST_VOTE_FRAME,
            r@ == request_vote_frame(r@.subrange(0, 16), node_id, *self),
    {
        let id = new_request_id();
        let r = self.encode(id, node_id);
        proof {
            lemma_le64_round_trip(node_id);
            lemma_le64_round_trip(self.term);
            lemma_le64_round_trip(self.candidate_id);
            lemma_le64_round_trip(self.last_log_index);
            lemma_le64_round_trip(self.last_log_term);
            let content = frame_head(id@, node_id, KIND_REQUEST_VOTE, self.term) + le64(
                self.candidate_id,
            ) + le64(self.last_log_index) + le64(self.last_log_term);
            lemma_le32_round_trip(crc32c_of(content));
            assert(r@.subrange(0, 16) =~= id@);
        }
        r
    }

    /// Reads a vote request frame: its request id, sender and request.
    pub fn decode(bytes: &Vec<u8>) -> (r: Result<(Vec<u8>, u64, RequestVoteReq), DecodeError>)
        ensures
            match (r, decode_request_vote_spec(bytes@)) {
                (Ok((id, s, req)), Ok((id2, s2, req2))) => id@ == id2 && s == s2 && req == req2,
                (Err(a), Err(b)) => a == b,
                _ => false,
            },
    {
        if bytes.len() < REQUEST_VOTE_FRAME {
            return Err(DecodeError::IncompleteRead);
        }
        if !check_seal(bytes) || bytes.len() != REQUEST_VOTE_FRAME || bytes[24] != KIND_REQUEST_VOTE {
            return Err(DecodeError::CorruptEntry);
        }
        let mut id: Vec<u8> = Vec::new();
        push_range(&mut id, bytes, 0, 16);
        let sender = read_u64(bytes, 16);
        let req = RequestVoteReq {
            term: read_u64(bytes, 25),
            candidate_id: read_u64(bytes, 33),
            last_log_index: read_u64(bytes, 41),
            last_log_term: read_u64(bytes, 49),
        };
        Ok((id, sender, req))
    }
}

/// `r` with the entries `acc` put in front.
pub open spec fn prepend_entries(acc: Seq<EntryModel>, r: Result<Seq<EntryModel>, DecodeError>) -> Result<
    Seq<EntryModel>,
    DecodeError,
> {
    match r {
        Ok(rest) => Ok(acc + rest),
        Err(e) => Err(e),
    }
}

impl AppendEntriesReq {
    /// The frame that carries this request from `sender`, under `request_id`.
    pub fn encode(&self, request_id: [u8; 16], sender: u64) -> (r: Vec<u8>)
        ensures
            r@ == append_entries_frame(request_id@, sender, *self),
    {
        let mut out: Vec<u8> = Vec::new();
        push_head(&mut out, request_id, sender, KIND_APPEND_ENTRIES, self.term);
        push_u64(&mut out, self.leader_id);
        push_u64(&mut out, self.prev_log_index);
        push_u64(&mut out, self.prev_log_term);
        push_u64(&mut out, self.leader_commit);
        push_u64(&mut out, self.entries.len() as u64);
        let ghost start = out@;
        let ghost ev = entries_view(self.entries@);
        let mut i: usize = 0;
        assert(ev.skip(0) =~= ev);
        while i < self.entries.len()
            invariant
                i <= self.entries@.len(),
                ev == entries_view(self.entries@),
                out@ + encoded_entries(ev.skip(i as int)) == start + encoded_entries(ev),
            decreases self.entries@.len() - i,
        {
            let ghost before = out@;
            self.entries[i].encode(&mut out);
            proof {
                assert(ev.skip(i as int).drop_first() =~= ev.skip(i + 1));
                assert(ev.skip(i as int)[0] == self.entries@[i as int]@);
                assert(out@ + encoded_entries(ev.skip(i + 1)) =~= before + encoded_entries(
                    ev.skip(i as int),
                ));
            }
            i = i + 1;
        }
        assert(ev.skip(i as int) =~= Seq::<EntryModel>::empty());
        assert(out@ =~= start + encoded_entries(ev));
        seal(&mut out);
        out
    }

    /// The frame that carries this request from `node_id`, under a fresh
    /// random request id.
    pub fn send_rpc(&self, node_id: u64) -> (r: Vec<u8>)
        ensures
            r@.len() >= 16,
            r@ == append_entries_frame(r@.subrange(0, 16), node_id, *self),
    {
        let id = new_request_id();
        let r = self.encode(id, node_id);
        assert(r@.subrange(0, 16) =~= id@);
        r
    }

    /// Reads an append request frame: its request id, sender and request.
    pub fn decode(bytes: &Vec<u8>) -> (r: Result<(Vec<u8>, u64, AppendEntriesReq), DecodeError>)
        ensures
            match (r, decode_append_entries_spec(bytes@)) {
                (Ok((id, s, req)), Ok((id2, s2, h, es))) => {
                    &&& id@ == id2
                    &&& s == s2
                    &&& req.term == h.term
                    &&& req.leader_id == h.leader_id
                    &&& req.prev_log_index == h.prev_log_index
                    &&& req.prev_log_term == h.prev_log_term
                    &&& req.leader_commit == h.leader_commit
                    &&& entries_view(req.entries@) == es
                },
                (Err(a), Err(b)) => a == b,
                _ => false,
            },
    {
        let n = bytes.len();
        if n < APPEND_ENTRIES_HEAD + 4 {
            return Err(DecodeError::IncompleteRead);
        }
        if !check_seal(bytes) || bytes[24] != KIND_APPEND_ENTRIES {
            return Err(DecodeError::CorruptEntry);
        }
        let mut content: Vec<u8> = Vec::new();
        push_range(&mut content, bytes, 0, n - 4);
        let count = read_u64(bytes, 65);
        assert(content@ =~= bytes@.subrange(0, bytes@.len() - 4));
        let ghost whole = decode_entries(content@.skip(APPEND_ENTRIES_HEAD as int), count as nat);
        let mut entries: Vec<LogEntry> = Vec::new();
        let mut pos: usize = APPEND_ENTRIES_HEAD;
        let mut i: u64 = 0;
        assert(entries_view(entries@) =~= Seq::<EntryModel>::empty());
        while i < count
            invariant
                i <= count,
                pos <= content@.len(),
                n == bytes@.len(),
                n >= APPEND_ENTRIES_HEAD + 4,
                seal_holds(bytes@),
                bytes@[24] == KIND_APPEND_ENTRIES,
                content@ == bytes@.subrange(0, bytes@.len() - 4),
                count == from_le64(bytes@.subrange(65, 73)),
                whole == decode_entries(content@.skip(APPEND_ENTRIES_HEAD as int), count as nat),
                whole == prepend_entries(
                    entries_view(entries@),
                    decode_entries(content@.skip(pos as int), (count - i) as nat),
                ),
            decreases count - i,
        {
            let ghost here = content@.skip(pos as int);
            match LogEntry::decode(&content, pos) {
                Ok((e, next)) => {
                    let ghost acc = entries_view(entries@);
                    proof {
                        let used = decode_spec(here).get_Ok_0().1;
                        assert(here.skip(used as int) =~= content@.skip(next as int));
                        match decode_entries(content@.skip(next as int), (count - i - 1) as nat) {
                            Ok(rest) => {
                                assert(acc.push(e@) + rest =~= acc + (seq![e@] + rest));
                            },
                            Err(_) => {},
                        }
                    }
                    entries.push(e);
                    assert(entries_view(entries@) =~= acc.push(e@));
                    pos = next;
                    i = i + 1;
                },
                Err(err) => {
                    assert(decode_entries(here, (count - i) as nat) == Err::<Seq<EntryModel>, DecodeError>(err));
                    return Err(err);
                },
            }
        }
        if pos != content.len() {
            return Err(DecodeError::CorruptEntry);
        }
        let mut id: Vec<u8> = Vec::new();
        push_range(&mut id, bytes, 0, 16);
        proof {
            assert(content@ =~= bytes@.subrange(0, bytes@.len() - 4));
            assert(bytes@.subrange(65, 73) =~= content@.subrange(65, 73));
            assert(content@.skip(pos as int).len() == 0);
        }
        let req = AppendEntriesReq {
            term: read_u64(bytes, 25),
            leader_id: read_u64(bytes, 33),
            prev_log_index: read_u64(bytes, 41),
            prev_log_term: read_u64(bytes, 49),
            entries,
            leader_commit: read_u64(bytes, 57),
        };
        Ok((id, read_u64(bytes, 16), req))
    }
}

/// Decoding a vote request frame gives back the request id, sender and
/// request it was encoded from.
pub proof fn lemma_request_vote_frame_round_trip(id: Seq<u8>, sender: u64, req: RequestVoteReq)
    requires
        id.len() == 16,
    ensures
        decode_request_vote_spec(request_vote_frame(id, sender, req)) == Ok::<
            (Seq<u8>, u64, RequestVoteReq),
            DecodeError,
        >((id, sender, req)),
{
    let content = frame_head(id, sender, KIND_REQUEST_VOTE, req.term) + le64(req.candidate_id)
        + le64(req.last_log_index) + le64(req.last_log_term);
    let b = request_vote_frame(id, sender, req);
    lemma_le64_round_trip(sender);
    lemma_le64_round_trip(req.term);
    lemma_le64_round_trip(req.candidate_id);
    lemma_le64_round_trip(req.last_log_index);
    lemma_le64_round_trip(req.last_log_term);
    lemma_le32_round_trip(crc32c_of(content));
    assert(b.subrange(57, 61) =~= le32(crc32c_of(content)));
    assert(b.subrange(0, 57) =~= content);
    assert(b.subrange(0, 16) =~= id);
    assert(b.subrange(16, 24) =~= le64(sender));
    assert(b.subrange(25, 33) =~= le64(req.term));
    assert(b.subrange(33, 41) =~= le64(req.candidate_id));
    assert(b.subrange(41, 49) =~= le64(req.last_log_index));
    assert(b.subrange(49, 57) =~= le64(req.last_log_term));
}

proof fn lemma_entries_round_trip(es: Seq<EntryModel>)
    requires
        forall|k: int| 0 <= k < es.len() ==> #[trigger] es[k].command.len() <= u64::MAX,
    ensures
        decode_entries(encoded_entries(es), es.len()) == Ok::<Seq<EntryModel>, DecodeError>(es),
    decreases es.len(),
{
    if es.len() == 0 {
        assert(es =~= Seq::<EntryModel>::empty());
    } else {
        let rest = encoded_entries(es.drop_first());
        lemma_round_trip(es[0], rest);
        lemma_encoded_len(es[0]);
        lemma_entries_round_trip(es.drop_first());
        let b = encoded_entries(es);
        assert(b.skip(encoded(es[0]).len() as int) =~= rest);
        assert(seq![es[0]] + es.drop_first() =~= es);
    }
}

proof fn lemma_append_entries_frame_layout(id: Seq<u8>, sender: u64, req: AppendEntriesReq)
    requires
        id.len() == 16,
        req.entries@.len() <= u64::MAX,
    ensures
        ({
            let b = append_entries_frame(id, sender, req);
            &&& b.len() >= APPEND_ENTRIES_HEAD + 4
            &&& seal_holds(b)
            &&& b[24] == KIND_APPEND_ENTRIES
            &&& b.subrange(0, b.len() - 4).skip(APPEND_ENTRIES_HEAD as int) == encoded_entries(
                entries_view(req.entries@),
            )
            &&& b.subrange(0, 16) == id
            &&& from_le64(b.subrange(16, 24)) == sender
            &&& from_le64(b.subrange(25, 33)) == req.term
            &&& from_le64(b.subrange(33, 41)) == req.leader_id
            &&& from_le64(b.subrange(41, 49)) == req.prev_log_index
            &&& from_le64(b.subrange(49, 57)) == req.prev_log_term
            &&& from_le64(b.subrange(57, 65)) == req.leader_commit
            &&& from_le64(b.subrange(65, 73)) == req.entries@.len()
        }),
{
    let ev = entries_view(req.entries@);
    let count = req.entries@.len() as u64;
    let head = frame_head(id, sender, KIND_APPEND_ENTRIES, req.term) + le64(req.leader_id) + le64(
        req.prev_log_index,
    ) + le64(req.prev_log_term) + le64(req.leader_commit) + le64(count);
    let content = head + encoded_entries(ev);
    let b = append_entries_frame(id, sender, req);
    lemma_le64_round_trip(sender);
    lemma_le64_round_trip(req.term);
    lemma_le64_round_trip(req.leader_id);
    lemma_le64_round_trip(req.prev_log_index);
    lemma_le64_round_trip(req.prev_log_term);
    lemma_le64_round_trip(req.leader_commit);
    lemma_le64_round_trip(count);
    lemma_le32_round_trip(crc32c_of(content));
    assert(head.len() == APPEND_ENTRIES_HEAD);
    assert(b.subrange(b.len() - 4, b.len() as int) =~= le32(crc32c_of(content)));
    assert(b.subrange(0, b.len() - 4) =~= content);
    assert(content.skip(APPEND_ENTRIES_HEAD as int) =~= encoded_entries(ev));
    assert(b.subrange(0, 16) =~= id);
    assert(b.subrange(16, 24) =~= le64(sender));
    assert(b.subrange(25, 33) =~= le64(req.term));
    assert(b.subrange(33, 41) =~= le64(req.leader_id));
    assert(b.subrange(41, 49) =~= le64(req.prev_log_index));
    assert(b.subrange(49, 57) =~= le64(req.prev_log_term));
    assert(b.subrange(57, 65) =~= le64(req.leader_commit));
    assert(b.subrange(65, 73) =~= le64(count));
}

/// Decoding an append request frame gives back the request id, sender,
/// fields and entries it was encoded from.
pub proof fn lemma_append_entries_frame_round_trip(id: Seq<u8>, sender: u64, req: AppendEntriesReq)
    requires
        id.len() == 16,
        req.entries@.len() <= u64::MAX,
        forall|k: int|
            0 <= k < req.entries@.len() ==> #[trigger] req.entries@[k].command@.len() <= u64::MAX,
    ensures
        decode_append_entries_spec(append_entries_frame(id, sender, req)) == Ok::<
            (Seq<u8>, u64, AppendEntriesHead, Seq<EntryModel>),
            DecodeError,
        >(
            (
                id,
                sender,
                AppendEntriesHead {
                    term: req.term,
                    leader_id: req.leader_id,
                    prev_log_index: req.prev_log_index,
                    prev_log_term: req.prev_log_term,
                    leader_commit: req.leader_commit,
                },
                entries_view(req.entries@),
            ),
        ),
{
    let ev = entries_view(req.entries@);
    assert forall|k: int| 0 <= k < ev.len() implies #[trigger] ev[k].command.len() <= u64::MAX by {
        assert(ev[k].command == req.entries@[k].command@);
    }
    lemma_entries_round_trip(ev);
    lemma_append_entries_frame_layout(id, sender, req);
}

} // verus!
