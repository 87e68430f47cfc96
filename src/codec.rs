//! Paged encoding of log entries.
//!
//! An entry occupies one first page and as many overflow pages as its
//! command needs. First page: `[0]` marker 1, `[1..5]` CRC32C of the header
//! fields `[5..53]` followed by the whole command, `[5..13]` term,
//! `[13..21]` index, `[37..45]` client id, `[45..53]` command length,
//! `[53..512]` the first bytes of the command. Overflow page: `[0]` marker 0,
//! `[1..512]` the next bytes of the command. Unused bytes are zero.
use vstd::prelude::*;
use crate::bytes::{le32, le64, from_le32, from_le64, push_u32, push_u64, read_u32, read_u64};
use crate::bytes::{lemma_from_le32_injective, lemma_le32_round_trip, lemma_le64_round_trip};

verus! {

pub const PAGE_SIZE: usize = 512;

pub const HEADER_END: usize = 53;

/// Command bytes carried by a first page.
pub const FIRST_PAGE_CAPACITY: usize = 459;

/// Command bytes carried by an overflow page.
pub const OVERFLOW_CAPACITY: usize = 511;

/// The CRC32C (Castagnoli) checksum of a byte sequence.
pub uninterp spec fn crc32c_of(data: Seq<u8>) -> u32;

/// Relies on `crc32c::crc32c`: the CRC32C of the bytes, which depends on them alone.
#[verifier::external_body]
pub(crate) fn checksum(data: &Vec<u8>) -> (r: u32)
    ensures
        r == crc32c_of(data@),
{
    crc32c::crc32c(data.as_slice())
}

/// One replicated operation.
#[derive(Clone, Debug)]
pub struct LogEntry {
    pub command: Vec<u8>,
    pub index: u64,
    pub term: u64,
    pub client_id: u64,
}

/// The value of a [`LogEntry`].
pub ghost struct EntryModel {
    pub command: Seq<u8>,
    pub index: u64,
    pub term: u64,
    pub client_id: u64,
}

impl View for LogEntry {
    type V = EntryModel;

    open spec fn view(&self) -> EntryModel {
        EntryModel {
            command: self.command@,
            index: self.index,
            term: self.term,
            client_id: self.client_id,
        }
    }
}

/// Why bytes could not be decoded.
#[derive(Clone, Copy, Debug, PartialEq, Eq, Structural)]
pub enum DecodeError {
    /// A marker or the checksum does not match the content.
    CorruptEntry,
    /// The bytes end before the pages the entry declares.
    IncompleteRead,
}

pub open spec fn zeros(n: nat) -> Seq<u8> {
    Seq::new(n, |i: int| 0u8)
}

/// `rem`, but at most `cap`.
pub open spec fn chunk(rem: nat, cap: nat) -> nat {
    if rem < cap {
        rem
    } else {
        cap
    }
}

/// Bytes `[5..53]` of a first page.
pub open spec fn header_fields(term: u64, index: u64, client_id: u64, len: u64) -> Seq<u8> {
    le64(term) + le64(index) + zeros(16) + le64(client_id) + le64(len)
}

/// What the checksum of an entry is computed over.
pub open spec fn checksum_input(e: EntryModel) -> Seq<u8> {
    header_fields(e.term, e.index, e.client_id, e.command.len() as u64) + e.command
}

pub open spec fn first_page(e: EntryModel) -> Seq<u8> {
    let n = chunk(e.command.len(), FIRST_PAGE_CAPACITY as nat);
    seq![1u8] + le32(crc32c_of(checksum_input(e))) + header_fields(
        e.term,
        e.index,
        e.client_id,
        e.command.len() as u64,
    ) + e.command.take(n as int) + zeros((FIRST_PAGE_CAPACITY - n) as nat)
}

/// The overflow pages that carry `cmd`.
pub open spec fn overflow_pages(cmd: Seq<u8>) -> Seq<u8>
    decreases cmd.len(),
{
    if cmd.len() == 0 {
        Seq::empty()
    } else {
        let n = chunk(cmd.len(), OVERFLOW_CAPACITY as nat);
        seq![0u8] + cmd.take(n as int) + zeros((OVERFLOW_CAPACITY - n) as nat) + overflow_pages(
            cmd.skip(n as int),
        )
    }
}

/// The pages of an entry, as bytes.
pub open spec fn encoded(e: EntryModel) -> Seq<u8> {
    first_page(e) + overflow_pages(
        e.command.skip(chunk(e.command.len(), FIRST_PAGE_CAPACITY as nat) as int),
    )
}

pub open spec fn overflow_page_count(rem: nat) -> nat
    decreases rem,
{
    if rem == 0 {
        0
    } else {
        1 + overflow_page_count((rem - chunk(rem, OVERFLOW_CAPACITY as nat)) as nat)
    }
}

/// The number of pages that an entry whose command has `len` bytes occupies.
pub open spec fn page_count(len: nat) -> nat {
    1 + overflow_page_count((len - chunk(len, FIRST_PAGE_CAPACITY as nat)) as nat)
}

/// The command bytes carried by overflow pages at the start of `b`, `rem` of them.
pub open spec fn read_overflow(b: Seq<u8>, rem: nat) -> Result<Seq<u8>, DecodeError>
    decreases rem,
{
    if rem == 0 {
        Ok(Seq::empty())
    } else if b.len() < PAGE_SIZE {
        Err(DecodeError::IncompleteRead)
    } else if b[0] != 0 {
        Err(DecodeError::CorruptEntry)
    } else {
        let n = chunk(rem, OVERFLOW_CAPACITY as nat);
        match read_overflow(b.skip(PAGE_SIZE as int), (rem - n) as nat) {
            Ok(rest) => Ok(b.subrange(1, 1 + n as int) + rest),
            Err(e) => Err(e),
        }
    }
}

/// The entry whose pages start `b`, with the number of bytes they take.
pub open spec fn decode_spec(b: Seq<u8>) -> Result<(EntryModel, nat), DecodeError> {
    if b.len() < PAGE_SIZE {
        Err(DecodeError::IncompleteRead)
    } else if b[0] != 1 {
        Err(DecodeError::CorruptEntry)
    } else if from_le64(b.subrange(45, 53)) > b.len() {
        Err(DecodeError::IncompleteRead)
    } else {
        let len = from_le64(b.subrange(45, 53));
        let n = chunk(len as nat, FIRST_PAGE_CAPACITY as nat);
        match read_overflow(b.skip(PAGE_SIZE as int), (len - n) as nat) {
            Err(e) => Err(e),
            Ok(rest) => {
                let cmd = b.subrange(53, 53 + n as int) + rest;
                if from_le32(b.subrange(1, 5)) != crc32c_of(b.subrange(5, 53) + cmd) {
                    Err(DecodeError::CorruptEntry)
                } else {
                    Ok(
                        (
                            EntryModel {
                                command: cmd,
                                index: from_le64(b.subrange(13, 21)),
                                term: from_le64(b.subrange(5, 13)),
                                client_id: from_le64(b.subrange(37, 45)),
                            },
                            (PAGE_SIZE * page_count(len as nat)) as nat,
                        ),
                    )
                }
            },
        }
    }
}

/// Appends `src[from..to]`.
pub(crate) fn push_range(out: &mut Vec<u8>, src: &Vec<u8>, from: usize, to: usize)
    requires
        from <= to <= src@.len(),
    ensures
        final(out)@ == old(out)@ + src@.subrange(from as int, to as int),
{
    let ghost start = out@;
    let mut i: usize = from;
    while i < to
        invariant
            from <= i <= to <= src@.len(),
            out@ == start + src@.subrange(from as int, i as int),
        decreases to - i,
    {
        out.push(src[i]);
        i = i + 1;
        assert(out@ =~= start + src@.subrange(from as int, i as int));
    }
}

/// Appends `n` zero bytes.
fn push_zeros(out: &mut Vec<u8>, n: usize)
    ensures
        final(out)@ == old(out)@ + zeros(n as nat),
{
    let ghost start = out@;
    let mut i: usize = 0;
    while i < n
        invariant
            i <= n,
            out@ == start + zeros(i as nat),
        decreases n - i,
    {
        out.push(0u8);
        i = i + 1;
        assert(out@ =~= start + zeros(i as nat));
    }
}

impl LogEntry {
    /// How many command bytes of a command of `comm_len` bytes fit in the first page.
    pub fn command_length(comm_len: usize) -> (r: usize)
        ensures
            r == chunk(comm_len as nat, FIRST_PAGE_CAPACITY as nat),
    {
        if comm_len > FIRST_PAGE_CAPACITY {
            return FIRST_PAGE_CAPACITY;
        }
        comm_len
    }

    /// Appends the header fields `[5..53]`.
    fn push_header(&self, out: &mut Vec<u8>)
        ensures
            final(out)@ == old(out)@ + header_fields(
                self.term,
                self.index,
                self.client_id,
                self.command@.len() as u64,
            ),
    {
        let ghost start = out@;
        push_u64(out, self.term);
        push_u64(out, self.index);
        push_zeros(out, 16);
        push_u64(out, self.client_id);
        push_u64(out, self.command.len() as u64);
        assert(out@ =~= start + header_fields(
            self.term,
            self.index,
            self.client_id,
            self.command@.len() as u64,
        ));
    }

    /// Appends the first page; returns how many command bytes are left for
    /// overflow pages.
    fn store_log_metadata(&self, out: &mut Vec<u8>) -> (r: usize)
        ensures
            final(out)@ == old(out)@ + first_page(self@),
            r == self.command@.len() - chunk(self.command@.len(), FIRST_PAGE_CAPACITY as nat),
    {
        let ghost start = out@;
        let mut digest: Vec<u8> = Vec::new();
        self.push_header(&mut digest);
        push_range(&mut digest, &self.command, 0, self.command.len());
        assert(digest@ =~= checksum_input(self@));
        let crc = checksum(&digest);
        out.push(1u8);
        push_u32(out, crc);
        self.push_header(out);
        let n = LogEntry::command_length(self.command.len());
        push_range(out, &self.command, 0, n);
        push_zeros(out, FIRST_PAGE_CAPACITY - n);
        assert(self.command@.subrange(0, n as int) =~= self.command@.take(n as int));
        assert(out@ =~= start + first_page(self@));
        self.command.len() - n
    }

    /// Appends the overflow page that starts at command byte `offset`;
    /// returns how many command bytes it carries.
    fn store_overflow(&self, out: &mut Vec<u8>, offset: usize) -> (r: usize)
        requires
            offset <= self.command@.len(),
        ensures
            r == chunk((self.command@.len() - offset) as nat, OVERFLOW_CAPACITY as nat),
            final(out)@ == old(out)@ + (seq![0u8] + self.command@.subrange(
                offset as int,
                offset + r,
            ) + zeros((OVERFLOW_CAPACITY - r) as nat)),
    {
        let ghost start = out@;
        let to_write = self.command.len() - offset;
        let filled = if to_write > OVERFLOW_CAPACITY {
            OVERFLOW_CAPACITY
        } else {
            to_write
        };
        out.push(0u8);
        push_range(out, &self.command, offset, offset + filled);
        push_zeros(out, OVERFLOW_CAPACITY - filled);
        assert(out@ =~= start + (seq![0u8] + self.command@.subrange(
            offset as int,
            offset + filled,
        ) + zeros((OVERFLOW_CAPACITY - filled) as nat)));
        filled
    }

    /// Appends the pages of this entry to `out`; returns how many there are.
    pub fn encode(&self, out: &mut Vec<u8>) -> (pages: u64)
        ensures
            final(out)@ == old(out)@ + encoded(self@),
            pages == page_count(self.command@.len()),
            encoded(self@).len() == PAGE_SIZE * page_count(self.command@.len()),
    {
        let ghost start = out@;
        let len = self.command.len();
        let to_write = self.store_log_metadata(out);
        let mut written = len - to_write;
        let mut pages: u64 = 1;
        proof {
            lemma_overflow_pages_len(self.command@.skip(written as int));
        }
        while written < len
            invariant
                len == self.command@.len(),
                written <= len,
                pages >= 1,
                written < len ==> pages <= written,
                out@ + overflow_pages(self.command@.skip(written as int)) == start + encoded(
                    self@,
                ),
                pages + overflow_page_count((len - written) as nat) == page_count(len as nat),
            decreases len - written,
        {
            let ghost before = out@;
            let filled = self.store_overflow(out, written);
            proof {
                let c = self.command@.skip(written as int);
                assert(c.take(filled as int) =~= self.command@.subrange(
                    written as int,
                    written + filled,
                ));
                assert(c.skip(filled as int) =~= self.command@.skip(written + filled));
                assert(out@ + overflow_pages(self.command@.skip(written + filled)) =~= before
                    + overflow_pages(c));
            }
            written = written + filled;
            pages = pages + 1;
        }
        assert(self.command@.skip(len as int) =~= Seq::<u8>::empty());
        assert(out@ =~= start + encoded(self@));
        proof {
            lemma_overflow_pages_len(
                self.command@.skip(chunk(len as nat, FIRST_PAGE_CAPACITY as nat) as int),
            );
            lemma_first_page_fields(self@, Seq::empty());
        }
        pages
    }
}

proof fn lemma_overflow_pages_cover(cmd: Seq<u8>)
    ensures
        overflow_pages(cmd).len() >= cmd.len(),
    decreases cmd.len(),
{
    if cmd.len() > 0 {
        let n = chunk(cmd.len(), OVERFLOW_CAPACITY as nat);
        lemma_overflow_pages_cover(cmd.skip(n as int));
    }
}

proof fn lemma_overflow_pages_len(cmd: Seq<u8>)
    ensures
        overflow_pages(cmd).len() == PAGE_SIZE * overflow_page_count(cmd.len()),
    decreases cmd.len(),
{
    if cmd.len() > 0 {
        let n = chunk(cmd.len(), OVERFLOW_CAPACITY as nat);
        lemma_overflow_pages_len(cmd.skip(n as int));
    }
}

/// `r` with `acc` put in front of its command bytes.
pub open spec fn prepend(acc: Seq<u8>, r: Result<Seq<u8>, DecodeError>) -> Result<Seq<u8>, DecodeError> {
    match r {
        Ok(rest) => Ok(acc + rest),
        Err(e) => Err(e),
    }
}

/// The checksum stored in a first page.
pub open spec fn stored_checksum(b: Seq<u8>) -> u32 {
    from_le32(b.subrange(1, 5))
}

impl LogEntry {
    /// Reads the first page at `bytes[start..]`: the entry with a command of
    /// the declared length whose first bytes are those the page carries (the
    /// rest zero), the stored checksum, and how many command bytes the page
    /// carries. A declared length beyond the bytes at hand is refused before
    /// anything is allocated.
    fn recover_metadata(bytes: &Vec<u8>, start: usize) -> (r: Result<(LogEntry, u32, usize), DecodeError>)
        requires
            start <= bytes@.len(),
        ensures
            ({
                let b = bytes@.skip(start as int);
                match r {
                    Ok((e, crc, k)) => {
                        let len = from_le64(b.subrange(45, 53));
                        &&& b.len() >= PAGE_SIZE
                        &&& b[0] == 1
                        &&& len <= b.len()
                        &&& e.command@.len() == len
                        &&& k == chunk(len as nat, FIRST_PAGE_CAPACITY as nat)
                        &&& crc == stored_checksum(b)
                        &&& e.term == from_le64(b.subrange(5, 13))
                        &&& e.index == from_le64(b.subrange(13, 21))
                        &&& e.client_id == from_le64(b.subrange(37, 45))
                        &&& e.command@.subrange(0, k as int) == b.subrange(53, 53 + k as int)
                        &&& e.command@.subrange(k as int, len as int) == zeros((len - k) as nat)
                    },
                    Err(err) => {
                        &&& b.len() < PAGE_SIZE ==> err == DecodeError::IncompleteRead
                        &&& b.len() >= PAGE_SIZE && b[0] != 1 ==> err == DecodeError::CorruptEntry
                        &&& b.len() >= PAGE_SIZE && b[0] == 1 ==> from_le64(b.subrange(45, 53))
                            > b.len() && err == DecodeError::IncompleteRead
                    },
                }
            }),
    {
        let ghost b = bytes@.skip(start as int);
        if bytes.len() - start < PAGE_SIZE {
            return Err(DecodeError::IncompleteRead);
        }
        if bytes[start] != 1 {
            return Err(DecodeError::CorruptEntry);
        }
        let term = read_u64(bytes, start + 5);
        let index = read_u64(bytes, start + 13);
        let client_id = read_u64(bytes, start + 37);
        let declared = read_u64(bytes, start + 45);
        let crc = read_u32(bytes, start + 1);
        proof {
            assert(b.subrange(45, 53) =~= bytes@.subrange(start + 45, start + 53));
        }
        if declared > (bytes.len() - start) as u64 {
            return Err(DecodeError::IncompleteRead);
        }
        let len = declared as usize;
        let first = LogEntry::command_length(len);
        let mut command: Vec<u8> = vec![0u8; len];
        let size: usize = bytes.len();
        let mut i: usize = 0;
        while i < first
            invariant
                size == bytes@.len(),
                first <= len <= bytes@.len() - start,
                start + PAGE_SIZE <= bytes@.len(),
                first <= FIRST_PAGE_CAPACITY,
                i <= first,
                command@.len() == len,
                forall|j: int| 0 <= j < i ==> command@[j] == bytes@[start + 53 + j],
                forall|j: int| first <= j < len ==> command@[j] == 0,
            decreases first - i,
        {
            command.set(i, bytes[start + 53 + i]);
            i = i + 1;
        }
        proof {
            assert(b.subrange(5, 13) =~= bytes@.subrange(start + 5, start + 13));
            assert(b.subrange(13, 21) =~= bytes@.subrange(start + 13, start + 21));
            assert(b.subrange(37, 45) =~= bytes@.subrange(start + 37, start + 45));
            assert(b.subrange(1, 5) =~= bytes@.subrange(start + 1, start + 5));
            assert(command@.subrange(0, first as int) =~= b.subrange(53, 53 + first as int));
            assert(command@.subrange(first as int, len as int) =~= zeros((len - first) as nat));
        }
        Ok((LogEntry { command, index, term, client_id }, crc, first))
    }

    /// Reads the overflow page at `bytes[pos..]` and copies the command bytes
    /// it carries into `command` from `command_read` on, as many as are still
    /// missing up to a page's worth; returns how many it copied.
    fn recover_overflow(bytes: &Vec<u8>, pos: usize, command: &mut Vec<u8>, command_read: usize) -> (r:
        Result<usize, DecodeError>)
        requires
            pos <= bytes@.len(),
            command_read <= old(command)@.len(),
        ensures
            final(command)@.len() == old(command)@.len(),
            ({
                let b = bytes@.skip(pos as int);
                match r {
                    Ok(n) => {
                        &&& b.len() >= PAGE_SIZE
                        &&& b[0] == 0
                        &&& n == chunk(
                            (old(command)@.len() - command_read) as nat,
                            OVERFLOW_CAPACITY as nat,
                        )
                        &&& final(command)@ == old(command)@.take(command_read as int) + b.subrange(
                            1,
                            1 + n as int,
                        ) + old(command)@.skip(command_read + n)
                    },
                    Err(err) => {
                        &&& final(command)@ == old(command)@
                        &&& b.len() < PAGE_SIZE ==> err == DecodeError::IncompleteRead
                        &&& b.len() >= PAGE_SIZE ==> b[0] != 0 && err == DecodeError::CorruptEntry
                    },
                }
            }),
    {
        if bytes.len() - pos < PAGE_SIZE {
            return Err(DecodeError::IncompleteRead);
        }
        if bytes[pos] != 0 {
            return Err(DecodeError::CorruptEntry);
        }
        let to_read = command.len() - command_read;
        let fill: usize = if to_read > OVERFLOW_CAPACITY {
            OVERFLOW_CAPACITY
        } else {
            to_read
        };
        let ghost old_cmd = command@;
        let size: usize = bytes.len();
        let clen: usize = command.len();
        let mut i: usize = 0;
        while i < fill
            invariant
                size == bytes@.len(),
                clen == old_cmd.len(),
                fill <= OVERFLOW_CAPACITY,
                command_read + fill <= old_cmd.len(),
                pos + PAGE_SIZE <= bytes@.len(),
                i <= fill,
                command@.len() == old_cmd.len(),
                forall|j: int| 0 <= j < command_read ==> command@[j] == old_cmd[j],
                forall|j: int|
                    command_read <= j < command_read + i ==> #[trigger] command@[j] == bytes@[pos + 1
                        + j - command_read],
                forall|j: int| command_read + fill <= j < old_cmd.len() ==> command@[j] == old_cmd[j],
            decreases fill - i,
        {
            command.set(command_read + i, bytes[pos + 1 + i]);
            i = i + 1;
        }
        assert(command@ =~= old_cmd.take(command_read as int) + bytes@.skip(pos as int).subrange(
            1,
            1 + fill as int,
        ) + old_cmd.skip(command_read + fill));
        Ok(fill)
    }

    /// Decodes the entry whose pages start at `bytes[start..]`; returns it with
    /// the position just past its last page.
    pub fn decode(bytes: &Vec<u8>, start: usize) -> (r: Result<(LogEntry, usize), DecodeError>)
        requires
            start <= bytes@.len(),
        ensures
            match (r, decode_spec(bytes@.skip(start as int))) {
                (Ok((e, next)), Ok((m, used))) => e@ == m && next == start + used && next
                    <= bytes@.len(),
                (Err(a), Err(b)) => a == b,
                _ => false,
            },
    {
        let ghost b = bytes@.skip(start as int);
        let size: usize = bytes.len();
        let (mut entry, stored, first) = match LogEntry::recover_metadata(bytes, start) {
            Ok(t) => t,
            Err(e) => {
                return Err(e);
            },
        };
        let len: usize = entry.command.len();
        let ghost whole = read_overflow(b.skip(PAGE_SIZE as int), (len - first) as nat);
        let mut read: usize = first;
        let mut pos: usize = start + PAGE_SIZE;
        let ghost mut pages: nat = 0;
        assert(b.skip(PAGE_SIZE as int) =~= bytes@.skip(pos as int));
        assert(entry.command@.subrange(first as int, first as int) =~= Seq::<u8>::empty());
        while read < len
            invariant
                first <= read <= len,
                first == chunk(len as nat, FIRST_PAGE_CAPACITY as nat),
                b == bytes@.skip(start as int),
                b.len() >= PAGE_SIZE,
                b[0] == 1,
                len == from_le64(b.subrange(45, 53)),
                len <= b.len(),
                stored == stored_checksum(b),
                entry.term == from_le64(b.subrange(5, 13)),
                entry.index == from_le64(b.subrange(13, 21)),
                entry.client_id == from_le64(b.subrange(37, 45)),
                whole == read_overflow(b.skip(PAGE_SIZE as int), (len - first) as nat),
                size == bytes@.len(),
                pos <= bytes@.len(),
                pos == start + PAGE_SIZE + PAGE_SIZE * pages,
                entry.command@.len() == len,
                entry.command@.subrange(0, first as int) == b.subrange(53, 53 + first as int),
                whole == prepend(
                    entry.command@.subrange(first as int, read as int),
                    read_overflow(bytes@.skip(pos as int), (len - read) as nat),
                ),
                overflow_page_count((len - first) as nat) == pages + overflow_page_count(
                    (len - read) as nat,
                ),
            decreases len - read,
        {
            let ghost before = entry.command@;
            let ghost here = bytes@.skip(pos as int);
            match LogEntry::recover_overflow(bytes, pos, &mut entry.command, read) {
                Ok(filled) => {
                    proof {
                        let rem = (len - read) as nat;
                        let nxt = bytes@.skip(pos + PAGE_SIZE);
                        let page = here.subrange(1, 1 + filled as int);
                        let acc = before.subrange(first as int, read as int);
                        assert(here.skip(PAGE_SIZE as int) =~= nxt);
                        assert(read_overflow(here, rem) == prepend(
                            page,
                            read_overflow(nxt, (rem - filled) as nat),
                        ));
                        match read_overflow(nxt, (rem - filled) as nat) {
                            Ok(rest) => {
                                assert(acc + (page + rest) =~= (acc + page) + rest);
                            },
                            Err(_) => {},
                        }
                        assert(entry.command@.subrange(first as int, read + filled) =~= before.subrange(
                            first as int,
                            read as int,
                        ) + here.subrange(1, 1 + filled as int));
                        assert(entry.command@.subrange(0, first as int) =~= before.subrange(
                            0,
                            first as int,
                        ));
                        pages = pages + 1;
                    }
                    read = read + filled;
                    pos = pos + PAGE_SIZE;
                },
                Err(e) => {
                    assert(read_overflow(here, (len - read) as nat) == Err::<Seq<u8>, DecodeError>(e));
                    return Err(e);
                },
            }
        }
        assert(PAGE_SIZE + PAGE_SIZE * pages == PAGE_SIZE * (1 + pages)) by (nonlinear_arith);
        let ghost cmd = entry.command@;
        assert(cmd =~= cmd.subrange(0, first as int) + cmd.subrange(first as int, read as int));
        let mut digest: Vec<u8> = Vec::new();
        push_range(&mut digest, bytes, start + 5, start + HEADER_END);
        push_range(&mut digest, &entry.command, 0, entry.command.len());
        assert(b.subrange(5, 53) =~= bytes@.subrange(start + 5, start + 53));
        assert(digest@ =~= b.subrange(5, 53) + cmd);
        assert(whole == Ok::<Seq<u8>, DecodeError>(cmd.subrange(first as int, read as int)));
        if checksum(&digest) != stored {
            return Err(DecodeError::CorruptEntry);
        }
        Ok((entry, pos))
    }

    /// Decodes the entry whose pages begin `bytes`.
    pub fn decode_from_bytes(bytes: &Vec<u8>) -> (r: Result<LogEntry, DecodeError>)
        ensures
            match (r, decode_spec(bytes@)) {
                (Ok(e), Ok((m, _))) => e@ == m,
                (Err(a), Err(b)) => a == b,
                _ => false,
            },
    {
        assert(bytes@.skip(0) =~= bytes@);
        match LogEntry::decode(bytes, 0) {
            Ok((e, _)) => Ok(e),
            Err(err) => Err(err),
        }
    }
}

proof fn lemma_read_overflow_round_trip(c: Seq<u8>, rest: Seq<u8>)
    ensures
        read_overflow(overflow_pages(c) + rest, c.len()) == Ok::<Seq<u8>, DecodeError>(c),
    decreases c.len(),
{
    if c.len() == 0 {
        assert(c =~= Seq::<u8>::empty());
    } else {
        let n = chunk(c.len(), OVERFLOW_CAPACITY as nat);
        let b = overflow_pages(c) + rest;
        lemma_overflow_pages_len(c.skip(n as int));
        assert(overflow_pages(c) == seq![0u8] + c.take(n as int) + zeros(
            (OVERFLOW_CAPACITY - n) as nat,
        ) + overflow_pages(c.skip(n as int)));
        assert(b.len() >= PAGE_SIZE);
        assert(b[0] == 0);
        lemma_read_overflow_round_trip(c.skip(n as int), rest);
        assert(b.skip(PAGE_SIZE as int) =~= overflow_pages(c.skip(n as int)) + rest);
        assert(b.subrange(1, 1 + n as int) =~= c.take(n as int));
        assert(c.take(n as int) + c.skip(n as int) =~= c);
    }
}

/// Facts about the bytes of the first page of an encoded entry.
proof fn lemma_first_page_fields(e: EntryModel, rest: Seq<u8>)
    requires
        e.command.len() <= u64::MAX,
    ensures
        ({
            let b = encoded(e) + rest;
            let n = chunk(e.command.len(), FIRST_PAGE_CAPACITY as nat);
            &&& first_page(e).len() == PAGE_SIZE
            &&& b.len() >= PAGE_SIZE
            &&& b[0] == 1
            &&& b.subrange(1, 5) == le32(crc32c_of(checksum_input(e)))
            &&& b.subrange(5, 53) == header_fields(
                e.term,
                e.index,
                e.client_id,
                e.command.len() as u64,
            )
            &&& b.subrange(5, 13) == le64(e.term)
            &&& b.subrange(13, 21) == le64(e.index)
            &&& b.subrange(37, 45) == le64(e.client_id)
            &&& b.subrange(45, 53) == le64(e.command.len() as u64)
            &&& b.subrange(53, 53 + n as int) == e.command.take(n as int)
            &&& b.skip(PAGE_SIZE as int) == overflow_pages(e.command.skip(n as int)) + rest
        }),
{
    let b = encoded(e) + rest;
    let n = chunk(e.command.len(), FIRST_PAGE_CAPACITY as nat);
    let h = header_fields(e.term, e.index, e.client_id, e.command.len() as u64);
    lemma_le64_round_trip(e.term);
    lemma_le64_round_trip(e.index);
    lemma_le64_round_trip(e.client_id);
    lemma_le64_round_trip(e.command.len() as u64);
    lemma_le32_round_trip(crc32c_of(checksum_input(e)));
    assert(first_page(e).len() == PAGE_SIZE);
    assert(b.subrange(1, 5) =~= le32(crc32c_of(checksum_input(e))));
    assert(b.subrange(5, 53) =~= h);
    assert(b.subrange(5, 13) =~= le64(e.term));
    assert(b.subrange(13, 21) =~= le64(e.index));
    assert(b.subrange(37, 45) =~= le64(e.client_id));
    assert(b.subrange(45, 53) =~= le64(e.command.len() as u64));
    assert(b.subrange(53, 53 + n as int) =~= e.command.take(n as int));
    assert(b.skip(PAGE_SIZE as int) =~= overflow_pages(e.command.skip(n as int)) + rest);
}

/// Decoding the pages that `encode` produced gives back the same entry, and
/// consumes exactly those pages, whatever bytes follow them.
pub proof fn lemma_round_trip(e: EntryModel, rest: Seq<u8>)
    requires
        e.command.len() <= u64::MAX,
    ensures
        decode_spec(encoded(e) + rest) == Ok::<(EntryModel, nat), DecodeError>(
            (e, (PAGE_SIZE * page_count(e.command.len())) as nat),
        ),
{
    let b = encoded(e) + rest;
    let n = chunk(e.command.len(), FIRST_PAGE_CAPACITY as nat);
    lemma_first_page_fields(e, rest);
    lemma_le64_round_trip(e.term);
    lemma_le64_round_trip(e.index);
    lemma_le64_round_trip(e.client_id);
    lemma_le64_round_trip(e.command.len() as u64);
    lemma_le32_round_trip(crc32c_of(checksum_input(e)));
    lemma_read_overflow_round_trip(e.command.skip(n as int), rest);
    lemma_overflow_pages_cover(e.command.skip(n as int));
    assert(b.len() >= e.command.len());
    assert(e.command.take(n as int) + e.command.skip(n as int) =~= e.command);
}

/// Changing one byte of an entry's pages never makes decoding return another
/// entry, unless the checksummed content it then reads differs from that of
/// the encoded entry and still has the same CRC32C.
pub proof fn lemma_corruption_detected(e: EntryModel, i: int, v: u8)
    requires
        e.command.len() <= u64::MAX,
        0 <= i < encoded(e).len(),
        v != encoded(e)[i],
    ensures
        ({
            let f = encoded(e).update(i, v);
            match decode_spec(f) {
                Ok((m, _)) => m == e || (f.subrange(5, 53) + m.command != checksum_input(e)
                    && crc32c_of(f.subrange(5, 53) + m.command) == crc32c_of(checksum_input(e))),
                Err(_) => true,
            }
        }),
{
    let enc = encoded(e);
    let f = enc.update(i, v);
    let n = chunk(e.command.len(), FIRST_PAGE_CAPACITY as nat);
    let crc = crc32c_of(checksum_input(e));
    lemma_first_page_fields(e, Seq::empty());
    assert(enc + Seq::<u8>::empty() =~= enc);
    lemma_round_trip(e, Seq::empty());
    lemma_le32_round_trip(crc);
    if let Ok((m, _)) = decode_spec(f) {
        let input = f.subrange(5, 53) + m.command;
        assert(stored_checksum(f) == crc32c_of(input));
        if 1 <= i < 5 {
            assert(f.skip(PAGE_SIZE as int) =~= enc.skip(PAGE_SIZE as int));
            assert(f.subrange(45, 53) =~= enc.subrange(45, 53));
            assert(f.subrange(53, 53 + n as int) =~= enc.subrange(53, 53 + n as int));
            assert(f.subrange(5, 53) =~= enc.subrange(5, 53));
            assert(f[0] == enc[0]);
            assert(m.command == e.command);
            assert(input =~= checksum_input(e));
            if stored_checksum(f) == crc {
                lemma_from_le32_injective(f.subrange(1, 5), enc.subrange(1, 5));
                assert(f.subrange(1, 5)[i - 1] == v);
                assert(enc.subrange(1, 5)[i - 1] == enc[i]);
                assert(false);
            }
            assert(false);
        } else {
            assert(f.subrange(1, 5) =~= enc.subrange(1, 5));
            if input == checksum_input(e) {
                lemma_le64_round_trip(e.term);
                lemma_le64_round_trip(e.index);
                lemma_le64_round_trip(e.client_id);
                lemma_le64_round_trip(e.command.len() as u64);
                assert(f.subrange(5, 53) =~= input.subrange(0, 48));
                assert(m.command =~= input.subrange(48, input.len() as int));
                assert(checksum_input(e).subrange(48, input.len() as int) =~= e.command);
                assert(m.term == from_le64(f.subrange(5, 13)));
                assert(m.index == from_le64(f.subrange(13, 21)));
                assert forall|k: int| 0 <= k < 8 implies f.subrange(5, 13)[k] == le64(e.term)[k] by {
                    assert(f.subrange(5, 13)[k] == input[k]);
                    assert(checksum_input(e)[k] == le64(e.term)[k]);
                }
                assert forall|k: int| 0 <= k < 8 implies f.subrange(13, 21)[k] == le64(e.index)[k] by {
                    assert(f.subrange(13, 21)[k] == input[8 + k]);
                    assert(checksum_input(e)[8 + k] == le64(e.index)[k]);
                }
                assert(m.client_id == from_le64(f.subrange(37, 45)));
                assert forall|k: int| 0 <= k < 8 implies f.subrange(37, 45)[k] == le64(
                    e.client_id,
                )[k] by {
                    assert(f.subrange(37, 45)[k] == input[32 + k]);
                    assert(checksum_input(e)[32 + k] == le64(e.client_id)[k]);
                }
                assert(f.subrange(37, 45) =~= le64(e.client_id));
                assert(f.subrange(5, 13) =~= le64(e.term));
                assert(f.subrange(13, 21) =~= le64(e.index));
                assert(m.term == e.term);
                assert(m.index == e.index);
                assert(m.client_id == e.client_id);
                assert(m == e);
            }
            assert(crc32c_of(input) == crc);
        }
    }
}

impl LogEntry {
    /// A copy of this entry.
    pub fn duplicate(&self) -> (r: LogEntry)
        ensures
            r@ == self@,
    {
        let mut command: Vec<u8> = Vec::new();
        push_range(&mut command, &self.command, 0, self.command.len());
        assert(command@ =~= self.command@);
        LogEntry { command, index: self.index, term: self.term, client_id: self.client_id }
    }
}

/// The values of a sequence of entries.
pub open spec fn entries_view(v: Seq<LogEntry>) -> Seq<EntryModel> {
    Seq::new(v.len(), |i: int| v[i]@)
}

/// The pages of an entry take `PAGE_SIZE` bytes each.
pub proof fn lemma_encoded_len(e: EntryModel)
    requires
        e.command.len() <= u64::MAX,
    ensures
        encoded(e).len() == PAGE_SIZE * page_count(e.command.len()),
{
    lemma_first_page_fields(e, Seq::empty());
    lemma_overflow_pages_len(
        e.command.skip(chunk(e.command.len(), FIRST_PAGE_CAPACITY as nat) as int),
    );
}

} // verus!
