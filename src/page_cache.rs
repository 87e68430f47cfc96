//! Write-back, read-through cache of fixed-size pages.
//!
//! Writes go to the cache at once and gather in a pending buffer; within one
//! buffering epoch every write lands one page past the previous one. `sync`
//! hands the whole buffer out as one contiguous write at the epoch's first
//! offset, for the backing store to perform and make durable, and ends the
//! epoch. A read that misses the cache is served by the backing store and
//! the page is then put into the cache with `fill`.
use vstd::prelude::*;
use std::collections::HashMap;
use crate::codec::{decode_spec, DecodeError, EntryModel, LogEntry, PAGE_SIZE};

verus! {

broadcast use vstd::std_specs::hash::group_hash_axioms;

/// A write that does not land one page past the previous write of its epoch.
#[derive(Clone, Copy, Debug, PartialEq, Eq, Structural)]
pub enum PageCacheError {
    SequencingViolation,
}

/// The value of a [`PageCache`].
pub ghost struct PageCacheModel {
    pub cache: Map<u64, Seq<u8>>,
    pub buffer: Seq<u8>,
    pub start: Option<u64>,
    pub last: u64,
}

pub struct PageCache {
    page_cache: HashMap<u64, [u8; PAGE_SIZE]>,
    buffer: Vec<u8>,
    buffer_start_address: Option<u64>,
    buffer_offset: u64,
}

/// The model after writing `page` at `offset`, or the error.
pub open spec fn write_spec(m: PageCacheModel, offset: u64, page: Seq<u8>) -> Result<
    PageCacheModel,
    PageCacheError,
> {
    match m.start {
        None => Ok(
            PageCacheModel {
                cache: m.cache.insert(offset, page),
                buffer: m.buffer + page,
                start: Some(offset),
                last: offset,
            },
        ),
        Some(s) => if m.last + PAGE_SIZE == offset {
            Ok(
                PageCacheModel {
                    cache: m.cache.insert(offset, page),
                    buffer: m.buffer + page,
                    start: Some(s),
                    last: offset,
                },
            )
        } else {
            Err(PageCacheError::SequencingViolation)
        },
    }
}

/// The contiguous write that `sync` hands out: the epoch's first offset and
/// the buffered bytes; `None` when nothing is buffered.
pub open spec fn flush_spec(m: PageCacheModel) -> Option<(u64, Seq<u8>)> {
    match m.start {
        Some(s) => Some((s, m.buffer)),
        None => None,
    }
}

impl View for PageCache {
    type V = PageCacheModel;

    closed spec fn view(&self) -> PageCacheModel {
        PageCacheModel {
            cache: self.page_cache@.map_values(|p: [u8; PAGE_SIZE]| p@),
            buffer: self.buffer@,
            start: self.buffer_start_address,
            last: self.buffer_offset,
        }
    }
}

impl PageCacheModel {
    /// Pages are whole; the buffer holds the pages from the epoch's start
    /// through its last write; no epoch, no buffer.
    pub open spec fn wf(&self) -> bool {
        &&& forall|k: u64| #[trigger] self.cache.contains_key(k) ==> self.cache[k].len() == PAGE_SIZE
        &&& match self.start {
            None => self.buffer.len() == 0,
            Some(s) => s <= self.last && self.buffer.len() == self.last - s + PAGE_SIZE,
        }
    }
}

impl PageCache {
    pub open spec fn wf(&self) -> bool {
        self@.wf()
    }

    /// An empty cache with no pending writes.
    pub fn new() -> (r: PageCache)
        ensures
            r.wf(),
            r@.cache.is_empty(),
            r@.buffer.len() == 0,
            r@.start is None,
    {
        let r = PageCache {
            page_cache: HashMap::new(),
            buffer: Vec::new(),
            buffer_start_address: None,
            buffer_offset: 0,
        };
        assert(r@.cache =~= Map::empty());
        r
    }

    /// Puts `page` into the cache at `offset`.
    fn update_cache(&mut self, offset: u64, page: [u8; PAGE_SIZE])
        requires
            old(self).wf(),
        ensures
            final(self)@ == (PageCacheModel { cache: old(self)@.cache.insert(offset, page@), ..old(self)@ }),
            final(self).wf(),
    {
        self.page_cache.insert(offset, page);
        assert(self@.cache =~= old(self)@.cache.insert(offset, page@));
    }

    /// The cached page at `offset`, if there is one.
    pub fn read(&self, offset: u64) -> (r: Option<[u8; PAGE_SIZE]>)
        requires
            self.wf(),
        ensures
            match r {
                Some(p) => self@.cache.contains_key(offset) && p@ == self@.cache[offset],
                None => !self@.cache.contains_key(offset),
            },
    {
        match self.page_cache.get(&offset) {
            Some(p) => Some(*p),
            None => None,
        }
    }

    /// Puts a page read from the backing store at `offset` into the cache.
    pub fn fill(&mut self, offset: u64, page: [u8; PAGE_SIZE])
        requires
            old(self).wf(),
        ensures
            final(self)@ == (PageCacheModel { cache: old(self)@.cache.insert(offset, page@), ..old(self)@ }),
            final(self).wf(),
    {
        self.update_cache(offset, page);
    }

    /// Writes `page` at `offset` into the cache and the pending buffer.
    pub fn write(&mut self, offset: u64, page: [u8; PAGE_SIZE]) -> (r: Result<(), PageCacheError>)
        requires
            old(self).wf(),
        ensures
            final(self).wf(),
            match write_spec(old(self)@, offset, page@) {
                Ok(m) => r is Ok && final(self)@ == m,
                Err(e) => r == Err::<(), PageCacheError>(e) && final(self)@ == old(self)@,
            },
    {
        match self.buffer_start_address {
            None => {
                self.buffer_start_address = Some(offset);
                self.buffer_offset = offset;
            },
            Some(_) => {
                if self.buffer_offset > u64::MAX - PAGE_SIZE as u64 || offset != self.buffer_offset
                    + PAGE_SIZE as u64 {
                    return Err(PageCacheError::SequencingViolation);
                }
                self.buffer_offset = offset;
            },
        }
        let ghost before = self.buffer@;
        let mut i: usize = 0;
        while i < PAGE_SIZE
            invariant
                i <= PAGE_SIZE,
                self.buffer@ == before + page@.take(i as int),
                self.page_cache == old(self).page_cache,
                self.buffer_start_address == (match old(self).buffer_start_address {
                    None => Some(offset),
                    Some(s) => Some(s),
                }),
                self.buffer_offset == offset,
            decreases PAGE_SIZE - i,
        {
            self.buffer.push(page[i]);
            i = i + 1;
            assert(self.buffer@ =~= before + page@.take(i as int));
        }
        assert(page@.take(PAGE_SIZE as int) =~= page@);
        self.update_cache(offset, page);
        Ok(())
    }

    /// Ends the buffering epoch: returns the epoch's first offset with every
    /// buffered byte, to be written there as one contiguous write and made
    /// durable; `None` when nothing is pending. The cache is kept.
    pub fn sync(&mut self) -> (r: Option<(u64, Vec<u8>)>)
        requires
            old(self).wf(),
        ensures
            final(self).wf(),
            final(self)@ == (PageCacheModel { buffer: Seq::empty(), start: None, ..old(self)@ }),
            match (r, flush_spec(old(self)@)) {
                (Some((s, b)), Some((t, c))) => s == t && b@ == c,
                (None, None) => true,
                _ => false,
            },
    {
        let r = match self.buffer_start_address {
            Some(s) => {
                let mut b: Vec<u8> = Vec::new();
                b.append(&mut self.buffer);
                Some((s, b))
            },
            None => None,
        };
        self.buffer = Vec::new();
        self.buffer_start_address = None;
        assert(self@.buffer =~= Seq::<u8>::empty());
        r
    }
}

/// The pages of `pages`, one after another.
pub open spec fn concat_pages(pages: Seq<Seq<u8>>) -> Seq<u8>
    decreases pages.len(),
{
    if pages.len() == 0 {
        Seq::empty()
    } else {
        concat_pages(pages.drop_last()) + pages.last()
    }
}

/// Writing `pages[k]` at offset `s + k * PAGE_SIZE`, in order of `k`, from `m`.
pub open spec fn write_run(m: PageCacheModel, s: u64, pages: Seq<Seq<u8>>) -> Result<
    PageCacheModel,
    PageCacheError,
>
    decreases pages.len(),
{
    if pages.len() == 0 {
        Ok(m)
    } else {
        match write_run(m, s, pages.drop_last()) {
            Ok(m1) => write_spec(m1, (s + PAGE_SIZE * (pages.len() - 1)) as u64, pages.last()),
            Err(e) => Err(e),
        }
    }
}

/// Pages written one after another from offset `s` in a fresh epoch are all
/// accepted, and `sync` then hands them out as one contiguous write at `s`.
pub proof fn lemma_sequential_writes(m: PageCacheModel, s: u64, pages: Seq<Seq<u8>>)
    requires
        m.wf(),
        m.start is None,
        pages.len() > 0,
        s + PAGE_SIZE * (pages.len() - 1) <= u64::MAX,
    ensures
        write_run(m, s, pages) matches Ok(m2) && m2.start == Some(s) && m2.last == s + PAGE_SIZE
            * (pages.len() - 1) && flush_spec(m2) == Some((s, concat_pages(pages))),
    decreases pages.len(),
{
    if pages.len() == 1 {
        assert(pages.drop_last() =~= Seq::<Seq<u8>>::empty());
        assert(concat_pages(pages.drop_last()) == Seq::<u8>::empty());
        assert(m.buffer =~= Seq::<u8>::empty());
        assert(m.buffer + pages.last() =~= concat_pages(pages));
    } else {
        lemma_sequential_writes(m, s, pages.drop_last());
    }
}

/// In an epoch begun at `s`, a next write anywhere but one page past `s` is
/// refused as out of sequence.
pub proof fn lemma_gap_refused(m: PageCacheModel, s: u64, p0: Seq<u8>, offset: u64, p1: Seq<u8>)
    requires
        m.start is None,
        offset != s + PAGE_SIZE,
    ensures
        write_spec(m, s, p0) matches Ok(m1) && write_spec(m1, offset, p1) == Err::<
            PageCacheModel,
            PageCacheError,
        >(PageCacheError::SequencingViolation),
{
}

/// The bytes of the cached pages at `offset`, `offset + PAGE_SIZE`, ... up
/// to the first page that is not cached or does not end within `u64`.
pub open spec fn cached_run(cache: Map<u64, Seq<u8>>, offset: u64) -> Seq<u8>
    decreases u64::MAX - offset,
{
    if !cache.contains_key(offset) || offset > u64::MAX - PAGE_SIZE {
        Seq::empty()
    } else {
        cache[offset] + cached_run(cache, (offset + PAGE_SIZE) as u64)
    }
}

impl LogEntry {
    /// Decodes the entry whose pages are cached from `offset` on; returns it
    /// with the offset just past its last page.
    pub fn decode_from_pagecache(page_cache: &PageCache, offset: u64) -> (r: Result<
        (LogEntry, u64),
        DecodeError,
    >)
        requires
            page_cache.wf(),
        ensures
            match (r, decode_spec(cached_run(page_cache@.cache, offset))) {
                (Ok((e, next)), Ok((m, used))) => e@ == m && next == offset + used,
                (Err(a), Err(b)) => a == b,
                _ => false,
            },
    {
        let ghost cache = page_cache@.cache;
        let mut bytes: Vec<u8> = Vec::new();
        let mut pos: u64 = offset;
        let mut more = true;
        while more
            invariant
                page_cache.wf(),
                cache == page_cache@.cache,
                offset <= pos,
                bytes@.len() == pos - offset,
                pos <= u64::MAX,
                more ==> bytes@ + cached_run(cache, pos) == cached_run(cache, offset),
                !more ==> bytes@ == cached_run(cache, offset),
            decreases u64::MAX - pos + if more { 1int } else { 0int },
        {
            if pos > u64::MAX - PAGE_SIZE as u64 {
                more = false;
                assert(bytes@ + cached_run(cache, pos) =~= bytes@);
            } else {
            match page_cache.read(pos) {
                Some(page) => {
                    let ghost before = bytes@;
                    let mut i: usize = 0;
                    while i < PAGE_SIZE
                        invariant
                            i <= PAGE_SIZE,
                            bytes@ == before + page@.take(i as int),
                        decreases PAGE_SIZE - i,
                    {
                        bytes.push(page[i]);
                        i = i + 1;
                        assert(bytes@ =~= before + page@.take(i as int));
                    }
                    assert(page@.take(PAGE_SIZE as int) =~= page@);
                    assert(before + cached_run(cache, pos) =~= bytes@ + cached_run(
                        cache,
                        (pos + PAGE_SIZE) as u64,
                    ));
                    pos = pos + PAGE_SIZE as u64;
                },
                None => {
                    assert(bytes@ + cached_run(cache, pos) =~= bytes@);
                    more = false;
                },
            }
            }
        }
        assert(bytes@.skip(0) =~= bytes@);
        match LogEntry::decode(&bytes, 0) {
            Ok((e, used)) => {
                assert(used <= bytes@.len());
                Ok((e, offset + used as u64))
            },
            Err(err) => Err(err),
        }
    }
}

} // verus!
