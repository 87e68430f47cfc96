use raft_core::codec::{DecodeError, LogEntry, PAGE_SIZE};
use raft_core::page_cache::{PageCache, PageCacheError};

fn page(fill: u8) -> [u8; PAGE_SIZE] {
    let mut p = [fill; PAGE_SIZE];
    p[0] = fill.wrapping_add(1);
    p
}

#[test]
fn sequential_writes_sync_as_one_run() {
    let mut c = PageCache::new();
    assert_eq!(c.write(0, page(1)), Ok(()));
    assert_eq!(c.write(512, page(2)), Ok(()));
    assert_eq!(c.write(1024, page(3)), Ok(()));
    let (start, bytes) = c.sync().unwrap();
    assert_eq!(start, 0);
    let mut expected = Vec::new();
    expected.extend_from_slice(&page(1));
    expected.extend_from_slice(&page(2));
    expected.extend_from_slice(&page(3));
    assert_eq!(bytes, expected);
    assert!(c.sync().is_none());
}

#[test]
fn skipping_a_page_is_a_sequencing_violation() {
    let mut c = PageCache::new();
    assert_eq!(c.write(0, page(1)), Ok(()));
    assert_eq!(c.write(1024, page(2)), Err(PageCacheError::SequencingViolation));
    assert_eq!(c.write(0, page(2)), Err(PageCacheError::SequencingViolation));
    let (start, bytes) = c.sync().unwrap();
    assert_eq!(start, 0);
    assert_eq!(bytes, page(1).to_vec());
}

#[test]
fn new_epoch_may_start_anywhere() {
    let mut c = PageCache::new();
    assert_eq!(c.write(2048, page(1)), Ok(()));
    assert_eq!(c.write(2560, page(2)), Ok(()));
    let (start, bytes) = c.sync().unwrap();
    assert_eq!(start, 2048);
    assert_eq!(bytes.len(), 1024);
    assert_eq!(c.write(512, page(3)), Ok(()));
    assert_eq!(c.sync().unwrap().0, 512);
}

#[test]
fn reads_hit_written_and_filled_pages() {
    let mut c = PageCache::new();
    assert!(c.read(0).is_none());
    c.write(0, page(9)).unwrap();
    assert_eq!(c.read(0), Some(page(9)));
    c.sync();
    assert_eq!(c.read(0), Some(page(9)));
    assert!(c.read(512).is_none());
    c.fill(512, page(4));
    assert_eq!(c.read(512), Some(page(4)));
}

#[test]
fn entries_decode_through_the_cache() {
    let e = LogEntry { command: vec![42; 800], index: 1, term: 2, client_id: 3 };
    let f = LogEntry { command: b"set x 1".to_vec(), index: 2, term: 2, client_id: 3 };
    let mut bytes = Vec::new();
    e.encode(&mut bytes);
    f.encode(&mut bytes);
    let mut c = PageCache::new();
    for (k, chunk) in bytes.chunks(PAGE_SIZE).enumerate() {
        let mut p = [0u8; PAGE_SIZE];
        p.copy_from_slice(chunk);
        c.write((k * PAGE_SIZE) as u64, p).unwrap();
    }
    let (d, next) = LogEntry::decode_from_pagecache(&c, 0).unwrap();
    assert_eq!(d.command, e.command);
    assert_eq!(next, 1024);
    let (d2, end) = LogEntry::decode_from_pagecache(&c, next).unwrap();
    assert_eq!(d2.command, f.command);
    assert_eq!(d2.index, 2);
    assert_eq!(end, 1536);
    assert_eq!(
        LogEntry::decode_from_pagecache(&c, end).unwrap_err(),
        DecodeError::IncompleteRead
    );
}
