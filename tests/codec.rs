use raft_core::codec::{DecodeError, LogEntry, PAGE_SIZE};

fn entry(len: usize) -> LogEntry {
    LogEntry {
        command: (0..len).map(|i| (i % 251) as u8).collect(),
        index: 7,
        term: 3,
        client_id: 0x1122_3344_5566_7788,
    }
}

fn encode(e: &LogEntry) -> (Vec<u8>, u64) {
    let mut out = Vec::new();
    let pages = e.encode(&mut out);
    (out, pages)
}

fn same(a: &LogEntry, b: &LogEntry) -> bool {
    a.command == b.command && a.index == b.index && a.term == b.term && a.client_id == b.client_id
}

#[test]
fn page_counts_follow_command_length() {
    for (len, pages) in [(0, 1), (1, 1), (459, 1), (460, 2), (970, 2), (971, 3), (1500, 4)] {
        let (bytes, n) = encode(&entry(len));
        assert_eq!(n, pages, "length {}", len);
        assert_eq!(bytes.len(), pages as usize * PAGE_SIZE);
    }
}

#[test]
fn round_trip_across_page_boundary() {
    for len in [0usize, 1, 458, 459, 460, 511, 969, 970, 971, 1001, 2048] {
        let e = entry(len);
        let (bytes, _) = encode(&e);
        let d = LogEntry::decode_from_bytes(&bytes).unwrap();
        assert!(same(&e, &d), "length {}", len);
    }
}

#[test]
fn first_page_layout() {
    let e = entry(500);
    let (b, _) = encode(&e);
    assert_eq!(b[0], 1);
    assert_eq!(&b[5..13], &3u64.to_le_bytes());
    assert_eq!(&b[13..21], &7u64.to_le_bytes());
    assert!(b[21..37].iter().all(|x| *x == 0));
    assert_eq!(&b[37..45], &0x1122_3344_5566_7788u64.to_le_bytes());
    assert_eq!(&b[45..53], &500u64.to_le_bytes());
    assert_eq!(&b[53..512], &e.command[0..459]);
    assert_eq!(b[512], 0);
    assert_eq!(&b[513..554], &e.command[459..500]);
    assert!(b[554..1024].iter().all(|x| *x == 0));
    let mut covered = b[5..53].to_vec();
    covered.extend_from_slice(&e.command);
    assert_eq!(&b[1..5], &crc32c::crc32c(&covered).to_le_bytes());
}

#[test]
fn decode_reports_position_after_entry() {
    let a = entry(600);
    let b = entry(10);
    let mut bytes = Vec::new();
    a.encode(&mut bytes);
    b.encode(&mut bytes);
    let (da, next) = LogEntry::decode(&bytes, 0).unwrap();
    assert!(same(&a, &da));
    assert_eq!(next, 2 * PAGE_SIZE);
    let (db, end) = LogEntry::decode(&bytes, next).unwrap();
    assert!(same(&b, &db));
    assert_eq!(end, 3 * PAGE_SIZE);
}

#[test]
fn single_byte_flip_is_detected_or_harmless() {
    let e = entry(700);
    let (bytes, _) = encode(&e);
    for i in 0..bytes.len() {
        let mut f = bytes.clone();
        f[i] ^= 0x5a;
        match LogEntry::decode_from_bytes(&f) {
            Ok(d) => assert!(same(&e, &d), "byte {} gave other data", i),
            Err(err) => assert!(
                err == DecodeError::CorruptEntry || err == DecodeError::IncompleteRead,
                "byte {}",
                i
            ),
        }
    }
}

#[test]
fn flipped_command_byte_is_corrupt() {
    let e = entry(700);
    let (mut bytes, _) = encode(&e);
    bytes[100] ^= 1;
    assert_eq!(LogEntry::decode_from_bytes(&bytes).unwrap_err(), DecodeError::CorruptEntry);
    let (mut bytes, _) = encode(&e);
    bytes[600] ^= 1;
    assert_eq!(LogEntry::decode_from_bytes(&bytes).unwrap_err(), DecodeError::CorruptEntry);
}

#[test]
fn flipped_checksum_is_corrupt() {
    let (mut bytes, _) = encode(&entry(10));
    bytes[2] ^= 0x80;
    assert_eq!(LogEntry::decode_from_bytes(&bytes).unwrap_err(), DecodeError::CorruptEntry);
}

#[test]
fn wrong_markers_are_corrupt() {
    let (mut bytes, _) = encode(&entry(10));
    bytes[0] = 0;
    assert_eq!(LogEntry::decode_from_bytes(&bytes).unwrap_err(), DecodeError::CorruptEntry);
    let (mut bytes, _) = encode(&entry(600));
    bytes[512] = 1;
    assert_eq!(LogEntry::decode_from_bytes(&bytes).unwrap_err(), DecodeError::CorruptEntry);
}

#[test]
fn short_input_is_incomplete() {
    let (bytes, _) = encode(&entry(600));
    assert_eq!(
        LogEntry::decode_from_bytes(&bytes[..511].to_vec()).unwrap_err(),
        DecodeError::IncompleteRead
    );
    assert_eq!(
        LogEntry::decode_from_bytes(&bytes[..512].to_vec()).unwrap_err(),
        DecodeError::IncompleteRead
    );
    assert_eq!(LogEntry::decode_from_bytes(&Vec::new()).unwrap_err(), DecodeError::IncompleteRead);
}

#[test]
fn command_length_caps_at_first_page() {
    assert_eq!(LogEntry::command_length(0), 0);
    assert_eq!(LogEntry::command_length(459), 459);
    assert_eq!(LogEntry::command_length(460), 459);
    assert_eq!(LogEntry::command_length(usize::MAX), 459);
}

#[test]
fn duplicate_copies_every_field() {
    let e = entry(33);
    let d = e.duplicate();
    assert!(same(&e, &d));
}

#[test]
fn huge_declared_length_is_refused_before_reading() {
    let (mut bytes, _) = encode(&entry(10));
    bytes[45..53].copy_from_slice(&u64::MAX.to_le_bytes());
    assert_eq!(LogEntry::decode_from_bytes(&bytes).unwrap_err(), DecodeError::IncompleteRead);
    let (mut bytes, _) = encode(&entry(10));
    bytes[45..53].copy_from_slice(&513u64.to_le_bytes());
    assert_eq!(LogEntry::decode_from_bytes(&bytes).unwrap_err(), DecodeError::IncompleteRead);
}
