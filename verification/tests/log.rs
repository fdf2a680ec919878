//! The log and its records.

use bunnymeshdb::storage::crc::{crc32, crc32_parts};
use bunnymeshdb::storage::log::{Log, RecoverWarning};
use bunnymeshdb::storage::naming::{ns_dir, parse_ns_dir, valid_ns};
use bunnymeshdb::storage::record::{Record, HEADER_LEN, TAG_DEL, TAG_PUT, TAG_PUT_TTL};
use bunnymeshdb::storage::StorageError;

fn rec(tag: u8, key: &[u8], hlc: u64, value: &[u8]) -> Record {
    Record {
        tag,
        key: key.to_vec(),
        hlc,
        replica: [7u8; 32],
        author: [9u8; 32],
        value: value.to_vec(),
        expires_at: 0,
        ops: Vec::new(),
    }
}

fn filled(n: u64, value: &[u8]) -> Log {
    let mut log = Log::open("ns", vec![]).unwrap();
    for i in 0..n {
        let r = rec(TAG_PUT, format!("k{i}").as_bytes(), i, value);
        let prev = log.head();
        log.append(&r.to_bytes(prev)).unwrap();
    }
    log
}

/// Where a record starts in a segment.
fn start_of(buf: &[u8], record: usize) -> usize {
    let mut pos = 0usize;
    for _ in 0..record {
        let declared = u32::from_le_bytes(buf[pos + 1..pos + 5].try_into().unwrap()) as usize;
        pos += HEADER_LEN + declared;
    }
    pos
}

#[test]
fn crc32_known_answer() {
    assert_eq!(crc32(b"123456789"), 0xCBF43926, "IEEE 802.3 KAT");
}

#[test]
fn append_recover_roundtrip() {
    let mut log = Log::open("photos", vec![]).unwrap();
    let r1 = rec(TAG_PUT, b"a", 100, b"hello");
    let r2 = rec(TAG_PUT, b"b", 101, b"world");
    let r3 = rec(TAG_DEL, b"a", 102, b"");
    let s1 = log.append(&r1.to_bytes([0u8; 32])).unwrap();
    let s2 = log.append(&r2.to_bytes(Record::record_hash(&[0u8; 32], &r1.to_bytes([0u8; 32])))).unwrap();
    assert_eq!((s1, s2), (1, 2));

    let (log2, warn) = Log::recover("photos", log.segments().clone()).unwrap();
    assert_eq!(warn, None);
    assert_eq!(log2.seq(), 2);
    let recs = log2.read_records(1, 0).unwrap();
    assert_eq!(recs.len(), 2);
    let (q1, b1) = &recs[0];
    let (q2, b2) = &recs[1];
    assert_eq!((*q1, *q2), (1, 2));
    let (p1, _) = Record::parse(b1, &[0u8; 32]).unwrap();
    let (p2, _) = Record::parse(b2, &Record::record_hash(&[0u8; 32], b1)).unwrap();
    assert_eq!(p1.key, b"a");
    assert_eq!(p1.value, b"hello");
    assert_eq!(p2.key, b"b");
    assert_eq!(p2.value, b"world");

    let expected_head = Record::record_hash(&Record::record_hash(&[0u8; 32], b1), b2);
    assert_eq!(log2.head(), expected_head);

    let mut log3 = log2;
    let s3 = log3.append(&r3.to_bytes(log3.head())).unwrap();
    assert_eq!(s3, 3);
    let (log4, _) = Log::recover("photos", log3.segments().clone()).unwrap();
    assert_eq!(log4.seq(), 3);
}

#[test]
fn bit_flip_mid_log_is_corrupt() {
    let log = filled(4, b"value");
    let mut segs = log.segments().clone();
    let buf = &mut segs[0];
    let pos = start_of(buf, 1);
    let declared = u32::from_le_bytes(buf[pos + 1..pos + 5].try_into().unwrap()) as usize;
    buf[pos + HEADER_LEN + declared - 1] ^= 0x40;
    let err = Log::recover("ns", segs).unwrap_err();
    assert!(matches!(err, StorageError::Corrupt { .. }), "mid-log corruption must be Corrupt, got {err:?}");
}

#[test]
fn truncated_tail_recovers_with_warning() {
    let log = filled(3, b"payload");
    let mut segs = log.segments().clone();
    let n = segs[0].len();
    segs[0].truncate(n - 7);

    let (log2, warn) = Log::recover("ns", segs).unwrap();
    match warn {
        Some(RecoverWarning::TruncatedTail { records_dropped }) => {
            assert_eq!(records_dropped, 1, "exactly the torn record dropped");
        }
        other => panic!("expected TruncatedTail, got {other:?}"),
    }
    assert_eq!(log2.seq(), 2);
    let mut log3 = log2;
    let r = rec(TAG_PUT, b"new", 5, b"v");
    let s = log3.append(&r.to_bytes(log3.head())).unwrap();
    assert_eq!(s, 3);
    let (log4, warn2) = Log::recover("ns", log3.segments().clone()).unwrap();
    assert_eq!(warn2, None);
    assert_eq!(log4.seq(), 3);
}

#[test]
fn torn_mid_record_recovers() {
    let log = filled(3, b"value");
    let mut segs = log.segments().clone();
    let pos = start_of(&segs[0], 2);
    segs[0].truncate(pos + 4);
    let (log2, warn) = Log::recover("ns", segs).unwrap();
    assert_eq!(warn, Some(RecoverWarning::TruncatedTail { records_dropped: 1 }));
    assert_eq!(log2.seq(), 2);
}

#[test]
fn tail_crc_failure_recovers() {
    let log = filled(3, b"value");
    let mut segs = log.segments().clone();
    let buf = &mut segs[0];
    let pos = start_of(buf, 2);
    let declared = u32::from_le_bytes(buf[pos + 1..pos + 5].try_into().unwrap()) as usize;
    buf[pos + HEADER_LEN + declared - 1] ^= 0x40;
    let (log2, warn) = Log::recover("ns", segs).unwrap();
    assert_eq!(warn, Some(RecoverWarning::TruncatedTail { records_dropped: 1 }));
    assert_eq!(log2.seq(), 2);
}

#[test]
fn empty_and_absent_logs() {
    let log = Log::open("ns", vec![]).unwrap();
    assert_eq!(log.seq(), 0);
    assert_eq!(log.head(), [0u8; 32]);
    let (log2, warn) = Log::recover("ns", log.segments().clone()).unwrap();
    assert_eq!(warn, None);
    assert_eq!(log2.seq(), 0);
    let (log3, warn3) = Log::recover("ns", vec![vec![]]).unwrap();
    assert_eq!(warn3, None);
    assert_eq!(log3.seq(), 0);
}

#[test]
fn segment_roll_over_64mib() {
    let mut log = Log::open("ns", vec![]).unwrap();
    let big = vec![b'x'; 1024 * 1024];
    let mut last_seq = 0;
    for i in 0..68u64 {
        let r = rec(TAG_PUT, format!("k{i}").as_bytes(), i, &big);
        let prev = log.head();
        last_seq = log.append(&r.to_bytes(prev)).unwrap();
    }
    assert_eq!(last_seq, 68);
    assert!(log.segments().len() >= 2, "should have rolled, segments={}", log.segments().len());
    let (log2, warn) = Log::recover("ns", log.segments().clone()).unwrap();
    assert_eq!(warn, None, "no corruption after roll");
    assert_eq!(log2.seq(), 68);
    assert_eq!(log2.read_records(1, 0).unwrap().len(), 68);
}

#[test]
fn records_read_back() {
    let mut r = rec(TAG_PUT_TTL, b"key", 5, b"value");
    r.expires_at = 77;
    let bytes = r.to_bytes([3u8; 32]);
    let (back, prev) = Record::parse_chain(&bytes, None).unwrap();
    assert_eq!(back, r);
    assert_eq!(prev, [3u8; 32]);
    assert!(Record::parse(&bytes, &[4u8; 32]).is_err());
}

#[test]
fn hash_is_chained() {
    // SHA-256 of the empty string stands behind no record, but its chain is known.
    let a = Record::record_hash(&[0u8; 32], b"x");
    let b = Record::record_hash(&[1u8; 32], b"x");
    assert_ne!(a, b);
    assert_eq!(crc32_parts(b"1234", b"56789"), crc32(b"123456789"));
}

#[test]
fn directory_names() {
    assert_eq!(parse_ns_dir(&ns_dir("photos")), Some("photos".to_string()));
    let owner = format!("u/{}", "ab".repeat(32));
    assert_eq!(parse_ns_dir(&ns_dir(&owner)), Some(owner.clone()));
    assert!(valid_ns(&owner));
    assert!(!valid_ns("Bad Name!"));
    assert!(!valid_ns(""));
}

#[test]
fn a_flipped_bit_is_refused() {
    let bytes = rec(TAG_PUT, b"key", 100, b"value").to_bytes([3u8; 32]);
    assert!(Record::parse(&bytes, &[3u8; 32]).is_ok());
    for i in 0..bytes.len() {
        for bit in 0..8 {
            let mut bad = bytes.clone();
            bad[i] ^= 1 << bit;
            assert!(Record::parse(&bad, &[3u8; 32]).is_err(), "byte {i}, bit {bit}");
        }
    }
}

#[test]
fn a_changed_byte_changes_the_crc() {
    let data = b"some bytes to sum";
    for i in 0..data.len() {
        let mut other = data.to_vec();
        other[i] = other[i].wrapping_add(13);
        assert_ne!(crc32(&other), crc32(data));
    }
}

#[test]
fn a_changed_log_is_noticed() {
    let log = filled(3, b"value");
    let segs = log.segments().clone();
    assert_eq!(segs.len(), 1);
    let starts = [start_of(&segs[0], 0), start_of(&segs[0], 1), start_of(&segs[0], 2)];
    for at in 0..segs[0].len() {
        let record = starts.iter().rposition(|s| *s <= at).unwrap();
        if (1..5).contains(&(at - starts[record])) {
            continue;
        }
        let mut bad = segs.clone();
        bad[0][at] ^= 4;
        match Log::recover("ns", bad) {
            Err(StorageError::Corrupt { .. }) => {}
            Err(e) => panic!("{e:?}"),
            Ok((cut, warning)) => {
                assert_eq!(record, 2, "only the last record may be lost");
                assert!(warning.is_some());
                assert_eq!(cut.seq(), 2);
            }
        }
    }
}
