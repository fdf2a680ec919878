//! The store.

use bunnymeshdb::storage::record::{Record, TAG_BATCH, TAG_DEL, TAG_PUT, TAG_PUT_TTL};
use bunnymeshdb::storage::snapshot::{load_snap, policy_to_u8};
use bunnymeshdb::storage::store::compact::compact_at;
use bunnymeshdb::storage::{compact_dir, ns_dir, ConflictPolicy, Disk, Entry, StorageError, Store};

const REP: [u8; 32] = [1u8; 32];
const AUTH: [u8; 32] = [2u8; 32];
const B_REP: [u8; 32] = [3u8; 32];

fn fresh() -> Store {
    Store::open(&Disk { snap: None, dirs: vec![] }).unwrap()
}

fn seed(store: &mut Store, ns: &str, key: &str, val: &str, hlc: u64) -> u64 {
    store
        .put(ns, &key.as_bytes().to_vec(), val.as_bytes(), hlc, REP, AUTH, 0)
        .unwrap()
}

#[test]
fn lww_roundtrip_scan_delete() {
    let mut s = fresh();
    s.create_namespace("photos", ConflictPolicy::Lww).unwrap();
    assert!(s.create_namespace("photos", ConflictPolicy::Lww).is_err(), "dup rejected");
    assert!(s.create_namespace("Bad Name!", ConflictPolicy::Lww).is_err(), "bad name rejected");

    seed(&mut s, "photos", "1", "hello", 100);
    seed(&mut s, "photos", "a/x", "nested", 101);
    assert_eq!(s.namespaces(), vec![("photos".to_string(), ConflictPolicy::Lww)]);

    match s.get("photos", &b"1".to_vec()).unwrap() {
        Entry::Lww(v) => assert_eq!(v.value, b"hello"),
        _ => panic!("expected Lww"),
    }
    let rows = s.scan("photos", b"");
    assert_eq!(rows.len(), 2);
    let rows = s.scan("photos", b"a");
    assert_eq!(rows.len(), 1);
    assert_eq!(rows[0].0, b"a/x");

    let seq = s.delete("photos", &b"1".to_vec(), 102, REP, AUTH).unwrap();
    assert!(seq > 0);
    assert!(s.get("photos", &b"1".to_vec()).is_none(), "deleted key must be gone");
    let rows = s.scan("photos", b"");
    assert_eq!(rows.len(), 1);
    assert_eq!(s.log_records("photos", 1, 0).unwrap().len(), 3);
    assert!(s.head("photos").is_some());
    assert_eq!(s.namespaces_with_head().len(), 1);
    assert!(s.meta_get("created_ms").is_some());
}

#[test]
fn lww_overwrite_keeps_single_version() {
    let mut s = fresh();
    s.create_namespace("n", ConflictPolicy::Lww).unwrap();
    seed(&mut s, "n", "k", "v1", 100);
    seed(&mut s, "n", "k", "v2", 200);
    let e = s.get("n", &b"k".to_vec()).unwrap();
    match e {
        Entry::Lww(v) => {
            assert_eq!(v.value, b"v2");
            assert_eq!(v.hlc, 200);
        }
        _ => panic!("expected single Lww version"),
    }
}

#[test]
fn register_appends_versions() {
    let mut s = fresh();
    s.create_namespace("n", ConflictPolicy::CrdtRegister).unwrap();
    seed(&mut s, "n", "k", "a", 100);
    seed(&mut s, "n", "k", "b", 200);
    match s.get("n", &b"k".to_vec()).unwrap() {
        Entry::Register(vs) => {
            assert_eq!(vs.len(), 2);
            assert_eq!(vs[0].value, b"a");
            assert_eq!(vs[1].value, b"b");
        }
        _ => panic!("expected Register"),
    }
}

#[test]
fn compact_drops_superseded_and_expired_keeps_live_and_tombs() {
    let mut s = fresh();
    s.create_namespace("n", ConflictPolicy::Lww).unwrap();
    seed(&mut s, "n", "k1", "fresh", 100);
    seed(&mut s, "n", "k1", "newer", 200);
    s.put("n", &b"k2".to_vec(), b"bye", 300, REP, AUTH, 1).unwrap();
    s.put("n", &b"k3".to_vec(), b"keep", 400, REP, AUTH, i64::MAX as u64).unwrap();
    s.put("n", &b"k4".to_vec(), b"tmp", 500, REP, AUTH, 0).unwrap();
    s.delete("n", &b"k4".to_vec(), 501, REP, AUTH).unwrap();

    let (reclaimed, disk) = compact_dir(&s.disk()).unwrap();
    let dir = disk.dirs.iter().find(|d| d.name == ns_dir("n")).unwrap();
    assert_eq!(dir.segs.len(), 1);
    let s = Store::open(&disk).unwrap();
    match s.get("n", &b"k1".to_vec()).unwrap() {
        Entry::Lww(v) => assert_eq!(v.value, b"newer"),
        _ => panic!("expected Lww"),
    }
    assert_eq!(s.get("n", &b"k2".to_vec()), None);
    match s.get("n", &b"k3".to_vec()).unwrap() {
        Entry::Lww(v) => assert_eq!(v.value, b"keep"),
        _ => panic!("expected Lww"),
    }
    assert_eq!(s.get("n", &b"k4".to_vec()), None);
    let recs = s.log_records("n", 1, 0).unwrap();
    assert!(recs.iter().any(|(_, bytes)| bytes[0] == TAG_DEL));
    assert!(recs.len() < 4);
    assert_eq!(s.policy("n"), Some(ConflictPolicy::Lww));
    assert!(reclaimed > 0);
}

#[test]
fn gc_live_compacts_standalone_store_in_place() {
    let mut s = fresh();
    s.create_namespace("n", ConflictPolicy::Lww).unwrap();
    seed(&mut s, "n", "k", "v1", 100);
    seed(&mut s, "n", "k", "v2", 200);
    s.put("n", &b"tmp".to_vec(), b"exp", 300, REP, AUTH, 1).unwrap();
    s.put("n", &b"live".to_vec(), b"keep", 400, REP, AUTH, i64::MAX as u64).unwrap();
    let reclaimed = s.gc_live().unwrap();
    assert!(reclaimed > 0);
    match s.get("n", &b"k".to_vec()).unwrap() {
        Entry::Lww(v) => assert_eq!(v.value, b"v2"),
        _ => panic!("expected Lww"),
    }
    assert_eq!(s.get("n", &b"tmp".to_vec()), None);
    match s.get("n", &b"live".to_vec()).unwrap() {
        Entry::Lww(v) => assert_eq!(v.value, b"keep"),
        _ => panic!("expected Lww"),
    }
    let recs = s.log_records("n", 1, 0).unwrap();
    assert!(recs.len() <= 2);
    let s2 = Store::open(&s.disk()).unwrap();
    match s2.get("n", &b"k".to_vec()).unwrap() {
        Entry::Lww(v) => assert_eq!(v.value, b"v2"),
        _ => panic!("expected Lww after reopen"),
    }
}

#[test]
fn compact_refuses_mesh_synced_node() {
    let mut s = fresh();
    s.create_namespace("n", ConflictPolicy::Lww).unwrap();
    seed(&mut s, "n", "k", "v", 1);
    s.set_peer_clock("node2", 5);
    s.checkpoint().unwrap();
    match compact_dir(&s.disk()) {
        Ok(_) => panic!("compact must refuse a mesh-synced node"),
        Err(e) => assert!(e.message().contains("mesh-synced") || e.message().contains("standalone")),
    }
    assert!(s.gc_live().is_err());
}

#[test]
fn reopen_after_crash_kill_recovers_exact_state() {
    let mut s = fresh();
    s.create_namespace("n", ConflictPolicy::Lww).unwrap();
    seed(&mut s, "n", "k", "value", 42);
    let s = Store::open(&s.disk()).unwrap();
    match s.get("n", &b"k".to_vec()).unwrap() {
        Entry::Lww(v) => assert_eq!(v.value, b"value"),
        _ => panic!(),
    }
    assert_eq!(s.policy("n"), Some(ConflictPolicy::Lww));
}

#[test]
fn checkpoint_reopen_identical() {
    let mut s = fresh();
    s.create_namespace("n", ConflictPolicy::Lww).unwrap();
    s.create_namespace("r", ConflictPolicy::CrdtRegister).unwrap();
    seed(&mut s, "n", "a", "1", 1);
    seed(&mut s, "n", "m", "2", 2);
    seed(&mut s, "r", "k", "x", 1);
    seed(&mut s, "r", "k", "y", 2);
    s.delete("n", &b"a".to_vec(), 3, REP, AUTH).unwrap();
    s.set_peer_clock("node2", 12345);
    s.meta_set("custom", b"meta".to_vec());
    s.checkpoint().unwrap();

    let s = Store::open(&s.disk()).unwrap();
    assert!(s.get("n", &b"a".to_vec()).is_none(), "tombstone survives");
    match s.get("n", &b"m".to_vec()).unwrap() {
        Entry::Lww(v) => assert_eq!(v.value, b"2"),
        _ => panic!(),
    }
    match s.get("r", &b"k".to_vec()).unwrap() {
        Entry::Register(vs) => assert_eq!(vs.len(), 2),
        _ => panic!(),
    }
    assert_eq!(s.peer_clock("node2"), Some(12345));
    assert_eq!(s.meta_get("custom"), Some(&b"meta".to_vec()));
    let mut s = s;
    seed(&mut s, "n", "z", "3", 9);
    let s2 = Store::open(&s.disk()).unwrap();
    match s2.get("n", &b"z".to_vec()).unwrap() {
        Entry::Lww(v) => assert_eq!(v.value, b"3"),
        _ => panic!(),
    }
}

#[test]
fn tampered_early_record_fails_open() {
    let mut s = fresh();
    s.create_namespace("n", ConflictPolicy::Lww).unwrap();
    for i in 0..4u64 {
        seed(&mut s, "n", &format!("k{i}"), "v", i);
    }
    s.checkpoint().unwrap();
    let mut disk = s.disk();
    disk.dirs[0].segs[0][41 + 4 + 1] ^= 0x01;
    let err = match Store::open(&disk) {
        Err(e) => e,
        Ok(_) => panic!("a tampered log must not open"),
    };
    assert!(matches!(err, StorageError::Corrupt { .. }), "got {err:?}");
}

#[test]
fn missing_tail_records_after_checkpoint_replay() {
    let mut s = fresh();
    s.create_namespace("n", ConflictPolicy::Lww).unwrap();
    seed(&mut s, "n", "a", "1", 1);
    seed(&mut s, "n", "b", "2", 2);
    s.checkpoint().unwrap();
    seed(&mut s, "n", "c", "3", 3);
    let s = Store::open(&s.disk()).unwrap();
    match s.get("n", &b"c".to_vec()).unwrap() {
        Entry::Lww(v) => assert_eq!(v.value, b"3"),
        _ => panic!(),
    }
    match s.get("n", &b"a".to_vec()).unwrap() {
        Entry::Lww(v) => assert_eq!(v.value, b"1"),
        _ => panic!(),
    }
}

#[test]
fn ttl_write_expires_at_roundtrip() {
    let mut s = fresh();
    s.create_namespace("n", ConflictPolicy::Lww).unwrap();
    let seq = s.put("n", &b"k".to_vec(), b"v", 100, REP, AUTH, 5000).unwrap();
    assert!(seq > 0);
    match s.get("n", &b"k".to_vec()).unwrap() {
        Entry::Lww(v) => assert_eq!(v.expires_at, 5000),
        _ => panic!("expected Lww"),
    }
    let recs = s.log_records("n", 1, 0).unwrap();
    let (seq0, seg0) = (recs[0].0, recs[0].1.clone());
    let (rec, _) = Record::parse_chain(&seg0, None).unwrap();
    assert_eq!(rec.tag, TAG_PUT_TTL);
    assert_eq!(rec.expires_at, 5000);
    assert_eq!(seq0, seq);
    assert!(s.put("n", &b"k2".to_vec(), b"w", 101, REP, AUTH, 0).unwrap() > 0);
    let recs2 = s.log_records("n", 2, 0).unwrap();
    let seg1 = recs2[0].1.clone();
    let (rec2, _) = Record::parse_chain(&seg1, None).unwrap();
    assert_eq!(rec2.tag, TAG_PUT);
    assert_eq!(rec2.expires_at, 0);
    s.checkpoint().unwrap();
    let s2 = Store::open(&s.disk()).unwrap();
    match s2.get("n", &b"k".to_vec()).unwrap() {
        Entry::Lww(v) => assert_eq!(v.expires_at, 5000, "expiry survives reopen"),
        _ => panic!(),
    }
}

#[test]
fn ttl_synced_record_applies_expiry() {
    let mut s = fresh();
    s.create_namespace("n", ConflictPolicy::Lww).unwrap();
    let rec = Record {
        tag: TAG_PUT_TTL,
        key: b"k".to_vec(),
        hlc: 100,
        replica: B_REP,
        author: B_REP,
        value: b"from-peer".to_vec(),
        expires_at: 7777,
        ops: Vec::new(),
    };
    assert_eq!(s.apply_synced("n", &rec).unwrap(), true);
    match s.get("n", &b"k".to_vec()).unwrap() {
        Entry::Lww(v) => assert_eq!(v.expires_at, 7777),
        _ => panic!(),
    }
    assert_eq!(s.apply_synced("n", &rec).unwrap(), false, "dedupe by version");
}

fn record(tag: u8, key: &[u8], value: &[u8], hlc: u64, replica: [u8; 32]) -> Record {
    Record {
        tag,
        key: key.to_vec(),
        hlc,
        replica,
        author: replica,
        value: value.to_vec(),
        expires_at: 0,
        ops: Vec::new(),
    }
}

fn values(e: Option<&Entry>) -> Vec<Vec<u8>> {
    let mut out: Vec<Vec<u8>> = match e {
        None => vec![],
        Some(Entry::Lww(v)) => vec![v.value.clone()],
        Some(Entry::Register(vs)) => vs.iter().map(|v| v.value.clone()).collect(),
    };
    out.sort();
    out
}

#[test]
fn stores_converge_in_any_order() {
    let mut both = record(TAG_BATCH, b"", b"", 9, B_REP);
    both.ops.push(record(TAG_PUT, b"b", b"once", 9, B_REP));
    both.ops.push(record(TAG_PUT, b"b", b"twice", 9, B_REP));
    let all = [
        record(TAG_PUT, b"a", b"old", 5, REP),
        record(TAG_PUT, b"a", b"new", 7, B_REP),
        record(TAG_PUT, b"a", b"tie", 7, REP),
        both,
        record(TAG_PUT, b"c", b"gone", 8, REP),
        record(TAG_DEL, b"c", b"", 2, B_REP),
    ];
    for policy in [ConflictPolicy::Lww, ConflictPolicy::CrdtRegister] {
        let mut x = fresh();
        let mut y = fresh();
        x.create_namespace("n", policy).unwrap();
        y.create_namespace("n", policy).unwrap();
        for r in all.iter() {
            assert!(x.apply_synced("n", r).unwrap());
        }
        for r in all.iter().rev().chain(all.iter()) {
            y.apply_synced("n", r).unwrap();
        }
        for key in ["a", "b", "c"] {
            let k = key.as_bytes().to_vec();
            assert_eq!(values(x.get("n", &k)), values(y.get("n", &k)));
        }
        let (a, b): (&[&[u8]], &[&[u8]]) = match policy {
            ConflictPolicy::Lww => (&[b"new"], &[b"twice"]),
            ConflictPolicy::CrdtRegister => (&[b"new", b"old", b"tie"], &[b"once", b"twice"]),
        };
        assert_eq!(values(x.get("n", &b"a".to_vec())), a);
        assert_eq!(values(x.get("n", &b"b".to_vec())), b);
        assert!(x.get("n", &b"c".to_vec()).is_none());
    }
}

#[test]
fn indexes_agree_in_any_order() {
    let all = [
        record(TAG_PUT, b"a", b"{\"city\":\"oslo\"}", 5, REP),
        record(TAG_PUT, b"a", b"{\"city\":\"bern\"}", 7, B_REP),
        record(TAG_PUT, b"b", b"{\"city\":\"bern\"}", 6, REP),
        record(TAG_PUT, b"c", b"{\"city\":\"bern\"}", 6, B_REP),
        record(TAG_DEL, b"c", b"", 8, REP),
    ];
    for policy in [ConflictPolicy::Lww, ConflictPolicy::CrdtRegister] {
        let mut x = fresh();
        let mut y = fresh();
        for s in [&mut x, &mut y] {
            s.create_namespace("n", policy).unwrap();
            s.set_index("n", Some(b"[\"city\"]"), 1, AUTH, AUTH).unwrap();
        }
        for r in all.iter() {
            x.apply_synced("n", r).unwrap();
        }
        for r in all.iter().rev() {
            y.apply_synced("n", r).unwrap();
        }
        let want = vec![(b"bern".to_vec(), b"a".to_vec()), (b"bern".to_vec(), b"b".to_vec())];
        assert_eq!(x.index_lookup("n", "city", b""), want);
        assert_eq!(y.index_lookup("n", "city", b""), want);
    }
}

/// Bytes of a snapshot, written by hand.
struct W(Vec<u8>);

impl W {
    fn u8(&mut self, v: u8) {
        self.0.push(v);
    }
    fn u32(&mut self, v: u32) {
        self.0.extend_from_slice(&v.to_le_bytes());
    }
    fn u64(&mut self, v: u64) {
        self.0.extend_from_slice(&v.to_le_bytes());
    }
    fn bytes(&mut self, b: &[u8]) {
        self.u32(b.len() as u32);
        self.0.extend_from_slice(b);
    }
    fn fixed(&mut self, b: &[u8]) {
        self.0.extend_from_slice(b);
    }
}

#[test]
fn v1_snapshot_rolls_up_with_zero_expiry() {
    let mut s = fresh();
    s.create_namespace("n", ConflictPolicy::Lww).unwrap();
    seed(&mut s, "n", "a", "1", 1);
    s.checkpoint().unwrap();
    let mut disk = s.disk();
    let seg = disk.dirs[0].segs[0].clone();
    let rec1_len = u32::from_le_bytes(seg[1..5].try_into().unwrap()) as usize;
    let rec1 = &seg[..41 + rec1_len];
    let (_v, _prev) = Record::parse_chain(rec1, None).unwrap();
    let stored_head = Record::record_hash(&[0u8; 32], rec1);
    let mut w = W(Vec::new());
    w.0.extend_from_slice(&[b'B', b'M', b'D', b'B', b'I', b'D', b'X', b'1']);
    w.u64(1);
    w.u32(0);
    w.u32(0);
    w.u32(1);
    w.bytes(b"n");
    w.u8(policy_to_u8(ConflictPolicy::Lww));
    w.u64(1);
    w.fixed(&stored_head);
    w.u32(1);
    w.bytes(b"a");
    w.u8(0);
    w.u64(1);
    w.fixed(&[7u8; 32]);
    w.fixed(&[9u8; 32]);
    w.bytes(b"1");
    w.u64(1);
    w.u32(0);
    disk.snap = Some(w.0);
    let s = match Store::open(&disk) {
        Ok(s) => s,
        Err(e) => panic!("v1 snapshot open failed: {e:?}"),
    };
    match s.get("n", &b"a".to_vec()).unwrap() {
        Entry::Lww(v) => {
            assert_eq!(v.value, b"1");
            assert_eq!(v.expires_at, 0, "v1 snapshot must roll up with no expiry");
        }
        _ => panic!(),
    }
}

fn op(tag: u8, key: &[u8], hlc: u64, value: &[u8], expires_at: u64) -> Record {
    Record {
        tag,
        key: key.to_vec(),
        hlc,
        replica: [1u8; 32],
        author: [2u8; 32],
        value: value.to_vec(),
        expires_at,
        ops: Vec::new(),
    }
}

#[test]
fn put_batch_writes_one_record_and_reads_back_all() {
    let mut s = fresh();
    s.create_namespace("n", ConflictPolicy::Lww).unwrap();
    let ops = vec![
        op(TAG_PUT, b"a", 1, b"v1", 0),
        op(TAG_PUT_TTL, b"b", 2, b"v2", 4_000_000),
        op(TAG_DEL, b"c", 3, b"", 0),
    ];
    let seq = s.put_batch("n", &ops).unwrap();
    assert_eq!(seq, 1, "three ops consumed exactly ONE log record");
    match s.get("n", &b"a".to_vec()).unwrap() {
        Entry::Lww(v) => assert_eq!(v.value, b"v1"),
        _ => panic!(),
    }
    match s.get("n", &b"b".to_vec()).unwrap() {
        Entry::Lww(v) => {
            assert_eq!(v.value, b"v2");
            assert_eq!(v.expires_at, 4_000_000, "TTL survives the batch record");
        }
        _ => panic!(),
    }
    assert_eq!(s.get("n", &b"c".to_vec()), None, "del tombstoned");
    let bytes = s.log_records("n", 1, 0).unwrap().first().unwrap().1.clone();
    let (rec, _) = Record::parse_chain(&bytes, None).unwrap();
    assert_eq!(rec.tag, TAG_BATCH);
    assert_eq!(rec.ops.len(), 3);
    let s2 = Store::open(&s.disk()).unwrap();
    match s2.get("n", &b"a".to_vec()).unwrap() {
        Entry::Lww(v) => assert_eq!(v.value, b"v1", "replay after reopen converges"),
        _ => panic!(),
    }
    let mut s3 = fresh();
    let _ = s3.create_namespace("n", ConflictPolicy::Lww).unwrap();
    let (record, _) = Record::parse_chain(&bytes, None).unwrap();
    assert_eq!(s3.apply_synced("n", &record).unwrap(), true);
    assert_eq!(s3.apply_synced("n", &record).unwrap(), false, "batch dedupes atomically");
    match s3.get("n", &b"a".to_vec()).unwrap() {
        Entry::Lww(v) => assert_eq!(v.value, b"v1"),
        _ => panic!(),
    }
}

#[test]
fn put_batch_order_and_resurrect_semantics() {
    let mut s = fresh();
    s.create_namespace("n", ConflictPolicy::Lww).unwrap();
    let ops = vec![
        op(TAG_PUT, b"k", 1, b"first", 0),
        op(TAG_DEL, b"k", 2, b"", 0),
        op(TAG_PUT, b"k", 3, b"resurrected", 0),
    ];
    s.put_batch("n", &ops).unwrap();
    match s.get("n", &b"k".to_vec()).unwrap() {
        Entry::Lww(v) => assert_eq!(v.value, b"resurrected"),
        _ => panic!(),
    }
    let mut r = fresh();
    r.create_namespace("rk", ConflictPolicy::CrdtRegister).unwrap();
    let a = op(TAG_PUT, b"x", 1, b"one", 0);
    let b_rec = op(TAG_PUT, b"x", 2, b"two", 0);
    let _ = r.put_batch("rk", &vec![a, b_rec]).unwrap();
    match r.get("rk", &b"x".to_vec()).unwrap() {
        Entry::Register(vs) => {
            assert_eq!(vs.len(), 2, "both batch sub-ops retained under Register");
            assert_eq!(vs[1].value, b"two");
        }
        _ => panic!(),
    }
    let reclaimed = s.gc_live().unwrap();
    let _ = reclaimed;
    match s.get("n", &b"k".to_vec()).unwrap() {
        Entry::Lww(v) => {
            assert_eq!(v.value, b"resurrected", "state survives compaction");
        }
        _ => panic!(),
    }
}

#[test]
fn refused_writes_change_nothing() {
    let mut s = fresh();
    s.create_namespace("n", ConflictPolicy::Lww).unwrap();
    let before = s.revision();
    assert!(matches!(
        s.put("none", &b"k".to_vec(), b"v", 1, REP, AUTH, 0),
        Err(StorageError::NotFound(n)) if n == "none"
    ));
    assert!(matches!(s.delete("none", &b"k".to_vec(), 1, REP, AUTH), Err(StorageError::BadName(_))));
    assert!(s.put_batch("n", &vec![]).is_err());
    assert!(s.put_batch("n", &vec![op(TAG_BATCH, b"k", 1, b"", 0)]).is_err());
    assert!(matches!(
        s.create_namespace("n", ConflictPolicy::Lww),
        Err(StorageError::NamespaceExists(n)) if n == "n"
    ));
    assert_eq!(s.revision(), before);
}

#[test]
fn messages() {
    assert_eq!(StorageError::NotFound("x".into()).message(), "not found: x");
    assert_eq!(
        StorageError::Corrupt { ns: Some("n".into()), detail: "d".into() }.message(),
        "corrupt storage (ns n): d"
    );
    assert_eq!(
        StorageError::QuotaExceeded { ns: "n".into(), limit: 3 }.message(),
        "quota exceeded for n (limit 3 bytes)"
    );
}

#[test]
fn index_follows_definition() {
    let mut s = fresh();
    s.create_namespace("n", ConflictPolicy::Lww).unwrap();
    seed(&mut s, "n", "a", "{\"city\":\"x\"}", 1);
    assert!(s.index_lookup("n", "city", b"").is_empty());
    s.set_index("n", Some(b"[\"city\"]"), 2, REP, AUTH).unwrap();
    assert_eq!(s.index_fields("n"), vec!["city".to_string()]);
    assert_eq!(s.index_lookup("n", "city", b"").len(), 1);
    s.set_schema("n", Some(b"{}"), 3, REP, AUTH).unwrap();
    assert_eq!(s.schema("n"), Some(&b"{}".to_vec()));
    s.set_index("n", None, 4, REP, AUTH).unwrap();
    assert!(s.index_def("n").is_none());
    let again = Store::open(&s.disk()).unwrap();
    assert_eq!(again.schema("n"), Some(&b"{}".to_vec()));
    assert!(again.index_def("n").is_none());
}

#[test]
fn broken_snapshot_is_refused() {
    assert!(load_snap(b"BMDBIDX9").is_err());
    assert!(load_snap(b"").is_err());
}

fn lww(s: &Store, key: &[u8]) -> Option<Vec<u8>> {
    match s.get("n", &key.to_vec()) {
        Some(Entry::Lww(v)) => Some(v.value.clone()),
        Some(_) => panic!("expected Lww"),
        None => None,
    }
}

#[test]
fn a_key_written_again_after_a_delete_reopens() {
    let mut s = fresh();
    s.create_namespace("n", ConflictPolicy::Lww).unwrap();
    seed(&mut s, "n", "k", "one", 1);
    s.delete("n", &b"k".to_vec(), 2, REP, AUTH).unwrap();
    let gone = Store::open(&s.disk()).unwrap();
    assert_eq!(lww(&gone, b"k"), None);
    seed(&mut s, "n", "k", "two", 3);
    let mut again = Store::open(&s.disk()).unwrap();
    assert_eq!(lww(&again, b"k"), Some(b"two".to_vec()));
    seed(&mut again, "n", "j", "more", 4);
    let third = Store::open(&again.disk()).unwrap();
    assert_eq!(lww(&third, b"k"), Some(b"two".to_vec()));
    assert_eq!(lww(&third, b"j"), Some(b"more".to_vec()));
    assert_eq!(third.head("n"), again.head("n"));
}

#[test]
fn a_local_write_with_an_old_clock_reopens() {
    let mut s = fresh();
    s.create_namespace("n", ConflictPolicy::Lww).unwrap();
    seed(&mut s, "n", "k", "late", 100);
    seed(&mut s, "n", "k", "early", 50);
    assert_eq!(lww(&s, b"k"), Some(b"early".to_vec()));
    assert_eq!(lww(&Store::open(&s.disk()).unwrap(), b"k"), Some(b"early".to_vec()));
}

#[test]
fn a_batch_that_lifts_a_tombstone_reopens() {
    let mut s = fresh();
    s.create_namespace("n", ConflictPolicy::Lww).unwrap();
    s.delete("n", &b"k".to_vec(), 1, REP, AUTH).unwrap();
    let ops = vec![op(TAG_PUT, b"a", 2, b"v", 0), op(TAG_PUT, b"k", 3, b"back", 0)];
    s.put_batch("n", &ops).unwrap();
    let again = Store::open(&s.disk()).unwrap();
    assert_eq!(lww(&again, b"a"), Some(b"v".to_vec()));
    assert_eq!(lww(&again, b"k"), Some(b"back".to_vec()));
}

#[test]
fn synced_and_local_writes_reopen_together() {
    let mut s = fresh();
    s.create_namespace("n", ConflictPolicy::Lww).unwrap();
    s.apply_synced("n", &record(TAG_DEL, b"k", b"", 5, B_REP)).unwrap();
    seed(&mut s, "n", "k", "mine", 6);
    s.apply_synced("n", &record(TAG_PUT, b"k", b"theirs", 4, B_REP)).unwrap();
    s.apply_synced("n", &record(TAG_PUT, b"j", b"new", 7, B_REP)).unwrap();
    let again = Store::open(&s.disk()).unwrap();
    assert_eq!(lww(&again, b"k"), lww(&s, b"k"));
    assert_eq!(lww(&again, b"j"), Some(b"new".to_vec()));
}

#[test]
fn scans_list_what_reads_see() {
    let mut s = fresh();
    s.create_namespace("n", ConflictPolicy::Lww).unwrap();
    assert!(s.apply_synced("n", &record(TAG_DEL, b"a/k", b"", 9, B_REP)).unwrap());
    assert!(s.apply_synced("n", &record(TAG_PUT, b"a/k", b"late", 3, B_REP)).unwrap());
    assert!(s.apply_synced("n", &record(TAG_PUT, b"a/j", b"here", 4, B_REP)).unwrap());
    assert!(s.get("n", &b"a/k".to_vec()).is_none());
    let keys: Vec<Vec<u8>> = s.scan("n", b"a/").into_iter().map(|(k, _)| k).collect();
    assert_eq!(keys, vec![b"a/j".to_vec()]);
    assert_eq!(s.scan_keys("n", b"").len(), 1);
}

#[test]
fn the_greatest_write_survives() {
    let ops = [
        record(TAG_PUT, b"k", b"one", 5, REP),
        record(TAG_PUT, b"k", b"two", 9, REP),
        record(TAG_PUT, b"k", b"three", 9, B_REP),
        record(TAG_PUT, b"k", b"four", 2, B_REP),
    ];
    for order in [[0, 1, 2, 3], [2, 1, 0, 3], [3, 2, 0, 1], [1, 3, 2, 0]] {
        let mut s = fresh();
        s.create_namespace("n", ConflictPolicy::Lww).unwrap();
        for i in order {
            assert!(s.apply_synced("n", &ops[i]).unwrap());
        }
        assert_eq!(lww(&s, b"k"), Some(b"three".to_vec()));
        assert!(s.apply_synced("n", &record(TAG_DEL, b"k", b"", 1, REP)).unwrap());
        assert_eq!(lww(&s, b"k"), None);
        assert_eq!(s.head("n").unwrap().0, 5);
    }
}

#[test]
fn cut_and_longer_snapshots_are_refused() {
    let mut s = fresh();
    s.create_namespace("n", ConflictPolicy::CrdtRegister).unwrap();
    seed(&mut s, "n", "k", "a", 1);
    s.meta_set("m", b"v".to_vec());
    s.checkpoint().unwrap();
    let snap = s.disk().snap.unwrap();
    assert!(load_snap(&snap).is_ok());
    for n in 0..snap.len() {
        assert!(matches!(load_snap(&snap[..n]), Err(StorageError::Corrupt { .. })), "{n}");
    }
    let mut longer = snap.clone();
    longer.push(0);
    assert!(matches!(load_snap(&longer), Err(StorageError::Corrupt { .. })));
    let mut disk = s.disk();
    disk.snap = Some(longer);
    assert!(Store::open(&disk).is_err());
}

#[test]
fn a_snapshot_entry_of_the_wrong_shape_is_refused() {
    let mut a = fresh();
    a.create_namespace("n", ConflictPolicy::Lww).unwrap();
    seed(&mut a, "n", "k", "v", 1);
    a.checkpoint().unwrap();
    let mut b = fresh();
    b.create_namespace("n", ConflictPolicy::CrdtRegister).unwrap();
    seed(&mut b, "n", "k", "v", 1);
    let mut disk = b.disk();
    let mut snap = a.disk().snap.unwrap();
    // The policy byte of the only namespace stands behind its name.
    let at = snap.windows(5).position(|w| w == [1, 0, 0, 0, b'n']).unwrap() + 5;
    assert_eq!(snap[at], policy_to_u8(ConflictPolicy::Lww));
    snap[at] = policy_to_u8(ConflictPolicy::CrdtRegister);
    disk.snap = Some(snap);
    assert!(matches!(Store::open(&disk), Err(StorageError::Corrupt { .. })));
}

#[test]
fn a_compacted_directory_answers_as_before() {
    let mut s = fresh();
    s.create_namespace("n", ConflictPolicy::Lww).unwrap();
    s.create_namespace("r", ConflictPolicy::CrdtRegister).unwrap();
    s.set_schema("n", Some(b"{\"type\":\"string\"}"), 1, REP, AUTH).unwrap();
    s.set_index("n", Some(b"[\"city\"]"), 2, REP, AUTH).unwrap();
    seed(&mut s, "n", "k", "old", 3);
    seed(&mut s, "n", "k", "{\"city\":\"x\"}", 4);
    seed(&mut s, "n", "d", "gone", 5);
    s.delete("n", &b"d".to_vec(), 6, REP, AUTH).unwrap();
    s.put("n", &b"e".to_vec(), b"past", 7, REP, AUTH, 1).unwrap();
    seed(&mut s, "r", "k", "a", 8);
    seed(&mut s, "r", "k", "b", 9);
    let (_, disk) = compact_dir(&s.disk()).unwrap();
    let t = Store::open(&disk).unwrap();
    assert_eq!(t.policy("n"), Some(ConflictPolicy::Lww));
    assert_eq!(t.policy("r"), Some(ConflictPolicy::CrdtRegister));
    assert_eq!(t.schema("n"), s.schema("n"));
    assert_eq!(t.index_def("n"), s.index_def("n"));
    assert_eq!(t.index_lookup("n", "city", b""), s.index_lookup("n", "city", b""));
    assert_eq!(lww(&t, b"k"), lww(&s, b"k"));
    assert_eq!(lww(&t, b"d"), None);
    assert_eq!(lww(&t, b"e"), None);
    assert_eq!(values(t.get("r", &b"k".to_vec())), values(s.get("r", &b"k".to_vec())));
    let (_, twice) = compact_dir(&disk).unwrap();
    assert_eq!(lww(&Store::open(&twice).unwrap(), b"k"), lww(&s, b"k"));
}

#[test]
fn definitions_reopen_with_the_data() {
    let mut s = fresh();
    s.create_namespace("n", ConflictPolicy::Lww).unwrap();
    s.create_namespace("m", ConflictPolicy::Lww).unwrap();
    s.set_schema("n", Some(b"{\"type\":\"object\"}"), 1, REP, AUTH).unwrap();
    s.checkpoint().unwrap();
    s.set_schema("n", None, 2, REP, AUTH).unwrap();
    s.set_index("n", Some(b"[\"city\"]"), 3, REP, AUTH).unwrap();
    s.set_schema("m", Some(b"true"), 4, REP, AUTH).unwrap();
    seed(&mut s, "n", "k", "{\"city\":\"x\"}", 5);
    let t = Store::open(&s.disk()).unwrap();
    for ns in ["n", "m"] {
        assert_eq!(t.schema(ns), s.schema(ns));
        assert_eq!(t.index_def(ns), s.index_def(ns));
    }
    assert!(t.schema("n").is_none());
    assert_eq!(t.index_lookup("n", "city", b""), s.index_lookup("n", "city", b""));
}

#[test]
fn compaction_drops_what_an_expired_version_superseded() {
    let mut s = fresh();
    s.create_namespace("r", ConflictPolicy::CrdtRegister).unwrap();
    let put = |s: &mut Store, key: &str, val: &str, hlc: u64, expires: u64| {
        s.put("r", &key.as_bytes().to_vec(), val.as_bytes(), hlc, REP, AUTH, expires).unwrap();
    };
    put(&mut s, "gone", "older", 1, 0);
    put(&mut s, "gone", "newer", 2, 100);
    put(&mut s, "kept", "first", 3, 0);
    put(&mut s, "kept", "brief", 4, 100);
    put(&mut s, "kept", "last", 5, 0);
    put(&mut s, "later", "a", 6, 0);
    put(&mut s, "later", "b", 7, 5000);
    let seen = |s: &Store, key: &str, at: u64| {
        s.get("r", &key.as_bytes().to_vec()).and_then(|e| e.latest_live(at)).map(|v| v.value.clone())
    };
    let keys = ["gone", "kept", "later", "none"];
    let before: Vec<_> = keys.iter().map(|k| (seen(&s, k, 100), seen(&s, k, 5000))).collect();
    assert_eq!(before[0], (None, None));
    assert_eq!(before[1].0, Some(b"last".to_vec()));
    assert_eq!(before[2], (Some(b"b".to_vec()), None));
    let (_, disk) = compact_at(&s.disk(), 100).unwrap();
    let t = Store::open(&disk).unwrap();
    s.gc_live_at(100).unwrap();
    for (i, k) in keys.iter().enumerate() {
        assert_eq!((seen(&t, k, 100), seen(&t, k, 5000)), before[i]);
        assert_eq!((seen(&s, k, 100), seen(&s, k, 5000)), before[i]);
    }
    assert!(t.get("r", &b"gone".to_vec()).is_none());
    assert_eq!(values(t.get("r", &b"kept".to_vec())), vec![b"first".to_vec(), b"last".to_vec()]);
    assert_eq!(values(t.get("r", &b"later".to_vec())).len(), 2);
}

#[test]
fn scans_ascend_and_give_what_reads_give() {
    let mut s = fresh();
    s.create_namespace("n", ConflictPolicy::Lww).unwrap();
    for (i, k) in ["b/2", "a", "b/10", "b", "c", "b/"].iter().enumerate() {
        seed(&mut s, "n", k, &format!("v{i}"), i as u64 + 1);
    }
    s.delete("n", &b"b/10".to_vec(), 50, REP, AUTH).unwrap();
    let rows = s.scan("n", b"b");
    let keys: Vec<Vec<u8>> = rows.iter().map(|(k, _)| k.clone()).collect();
    assert_eq!(keys, vec![b"b".to_vec(), b"b/".to_vec(), b"b/2".to_vec()]);
    for (k, e) in &rows {
        assert_eq!(s.get("n", k), Some(e));
    }
    assert_eq!(s.scan_keys("n", b"b"), keys);
    assert!(s.scan("none", b"").is_empty());
}

#[test]
fn an_index_is_a_function_of_the_data() {
    let mut s = fresh();
    s.create_namespace("n", ConflictPolicy::Lww).unwrap();
    s.create_namespace("m", ConflictPolicy::Lww).unwrap();
    for ns in ["n", "m"] {
        seed(&mut s, ns, "b", "{\"f\":\"x\",\"g\":true}", 1);
        seed(&mut s, ns, "a", "{\"f\":\"x\"}", 2);
        seed(&mut s, ns, "c", "{\"f\":\"w\"}", 3);
        seed(&mut s, ns, "d", "no json", 4);
    }
    s.set_index("m", Some(b"[\"g\"]"), 5, REP, AUTH).unwrap();
    s.set_index("n", Some(b"[\"f\"]"), 6, REP, AUTH).unwrap();
    s.delete("n", &b"a".to_vec(), 7, REP, AUTH).unwrap();
    let keys = |s: &Store, ns: &str, f: &str| -> Vec<Vec<u8>> {
        s.index_lookup(ns, f, b"").into_iter().map(|(_, k)| k).collect()
    };
    assert_eq!(keys(&s, "n", "f"), vec![b"c".to_vec(), b"b".to_vec()]);
    assert!(keys(&s, "n", "g").is_empty());
    assert_eq!(keys(&s, "m", "g"), vec![b"b".to_vec()]);
    assert!(keys(&s, "m", "f").is_empty());
    s.set_index("n", Some(b"[\"g\"]"), 8, REP, AUTH).unwrap();
    assert!(keys(&s, "n", "f").is_empty());
    assert_eq!(keys(&s, "n", "g"), vec![b"b".to_vec()]);
}
