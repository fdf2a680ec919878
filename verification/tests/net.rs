//! Replication: checking batches, serving peers and pulling from them.

use bunnymeshdb::net::engine::{listen_addr, Action, SyncEngine};
use bunnymeshdb::net::merge::{verify_batch, MergeError};
use bunnymeshdb::net::serve::{inbound_access, on_request, serve_pull, InboundAccess};
use bunnymeshdb::net::{HelloResponse, NsHead, Rec, Records, SyncRequest, SyncResponse};
use bunnymeshdb::node::hlc::Hlc;
use bunnymeshdb::node::ident::Keypair;
use bunnymeshdb::server::config::{Config, Peer};
use bunnymeshdb::storage::record::{Record, TAG_PUT};
use bunnymeshdb::storage::{ConflictPolicy, Disk, Entry, Store};
use bunnymeshdb::util::b64_encode;

const A: [u8; 32] = [1u8; 32];
const B: [u8; 32] = [2u8; 32];

fn fresh() -> Store {
    Store::open(&Disk { snap: None, dirs: vec![] }).unwrap()
}

fn drain(store: &Store, ns: &str) -> Vec<Record> {
    let mut prev = [0u8; 32];
    let mut out = Vec::new();
    for (_, bytes) in store.log_records(ns, 1, 0).unwrap() {
        let (rec, p) = Record::parse_chain(&bytes, Some(&prev)).unwrap();
        prev = Record::record_hash(&p, &bytes);
        out.push(rec);
    }
    out
}

fn sync_into(dst: &mut Store, src: &Store, ns: &str) -> usize {
    let recs = src.log_records(ns, 1, 0).unwrap();
    match verify_batch([0u8; 32], &recs) {
        Ok(records) => {
            let mut n = 0;
            for r in records {
                if dst.apply_synced(ns, &r).unwrap() {
                    n += 1;
                }
            }
            n
        }
        Err(e) => panic!("verify failed: {}", e.message()),
    }
}

#[test]
fn dbg_merge_verify() {
    let mut s = fresh();
    s.create_namespace("n", ConflictPolicy::Lww).unwrap();
    s.put("n", &b"k".to_vec(), b"v1", 100, [1u8; 32], [1u8; 32], 0).unwrap();
    let recs = s.log_records("n", 1, 0).unwrap();
    println!("rec count {}", recs.len());
    for (seq, b) in &recs {
        println!("seq {seq} len {} prev {:?}", b.len(), &b[9..13]);
        let (r, p) = Record::parse_chain(b, None).unwrap();
        println!("  parsed hlc {} key {:?}", r.hlc, r.key);
        let _ = p;
    }
    match verify_batch([0u8; 32], &recs) {
        Ok(v) => println!("verify OK {} records", v.len()),
        Err(e) => println!("verify ERR {e:?}"),
    }
}

#[test]
fn lww_divergence_converges() {
    let mut s1 = fresh();
    let mut s2 = fresh();
    s1.create_namespace("n", ConflictPolicy::Lww).unwrap();
    s2.create_namespace("n", ConflictPolicy::Lww).unwrap();
    s1.put("n", &b"k".to_vec(), b"v1", 100, A, A, 0).unwrap();
    s2.put("n", &b"k".to_vec(), b"v2", 200, B, B, 0).unwrap();
    sync_into(&mut s2, &s1, "n");
    sync_into(&mut s1, &s2, "n");
    let e1 = s1.get("n", &b"k".to_vec()).unwrap().clone();
    let e2 = s2.get("n", &b"k".to_vec()).unwrap().clone();
    match e1 {
        Entry::Lww(v) => assert_eq!(v.value, b"v2"),
        _ => panic!(),
    }
    match e2 {
        Entry::Lww(v) => assert_eq!(v.value, b"v2"),
        _ => panic!(),
    }
    assert_eq!(drain(&s1, "n").len(), 2);
}

#[test]
fn register_divergence_converges() {
    let mut s1 = fresh();
    let mut s2 = fresh();
    s1.create_namespace("n", ConflictPolicy::CrdtRegister).unwrap();
    s2.create_namespace("n", ConflictPolicy::CrdtRegister).unwrap();
    s1.put("n", &b"k".to_vec(), b"a", 100, A, A, 0).unwrap();
    s2.put("n", &b"k".to_vec(), b"b", 100, B, B, 0).unwrap();
    sync_into(&mut s2, &s1, "n");
    sync_into(&mut s1, &s2, "n");
    for (s, name) in [(&s1, "s1"), (&s2, "s2")] {
        match s.get("n", &b"k".to_vec()).unwrap() {
            Entry::Register(vs) => {
                assert_eq!(vs.len(), 2, "{name} should hold both versions");
                let replicas: Vec<[u8; 32]> = vs.iter().map(|v| v.replica).collect();
                assert!(replicas.contains(&A) && replicas.contains(&B), "{name}: {replicas:?}");
            }
            _ => panic!("{name}: expected register"),
        }
    }
}

#[test]
fn tombstone_wins_across_sync() {
    let mut s1 = fresh();
    let mut s2 = fresh();
    s1.create_namespace("n", ConflictPolicy::Lww).unwrap();
    s2.create_namespace("n", ConflictPolicy::Lww).unwrap();
    s1.put("n", &b"k".to_vec(), b"orig", 100, A, A, 0).unwrap();
    s1.delete("n", &b"k".to_vec(), 150, A, A).unwrap();
    s2.put("n", &b"k".to_vec(), b"later", 200, B, B, 0).unwrap();
    sync_into(&mut s2, &s1, "n");
    sync_into(&mut s1, &s2, "n");
    assert!(s1.get("n", &b"k".to_vec()).is_none());
    assert!(s2.get("n", &b"k".to_vec()).is_none());
}

fn put_record(key: &[u8], hlc: u64, value: &[u8]) -> Record {
    Record {
        tag: TAG_PUT,
        key: key.to_vec(),
        hlc,
        replica: A,
        author: A,
        value: value.to_vec(),
        expires_at: 0,
        ops: Vec::new(),
    }
}

#[test]
fn batch_verification_rejects_garbage() {
    let r = put_record(b"k", 5, b"v");
    let bytes = r.to_bytes([0u8; 32]);
    let mut bad = bytes.clone();
    let n = bad.len();
    bad[n - 1] ^= 0x01;
    let res = verify_batch([0u8; 32], &vec![(2, bad)]);
    assert!(matches!(res, Err(MergeError::Corrupt(_))), "{res:?}");
    let res = verify_batch([0u8; 32], &vec![(1, bytes)]);
    assert!(res.is_ok());
}

#[test]
fn batch_with_hlc_reversal_still_verifies() {
    let r1 = put_record(b"a", 100, b"x");
    let b1 = r1.to_bytes([0u8; 32]);
    let h1 = Record::record_hash(&[0u8; 32], &b1);
    let r2 = put_record(b"b", 50, b"y");
    let b2 = r2.to_bytes(h1);
    let res = verify_batch([0u8; 32], &vec![(1, b1), (2, b2)]);
    assert!(res.is_ok(), "{res:?}");
    assert_eq!(res.unwrap().len(), 2);
}

#[test]
fn broken_link_is_refused() {
    let r1 = put_record(b"a", 100, b"x");
    let b1 = r1.to_bytes([0u8; 32]);
    let b2 = put_record(b"b", 50, b"y").to_bytes([7u8; 32]);
    assert!(verify_batch([0u8; 32], &vec![(1, b1), (2, b2)]).is_err());
}

// ---------- a peer to talk to ----------

/// The id of the connection of a key: what libp2p makes of its protobuf form.
fn pid_of(kp: &Keypair) -> Vec<u8> {
    let mut b = vec![0u8, 36, 8, 1, 18, 32];
    b.extend_from_slice(&kp.public().to_bytes());
    b
}

fn config(peers: Vec<Peer>) -> Config {
    Config { peers, ..Config::default() }
}

fn peer(name: &str, pin: &str, namespaces: Option<Vec<String>>) -> Peer {
    Peer { name: name.into(), addr: "/ip4/127.0.0.1/tcp/9002".into(), pin: pin.into(), namespaces }
}

#[test]
fn only_pinned_peers_get_records() {
    let kp = Keypair::from_seed([8; 32]);
    let me = Keypair::from_seed([9; 32]);
    let pid = pid_of(&kp);
    let mut s = fresh();
    s.create_namespace("n", ConflictPolicy::Lww).unwrap();
    s.put("n", &b"k".to_vec(), b"v", 7, A, A, 0).unwrap();
    let pull = SyncRequest::Pull { ns: "n".into(), from_seq: 1 };
    let mut clock = Hlc::from(0);

    let stranger = config(vec![]);
    assert!(matches!(inbound_access(&stranger, &pid, None), InboundAccess::Deny));
    assert!(matches!(
        on_request(&s, &stranger, &me.public(), &mut clock, &pid, None, &pull, 1),
        SyncResponse::Denied
    ));

    let pinned = config(vec![peer("p", &kp.public().to_hex(), None)]);
    match on_request(&s, &pinned, &me.public(), &mut clock, &pid, None, &pull, 1) {
        SyncResponse::Records(r) => {
            assert_eq!(r.ns, "n");
            assert_eq!(r.records.len(), 1);
            assert_eq!(r.records[0].seq, 1);
            assert_eq!(r.records[0].payload_b64, b64_encode(&s.log_records("n", 1, 0).unwrap()[0].1));
        }
        other => panic!("expected records, got {other:?}"),
    }
    match on_request(&s, &pinned, &me.public(), &mut clock, &pid, None, &SyncRequest::Hello, 1) {
        SyncResponse::Hello(h) => {
            assert_eq!(h.host_id, me.public().to_hex());
            assert_eq!(h.namespaces.len(), 1);
            assert_eq!(h.namespaces[0].seq, 1);
        }
        other => panic!("expected hello, got {other:?}"),
    }
}

#[test]
fn unpinned_peer_may_only_say_hello() {
    let kp = Keypair::from_seed([8; 32]);
    let pid = pid_of(&kp);
    let cfg = config(vec![peer("p", "", None)]);
    assert!(matches!(inbound_access(&cfg, &pid, Some("p")), InboundAccess::HelloOnly { .. }));
}

#[test]
fn pull_starts_where_it_is_asked_to() {
    let mut s = fresh();
    s.create_namespace("n", ConflictPolicy::Lww).unwrap();
    for i in 0..5u64 {
        s.put("n", &format!("k{i}").into_bytes(), b"v", i, A, A, 0).unwrap();
    }
    let r = serve_pull(&s, "n", 4);
    assert_eq!(r.records.iter().map(|x| x.seq).collect::<Vec<_>>(), vec![4, 5]);
    assert!(serve_pull(&s, "other", 1).records.is_empty());
}

#[test]
fn a_round_pulls_what_a_peer_has() {
    let them = Keypair::from_seed([8; 32]);
    let pid = pid_of(&them);
    let mut far = fresh();
    far.create_namespace("n", ConflictPolicy::Lww).unwrap();
    far.put("n", &b"k".to_vec(), b"v", 7 << 16, A, A, 0).unwrap();
    let mut near = fresh();
    near.create_namespace("n", ConflictPolicy::Lww).unwrap();
    let mut cfg = config(vec![peer("p", "", None)]);
    let mut e = SyncEngine::new();

    let acts = e.kick_all(&cfg, &vec![]);
    assert!(matches!(&acts[..], [Action::Dial { name, .. }] if name == "p"), "{acts:?}");
    let a = e.on_connected(&pid, "/ip4/127.0.0.1/tcp/9002");
    assert!(matches!(a, Some(Action::SendHello { .. })), "{a:?}");
    assert_eq!(e.name_for_pid(&pid), Some("p".to_string()));

    let hello = HelloResponse {
        host_id: them.public().to_hex(),
        hlc: 1_000 << 16,
        namespaces: vec![NsHead { ns: "n".into(), seq: 1, hash: String::new() }],
    };
    let acts = e.on_hello(&mut near, &mut cfg, &pid, &hello, 900);
    assert!(matches!(&acts[0], Action::SavePin { name } if name == "p"), "{acts:?}");
    assert!(matches!(&acts[1], Action::SendPull { ns, from_seq: 1, .. } if ns == "n"), "{acts:?}");
    assert_eq!(cfg.peers[0].pin, them.public().to_hex());
    assert_eq!(near.peer_clock("p"), Some(100));

    let acts = e.on_records(&mut near, &cfg, &pid, &serve_pull(&far, "n", 1));
    assert!(matches!(&acts[..], [Action::Notify { ns }] if ns == "n"), "{acts:?}");
    match near.get("n", &b"k".to_vec()).unwrap() {
        Entry::Lww(v) => assert_eq!(v.value, b"v"),
        _ => panic!(),
    }
    // The same records once more were not asked for.
    assert!(e.on_records(&mut near, &cfg, &pid, &serve_pull(&far, "n", 1)).is_empty());
}

/// An engine that waits for a peer's hello.
fn waiting(cfg: &Config, pid: &[u8]) -> SyncEngine {
    let mut e = SyncEngine::new();
    e.kick_all(cfg, &vec![]);
    e.on_connected(pid, "/ip4/127.0.0.1/tcp/9002");
    e
}

#[test]
fn pins_hold() {
    let them = Keypair::from_seed([8; 32]);
    let other = Keypair::from_seed([10; 32]);
    let mut near = fresh();
    let hello = HelloResponse { host_id: other.public().to_hex(), hlc: 0, namespaces: vec![] };
    // First contact: the host named is not the one at the other end.
    let mut cfg = config(vec![peer("p", "", None)]);
    let mut e = waiting(&cfg, &pid_of(&them));
    assert!(e.on_hello(&mut near, &mut cfg, &pid_of(&them), &hello, 0).is_empty());
    assert_eq!(cfg.peers[0].pin, "");
    // Later: the host named is not the pinned one.
    let mut cfg = config(vec![peer("p", &them.public().to_hex(), None)]);
    let mut e = waiting(&cfg, &pid_of(&them));
    assert!(e.on_hello(&mut near, &mut cfg, &pid_of(&them), &hello, 0).is_empty());
    assert_eq!(cfg.peers[0].pin, them.public().to_hex());
    // Not a host at all.
    let junk = HelloResponse { host_id: "zz".into(), hlc: 0, namespaces: vec![] };
    let mut e = waiting(&cfg, &pid_of(&them));
    assert!(e.on_hello(&mut near, &mut cfg, &pid_of(&them), &junk, 0).is_empty());
}

/// An engine in the middle of a pull of `n`, up to 1.
fn pulling(near: &mut Store, cfg: &mut Config, them: &Keypair) -> SyncEngine {
    let mut e = waiting(cfg, &pid_of(them));
    let hello = HelloResponse {
        host_id: them.public().to_hex(),
        hlc: 0,
        namespaces: vec![NsHead { ns: "n".into(), seq: 1, hash: String::new() }],
    };
    let acts = e.on_hello(near, cfg, &pid_of(them), &hello, 0);
    assert!(matches!(acts.last(), Some(Action::SendPull { .. })), "{acts:?}");
    e
}

#[test]
fn records_are_refused_whole() {
    let them = Keypair::from_seed([8; 32]);
    let pid = pid_of(&them);
    let mut near = fresh();
    near.create_namespace("n", ConflictPolicy::Lww).unwrap();
    let good = b64_encode(&put_record(b"k", 5, b"v").to_bytes([0; 32]));
    let rec = |payload: &str, ns: &str| Records {
        ns: ns.into(),
        records: vec![
            Rec { seq: 1, payload_b64: good.clone() },
            Rec { seq: 2, payload_b64: payload.into() },
        ],
    };
    let open = config(vec![peer("p", &them.public().to_hex(), None)]);
    for bad in [rec("!!!!", "n"), rec("Zg", "n"), rec(&good, "other")] {
        let mut cfg = config(vec![peer("p", &them.public().to_hex(), None)]);
        let mut e = pulling(&mut near, &mut cfg, &them);
        assert!(e.on_records(&mut near, &open, &pid, &bad).is_empty());
        assert!(near.get("n", &b"k".to_vec()).is_none());
    }
    // A namespace that the peer may not write to.
    let mut cfg = config(vec![peer("p", &them.public().to_hex(), Some(vec!["other".into()]))]);
    let mut e = pulling(&mut near, &mut cfg, &them);
    let one = Records { ns: "n".into(), records: vec![Rec { seq: 1, payload_b64: good.clone() }] };
    assert!(e.on_records(&mut near, &cfg, &pid, &one).is_empty());
    assert!(near.get("n", &b"k".to_vec()).is_none());
    // And one that it may.
    let mut cfg = config(vec![peer("p", &them.public().to_hex(), Some(vec!["n".into()]))]);
    let mut e = pulling(&mut near, &mut cfg, &them);
    assert_eq!(e.on_records(&mut near, &cfg, &pid, &one).len(), 1);
    assert!(near.get("n", &b"k".to_vec()).is_some());
}

#[test]
fn listening_addresses() {
    assert_eq!(listen_addr("9001"), "/ip4/0.0.0.0/tcp/9001");
    assert_eq!(listen_addr("/ip4/127.0.0.1/tcp/1"), "/ip4/127.0.0.1/tcp/1");
}
