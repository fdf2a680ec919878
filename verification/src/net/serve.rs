//! What a node answers its peers.

use crate::hexes;
use crate::net::wire;
use crate::net::wire::{
    HelloResponse, HelloV, NsHead, NsHeadV, Rec, RecV, Records, RecordsV, SyncRequest, SyncRequestV, SyncResponse, SyncResponseV,
};
use crate::node::hlc;
use crate::node::hlc::Hlc;
use crate::node::ident;
use crate::node::ident::PublicKey;
use crate::ordmap;
use crate::ordmap::same_bytes;
use crate::server::config;
use crate::server::config::{Config, PeerV};
use crate::storage::log;
use crate::storage::model::StoreV;
use crate::storage::store::Store;
use crate::text;
use crate::util;
use vstd::prelude::*;

verus! {

/// How many records one answer holds.
pub const MAX_RECORDS: u64 = 1000;

/// How many bytes of records one answer holds.
pub const MAX_FRAME_BYTES: u64 = 983_040;

/// How long a single record may be in Base64: a longer one fits no answer.
pub const MAX_SINGLE_RECORD_B64: u64 = 8_388_608;

// ---------- who asks ----------

/// The peer id that belongs to a public key; none where the bytes are no key.
pub uninterp spec fn peer_id_bytes(key: Seq<u8>) -> Option<Seq<u8>>;

/// `libp2p::identity::ed25519::PublicKey::try_from_bytes` and `PeerId::from_public_key`,
/// in bytes: they depend on the key alone, and the id of a key ends with the key.
#[verifier::external_body]
pub(crate) fn peer_id_of(key: &PublicKey) -> (r: Option<Vec<u8>>)
    ensures
        match peer_id_bytes(key@) {
            Some(p) => r matches Some(b) && b@ == p,
            None => r is None,
        },
        r matches Some(b) ==> b@.len() >= 32 && b@.skip(b@.len() - 32) == key@,
{
    let key = libp2p::identity::ed25519::PublicKey::try_from_bytes(&key.to_bytes()).ok()?;
    Some(libp2p::PeerId::from_public_key(&libp2p::identity::PublicKey::from(key)).to_bytes())
}

/// How far one who asks is trusted.
#[derive(Debug, PartialEq, Eq)]
pub enum InboundAccess {
    /// No peer of the configuration, or one whose pin is another key's.
    Deny,
    /// A peer without a pin that this node dialed itself: the handshake that pins it
    /// may go on, but nothing is served.
    HelloOnly { name: String },
    /// The peer that its pin says.
    Full { name: String },
}

/// How far one who asks is trusted, in the model.
pub enum AccessV {
    Deny,
    HelloOnly(Seq<char>),
    Full(Seq<char>),
}

impl View for InboundAccess {
    type V = AccessV;

    open spec fn view(&self) -> AccessV {
        match self {
            InboundAccess::Deny => AccessV::Deny,
            InboundAccess::HelloOnly { name } => AccessV::HelloOnly(name@),
            InboundAccess::Full { name } => AccessV::Full(name@),
        }
    }
}

/// Is the peer pinned to the key of the connection?
pub open spec fn pin_proves(p: PeerV, pid: Seq<u8>) -> bool {
    p.pin.len() > 0 && ident::is_key_text(p.pin) && peer_id_bytes(hexes::hex_bytes(p.pin)) == Some(pid)
}

/// The place of the first peer from `i` on whose pin is the connection's key.
pub open spec fn proven_at(ps: Seq<PeerV>, pid: Seq<u8>, i: int) -> int
    decreases ps.len() - i,
{
    if i < 0 || i >= ps.len() {
        ps.len() as int
    } else if pin_proves(ps[i], pid) {
        i
    } else {
        proven_at(ps, pid, i + 1)
    }
}

/// How far the holder of a connection is trusted. `dialed` is the peer that this node
/// bound the connection's id to by its own dial.
pub open spec fn access(ps: Seq<PeerV>, pid: Seq<u8>, dialed: Option<Seq<char>>) -> AccessV {
    let i = proven_at(ps, pid, 0);
    if i < ps.len() {
        AccessV::Full(ps[i].name)
    } else {
        match dialed {
            None => AccessV::Deny,
            Some(n) => {
                let j = config::place_of(ps, n, 0);
                if j < ps.len() && ps[j].pin.len() == 0 {
                    AccessV::HelloOnly(n)
                } else {
                    AccessV::Deny
                }
            },
        }
    }
}

/// How far the holder of a connection is trusted, by the configuration as it is now.
pub fn inbound_access(cfg: &Config, pid: &[u8], dialed: Option<&str>) -> (r: InboundAccess)
    ensures
        r@ == access(config::peer_views(cfg.peers@), pid@, text::opt_view(dialed)),
{
    let ghost all = config::peer_views(cfg.peers@);
    let mut i: usize = 0;
    while i < cfg.peers.len()
        invariant
            i <= cfg.peers@.len(),
            all == config::peer_views(cfg.peers@),
            proven_at(all, pid@, 0) == proven_at(all, pid@, i as int),
        decreases cfg.peers@.len() - i,
    {
        assert(all[i as int] == cfg.peers@[i as int]@);
        match PublicKey::from_hex(cfg.peers[i].pin.as_str()) {
            Err(_) => {},
            Ok(k) => match peer_id_of(&k) {
                None => {},
                Some(b) => {
                    if same_bytes(b.as_slice(), pid) {
                        return InboundAccess::Full { name: text::copy_text(cfg.peers[i].name.as_str()) };
                    }
                },
            },
        }
        i += 1;
    }
    match dialed {
        None => InboundAccess::Deny,
        Some(n) => match cfg.peer(n) {
            None => InboundAccess::Deny,
            Some(p) => {
                proof {
                    let j = config::place_of(all, n@, 0);
                    lemma_place_bounds(all, n@, 0);
                    assert(all[j] == cfg.peers@[j]@);
                    text::lemma_utf8_len(p.pin@);
                }
                if p.pin.as_str().as_bytes().len() == 0 {
                    InboundAccess::HelloOnly { name: text::copy_text(n) }
                } else {
                    InboundAccess::Deny
                }
            },
        },
    }
}

pub proof fn lemma_place_bounds(ps: Seq<PeerV>, name: Seq<char>, i: int)
    requires
        0 <= i,
    ensures
        0 <= config::place_of(ps, name, i) <= ps.len(),
    decreases ps.len() - i,
{
    if i < ps.len() && ps[i].name != name {
        lemma_place_bounds(ps, name, i + 1);
    }
}

// ---------- what is served ----------

/// How far the namespaces of a store are, in name order.
pub open spec fn heads_of(s: StoreV) -> Seq<NsHeadV> {
    let ks = ordmap::listed(s.spaces.dom());
    Seq::new(
        ks.len(),
        |i: int|
            NsHeadV {
                ns: vstd::utf8::decode_utf8(ks[i]),
                seq: s.spaces[ks[i]].log.records.len() as u64,
                hash: hexes::hex_text(s.spaces[ks[i]].log.head),
            },
    )
}

/// The answer to a hello.
pub open spec fn hello_of(s: StoreV, root: Seq<u8>, clock: u64) -> HelloV {
    HelloV { host_id: hexes::hex_text(root), hlc: clock, namespaces: heads_of(s) }
}

/// The answer to a hello: who this is, its clock, and how far its namespaces are.
pub fn serve_hello(store: &Store, root: &PublicKey, clock: &mut Hlc, now_ms: u64) -> (r: HelloResponse)
    requires
        store.wf(),
    ensures
        final(clock).value() == hlc::issued(old(clock).value(), now_ms),
        r@ == hello_of(store@, root@, final(clock).value()),
{
    let l = store.namespaces_with_head();
    let ghost want = heads_of(store@);
    let mut out: Vec<NsHead> = Vec::new();
    let mut i: usize = 0;
    while i < l.len()
        invariant
            i <= l@.len(),
            want == heads_of(store@),
            l@.len() == want.len(),
            l@.len() == ordmap::listed(store@.spaces.dom()).len(),
            forall|j: int|
                0 <= j < l@.len() ==> {
                    let k = ordmap::listed(store@.spaces.dom())[j];
                    &&& text::utf8((#[trigger] l@[j]).0@) == k
                    &&& l@[j].1 == store@.spaces[k].log.records.len()
                    &&& l@[j].2@ == store@.spaces[k].log.head
                },
            out@.len() == i,
            forall|j: int| 0 <= j < i ==> (#[trigger] out@[j])@ == want[j],
        decreases l@.len() - i,
    {
        proof {
            text::lemma_utf8_decodes(l@[i as int].0@);
        }
        let h = NsHead {
            ns: text::copy_text(l[i].0.as_str()),
            seq: l[i].1,
            hash: hexes::hex_encode(l[i].2.as_slice()),
        };
        out.push(h);
        i += 1;
    }
    assert(wire::head_views(out@) =~= want);
    *clock = Hlc::issue(*clock, now_ms);
    HelloResponse { host_id: root.to_hex(), hlc: clock.to_u64(), namespaces: out }
}

/// The length of bytes in padded Base64.
pub open spec fn b64_len(n: int) -> int {
    (n + 2) / 3 * 4
}

/// The records of a window as far as one answer holds them, from place `i` on, with
/// `count` of them and `bytes` of their bytes taken already; none where one fits no
/// answer at all. One that is longer than an answer's share goes alone.
pub open spec fn chunk_from(records: Seq<Seq<u8>>, from: int, end: int, taken: Seq<RecV>, bytes: int) -> Seq<RecV>
    decreases end - from + 1,
{
    if from > end || from <= 0 {
        taken
    } else {
        let p = records[from - 1];
        let rec = RecV { seq: from as u64, payload_b64: util::b64_text(false, p) };
        if b64_len(p.len() as int) > MAX_SINGLE_RECORD_B64 {
            Seq::empty()
        } else if p.len() > MAX_FRAME_BYTES {
            if taken.len() == 0 {
                taken.push(rec)
            } else {
                taken
            }
        } else if taken.len() >= MAX_RECORDS || bytes + p.len() > MAX_FRAME_BYTES {
            taken
        } else {
            chunk_from(records, from + 1, end, taken.push(rec), bytes + p.len())
        }
    }
}

/// The records of a namespace from a number on, as far as one answer holds them.
pub open spec fn chunk_of(s: StoreV, n: Seq<char>, from_seq: u64) -> Seq<RecV> {
    if s.has(n) {
        let recs = s.space(n).log.records;
        chunk_from(
            recs,
            from_seq as int,
            log::window_end(recs.len() as int, from_seq as int, MAX_RECORDS as int),
            Seq::empty(),
            0,
        )
    } else {
        Seq::empty()
    }
}

/// The records of a namespace from a number on, as far as one answer holds them.
pub fn serve_pull(store: &Store, n: &str, from_seq: u64) -> (r: Records)
    requires
        store.wf(),
    ensures
        r@ == (RecordsV { ns: n@, records: chunk_of(store@, n@, from_seq) }),
{
    let mut out: Vec<Rec> = Vec::new();
    assert(wire::rec_views(out@) =~= Seq::empty());
    let found = match store.log_records(n, from_seq, MAX_RECORDS) {
        Err(_) => {
            return Records { ns: text::copy_text(n), records: out };
        },
        Ok(l) => l,
    };
    let ghost recs = store@.space(n@).log.records;
    let ghost end = log::window_end(recs.len() as int, from_seq as int, MAX_RECORDS as int);
    let ghost whole = chunk_of(store@, n@, from_seq);
    let mut bytes: u64 = 0;
    let mut i: usize = 0;
    while i < found.len()
        invariant
            i <= found@.len(),
            log::numbered(found@, recs, from_seq as int, end),
            end == log::window_end(recs.len() as int, from_seq as int, MAX_RECORDS as int),
            found@.len() > 0 ==> from_seq > 0,
            bytes <= MAX_FRAME_BYTES,
            whole == chunk_of(store@, n@, from_seq),
            whole == chunk_from(recs, from_seq + i, end, wire::rec_views(out@), bytes as int),
        decreases found@.len() - i,
    {
        let ghost had = wire::rec_views(out@);
        let (seq, payload) = (&found[i].0, &found[i].1);
        let n_bytes: u64 = payload.len() as u64;
        assert(had.len() == out@.len());
        if n_bytes > 6_291_456 {
            assert(b64_len(n_bytes as int) > MAX_SINGLE_RECORD_B64);
            let none: Vec<Rec> = Vec::new();
            assert(wire::rec_views(none@) =~= Seq::empty());
            return Records { ns: text::copy_text(n), records: none };
        }
        assert(b64_len(n_bytes as int) <= MAX_SINGLE_RECORD_B64);
        if n_bytes > MAX_FRAME_BYTES {
            if out.len() == 0 {
                let rec = Rec { seq: *seq, payload_b64: util::b64_encode(payload.as_slice()) };
                let ghost rv = rec@;
                out.push(rec);
                assert(wire::rec_views(out@) =~= had.push(rv));
            }
            return Records { ns: text::copy_text(n), records: out };
        }
        if out.len() as u64 >= MAX_RECORDS || n_bytes > MAX_FRAME_BYTES - bytes {
            return Records { ns: text::copy_text(n), records: out };
        }
        bytes = bytes + n_bytes;
        let rec = Rec { seq: *seq, payload_b64: util::b64_encode(payload.as_slice()) };
        let ghost rv = rec@;
        out.push(rec);
        assert(wire::rec_views(out@) =~= had.push(rv));
        i += 1;
    }
    Records { ns: text::copy_text(n), records: out }
}

/// What one who asks is answered.
pub open spec fn answer(s: StoreV, root: Seq<u8>, who: AccessV, q: SyncRequestV, clock: u64) -> SyncResponseV {
    match (who, q) {
        (AccessV::Deny, _) => SyncResponseV::Denied,
        (_, SyncRequestV::Hello) => SyncResponseV::Hello(hello_of(s, root, clock)),
        (AccessV::HelloOnly(_), SyncRequestV::Pull { ns, from_seq }) => SyncResponseV::Denied,
        (AccessV::Full(_), SyncRequestV::Pull { ns, from_seq }) => SyncResponseV::Records(
            RecordsV { ns, records: chunk_of(s, ns, from_seq) },
        ),
    }
}

/// Answer one who asks, as far as it is trusted.
pub fn on_request(
    store: &Store,
    cfg: &Config,
    root: &PublicKey,
    clock: &mut Hlc,
    pid: &[u8],
    dialed: Option<&str>,
    request: &SyncRequest,
    now_ms: u64,
) -> (r: SyncResponse)
    requires
        store.wf(),
    ensures
        ({
            let who = access(config::peer_views(cfg.peers@), pid@, text::opt_view(dialed));
            &&& r@ == answer(store@, root@, who, request@, hlc::issued(old(clock).value(), now_ms))
            &&& final(clock).value() == (if r@ is Hello {
                hlc::issued(old(clock).value(), now_ms)
            } else {
                old(clock).value()
            })
        }),
{
    let who = inbound_access(cfg, pid, dialed);
    match (&who, request) {
        (InboundAccess::Deny, _) => SyncResponse::Denied,
        (_, SyncRequest::Hello) => SyncResponse::Hello(serve_hello(store, root, clock, now_ms)),
        (InboundAccess::HelloOnly { name: _ }, SyncRequest::Pull { ns: _, from_seq: _ }) => SyncResponse::Denied,
        (InboundAccess::Full { name: _ }, SyncRequest::Pull { ns, from_seq }) => SyncResponse::Records(
            serve_pull(store, ns.as_str(), *from_seq),
        ),
    }
}

// ---------- laws ----------

/// Data goes to peers whose pin the connection proves, and to nobody else: whoever gets
/// records is pinned to the connection's key.
pub proof fn law_records_go_to_pinned_peers(
    s: StoreV,
    root: Seq<u8>,
    ps: Seq<PeerV>,
    pid: Seq<u8>,
    dialed: Option<Seq<char>>,
    q: SyncRequestV,
    clock: u64,
)
    requires
        answer(s, root, access(ps, pid, dialed), q, clock) is Records,
    ensures
        exists|i: int| 0 <= i < ps.len() && pin_proves(#[trigger] ps[i], pid),
{
    lemma_proven(ps, pid, 0);
}

pub proof fn lemma_proven(ps: Seq<PeerV>, pid: Seq<u8>, i: int)
    requires
        0 <= i,
    ensures
        proven_at(ps, pid, i) < ps.len() ==> 0 <= proven_at(ps, pid, i) && pin_proves(ps[proven_at(ps, pid, i)], pid),
    decreases ps.len() - i,
{
    if i < ps.len() && !pin_proves(ps[i], pid) {
        lemma_proven(ps, pid, i + 1);
    }
}

/// Who is no peer of the configuration is denied, whatever it asks.
pub proof fn law_strangers_are_denied(
    s: StoreV,
    root: Seq<u8>,
    ps: Seq<PeerV>,
    pid: Seq<u8>,
    q: SyncRequestV,
    clock: u64,
)
    requires
        forall|i: int| 0 <= i < ps.len() ==> !pin_proves(#[trigger] ps[i], pid),
    ensures
        answer(s, root, access(ps, pid, None), q, clock) is Denied,
{
    lemma_proven(ps, pid, 0);
}

/// The bytes of the records that a chunk holds.
pub open spec fn payload(records: Seq<Seq<u8>>, chunk: Seq<RecV>) -> int
    decreases chunk.len(),
{
    if chunk.len() == 0 {
        0
    } else {
        payload(records, chunk.drop_last()) + records[chunk.last().seq - 1].len()
    }
}

/// One answer holds no more than its share of records and of bytes, but for a single
/// record that goes alone.
pub proof fn law_chunks_are_bounded(s: StoreV, n: Seq<char>, from_seq: u64)
    requires
        s.space(n).log.records.len() <= u64::MAX,
    ensures
        ({
            let chunk = chunk_of(s, n, from_seq);
            &&& chunk.len() <= MAX_RECORDS
            &&& chunk.len() == 1 || payload(s.space(n).log.records, chunk) <= MAX_FRAME_BYTES
        }),
{
    if s.has(n) {
        let recs = s.space(n).log.records;
        let end = log::window_end(recs.len() as int, from_seq as int, MAX_RECORDS as int);
        lemma_chunk_bounded(recs, from_seq as int, end, Seq::empty(), 0);
    }
}

proof fn lemma_chunk_bounded(records: Seq<Seq<u8>>, from: int, end: int, taken: Seq<RecV>, bytes: int)
    requires
        end <= u64::MAX,
        taken.len() <= MAX_RECORDS,
        bytes == payload(records, taken),
        bytes <= MAX_FRAME_BYTES,
    ensures
        ({
            let chunk = chunk_from(records, from, end, taken, bytes);
            &&& chunk.len() <= MAX_RECORDS
            &&& chunk.len() == 1 || payload(records, chunk) <= MAX_FRAME_BYTES
        }),
    decreases end - from + 1,
{
    if from <= end && from > 0 {
        let p = records[from - 1];
        if b64_len(p.len() as int) <= MAX_SINGLE_RECORD_B64 && p.len() <= MAX_FRAME_BYTES && taken.len() < MAX_RECORDS
            && bytes + p.len() <= MAX_FRAME_BYTES {
            let rec = RecV { seq: from as u64, payload_b64: util::b64_text(false, p) };
            let more = taken.push(rec);
            assert(more.drop_last() =~= taken);
            lemma_chunk_bounded(records, from + 1, end, more, bytes + p.len());
        }
    }
}

/// A pull makes progress: where there is a record with the number asked for, and every
/// record fits an answer, the answer is not empty.
pub proof fn law_pull_makes_progress(s: StoreV, n: Seq<char>, from_seq: u64)
    requires
        s.has(n),
        0 < from_seq <= s.space(n).log.records.len(),
        forall|i: int|
            0 <= i < s.space(n).log.records.len() ==> b64_len((#[trigger] s.space(n).log.records[i]).len() as int)
                <= MAX_SINGLE_RECORD_B64,
    ensures
        chunk_of(s, n, from_seq).len() > 0,
{
    let recs = s.space(n).log.records;
    let end = log::window_end(recs.len() as int, from_seq as int, MAX_RECORDS as int);
    let p = recs[from_seq - 1];
    let rec = RecV { seq: from_seq, payload_b64: util::b64_text(false, p) };
    let none = Seq::<RecV>::empty();
    assert(b64_len(p.len() as int) <= MAX_SINGLE_RECORD_B64);
    if p.len() <= MAX_FRAME_BYTES {
        lemma_chunk_keeps(recs, from_seq + 1, end, none.push(rec), p.len() as int);
    }
}

proof fn lemma_chunk_keeps(records: Seq<Seq<u8>>, from: int, end: int, taken: Seq<RecV>, bytes: int)
    requires
        taken.len() > 0,
        0 < from,
        end <= records.len(),
        forall|i: int|
            0 <= i < records.len() ==> b64_len((#[trigger] records[i]).len() as int) <= MAX_SINGLE_RECORD_B64,
    ensures
        chunk_from(records, from, end, taken, bytes).len() > 0,
    decreases end - from + 1,
{
    if from <= end {
        let p = records[from - 1];
        assert(b64_len(p.len() as int) <= MAX_SINGLE_RECORD_B64);
        if p.len() <= MAX_FRAME_BYTES && taken.len() < MAX_RECORDS && bytes + p.len() <= MAX_FRAME_BYTES {
            let rec = RecV { seq: from as u64, payload_b64: util::b64_text(false, p) };
            lemma_chunk_keeps(records, from + 1, end, taken.push(rec), bytes + p.len());
        }
    }
}

} // verus!
