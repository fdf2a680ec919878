//! The pulling side of replication: from events to the next state and what to do.

use crate::hexes;
use crate::json;
use crate::net::merge;
use crate::net::merge::verify_batch;
use crate::net::serve;
use crate::net::serve::peer_id_of;
use crate::net::wire;
use crate::net::wire::{HelloResponse, HelloV, NsHead, NsHeadV, Rec, RecV, Records, RecordsV};
use crate::node::hlc;
use crate::node::ident;
use crate::node::ident::PublicKey;
use crate::ordmap::same_bytes;
use crate::server::config;
use crate::server::config::{read_multiaddr, Config, Peer, PeerV};
use crate::storage::log;
use crate::storage::model::StoreV;
use crate::storage::record::{Record, RecordV};
use crate::storage::disk;
use crate::storage::store::Store;
use crate::text;
use crate::util;
use vstd::prelude::*;
use vstd::slice::slice_to_vec;

verus! {

/// How many records are taken in before a snapshot is due.
pub const CHECKPOINT_EVERY: u64 = 1000;

/// How many answers of a peer are taken in one round.
pub const MAX_CHUNKS_PER_TICK: u64 = 32;

/// How far ahead of its own log a node follows a peer's word in one round.
pub const MAX_LEAD: u64 = 64_000;

/// How many samples of a peer's clock are kept.
pub const SKEW_SAMPLES: usize = 8;

/// Where a round with a peer stands.
#[derive(Debug)]
pub enum Phase {
    /// Nothing is under way.
    Idle,
    WaitingDial,
    AwaitingHello,
    /// A pull is under way, up to a number.
    Pulling { ns: String, target: u64 },
    Done,
    /// The peer cannot be used in this round.
    Bad(String),
}

/// Where a round stands, in the model.
#[verifier::ext_equal]
pub enum PhaseV {
    Idle,
    WaitingDial,
    AwaitingHello,
    Pulling { ns: Seq<char>, target: u64 },
    Done,
    Bad(Seq<char>),
}

impl View for Phase {
    type V = PhaseV;

    open spec fn view(&self) -> PhaseV {
        match self {
            Phase::Idle => PhaseV::Idle,
            Phase::WaitingDial => PhaseV::WaitingDial,
            Phase::AwaitingHello => PhaseV::AwaitingHello,
            Phase::Pulling { ns, target } => PhaseV::Pulling { ns: ns@, target: *target },
            Phase::Done => PhaseV::Done,
            Phase::Bad(m) => PhaseV::Bad(m@),
        }
    }
}

/// What is known of a peer.
#[derive(Debug)]
pub struct PeerCtx {
    pub name: String,
    pub addr: String,
    /// The id of the connection to it.
    pub pid: Option<Vec<u8>>,
    pub pin: Option<PublicKey>,
    pub phase: Phase,
    /// Answers that were taken in this round.
    pub round_chunks: u64,
    /// Namespaces that are still to be pulled.
    pub queue: Vec<(String, u64)>,
    /// Samples of how far its clock is off.
    pub skew: Vec<i64>,
}

/// What is known of a peer, in the model.
#[verifier::ext_equal]
pub struct CtxV {
    pub name: Seq<char>,
    pub addr: Seq<char>,
    pub pid: Option<Seq<u8>>,
    pub pin: Option<Seq<u8>>,
    pub phase: PhaseV,
    pub round_chunks: u64,
    pub queue: Seq<(Seq<char>, u64)>,
    pub skew: Seq<i64>,
}

/// The views of some pulls.
pub open spec fn queue_views(q: Seq<(String, u64)>) -> Seq<(Seq<char>, u64)> {
    Seq::new(q.len(), |i: int| (q[i].0@, q[i].1))
}

/// The bytes of an id, where there is one.
pub open spec fn opt_bytes(b: Option<Vec<u8>>) -> Option<Seq<u8>> {
    match b {
        Some(v) => Some(v@),
        None => None,
    }
}

/// The bytes of a key, where there is one.
pub open spec fn opt_key(k: Option<PublicKey>) -> Option<Seq<u8>> {
    match k {
        Some(p) => Some(p@),
        None => None,
    }
}

impl View for PeerCtx {
    type V = CtxV;

    open spec fn view(&self) -> CtxV {
        CtxV {
            name: self.name@,
            addr: self.addr@,
            pid: opt_bytes(self.pid),
            pin: opt_key(self.pin),
            phase: self.phase@,
            round_chunks: self.round_chunks,
            queue: queue_views(self.queue@),
            skew: self.skew@,
        }
    }
}

/// The views of some peers.
pub open spec fn ctx_views(ps: Seq<PeerCtx>) -> Seq<CtxV> {
    Seq::new(ps.len(), |i: int| ps[i]@)
}

/// Something to do.
#[allow(inconsistent_fields)]
#[derive(Debug)]
pub enum Action {
    /// Connect to a peer: by its id where that is known, else by its address.
    Dial { name: String, pid: Option<Vec<u8>>, addr: String },
    SendHello { pid: Vec<u8> },
    SendPull { pid: Vec<u8>, ns: String, from_seq: u64 },
    /// Bring the configuration with a peer's new pin to disk.
    SavePin { name: String },
    /// Tell those who watch a namespace that it changed.
    Notify { ns: String },
}

/// Something to do, in the model.
#[allow(inconsistent_fields)]
#[verifier::ext_equal]
pub enum ActionV {
    Dial { name: Seq<char>, pid: Option<Seq<u8>>, addr: Seq<char> },
    SendHello { pid: Seq<u8> },
    SendPull { pid: Seq<u8>, ns: Seq<char>, from_seq: u64 },
    SavePin { name: Seq<char> },
    Notify { ns: Seq<char> },
}

impl View for Action {
    type V = ActionV;

    open spec fn view(&self) -> ActionV {
        match self {
            Action::Dial { name, pid, addr } => ActionV::Dial { name: name@, pid: opt_bytes(*pid), addr: addr@ },
            Action::SendHello { pid } => ActionV::SendHello { pid: pid@ },
            Action::SendPull { pid, ns, from_seq } => ActionV::SendPull { pid: pid@, ns: ns@, from_seq: *from_seq },
            Action::SavePin { name } => ActionV::SavePin { name: name@ },
            Action::Notify { ns } => ActionV::Notify { ns: ns@ },
        }
    }
}

/// The views of some things to do.
pub open spec fn action_views(l: Seq<Action>) -> Seq<ActionV> {
    Seq::new(l.len(), |i: int| l[i]@)
}

/// The peers, what was taken in this round, and the addresses that were dialed with the
/// names of their peers.
pub struct SyncEngine {
    peers: Vec<PeerCtx>,
    round_applied: u64,
    dials: Vec<(String, String)>,
}

/// The engine as a value of the model.
#[verifier::ext_equal]
pub struct EngineV {
    pub peers: Seq<CtxV>,
    pub round_applied: u64,
    pub dials: Seq<(Seq<char>, Seq<char>)>,
}

/// The views of some dials.
pub open spec fn dial_views(d: Seq<(String, String)>) -> Seq<(Seq<char>, Seq<char>)> {
    Seq::new(d.len(), |i: int| (d[i].0@, d[i].1@))
}

impl View for SyncEngine {
    type V = EngineV;

    closed spec fn view(&self) -> EngineV {
        EngineV {
            peers: ctx_views(self.peers@),
            round_applied: self.round_applied,
            dials: dial_views(self.dials@),
        }
    }
}

// ---------- finding peers ----------

/// The place of the first peer of a name from `i` on.
pub open spec fn named_at(ps: Seq<CtxV>, name: Seq<char>, i: int) -> int
    decreases ps.len() - i,
{
    if i < 0 || i >= ps.len() {
        ps.len() as int
    } else if ps[i].name == name {
        i
    } else {
        named_at(ps, name, i + 1)
    }
}

/// The place of the first peer from `i` on that a connection's id belongs to.
pub open spec fn bound_at(ps: Seq<CtxV>, pid: Seq<u8>, i: int) -> int
    decreases ps.len() - i,
{
    if i < 0 || i >= ps.len() {
        ps.len() as int
    } else if ps[i].pid == Some(pid) {
        i
    } else {
        bound_at(ps, pid, i + 1)
    }
}

/// The place of the first peer from `i` on that waits for a connection and has no id.
pub open spec fn waiting_at(ps: Seq<CtxV>, i: int) -> int
    decreases ps.len() - i,
{
    if i < 0 || i >= ps.len() {
        ps.len() as int
    } else if ps[i].phase is WaitingDial && ps[i].pid is None {
        i
    } else {
        waiting_at(ps, i + 1)
    }
}

/// The place of the first dial of an address from `i` on.
pub open spec fn dial_at(d: Seq<(Seq<char>, Seq<char>)>, addr: Seq<char>, i: int) -> int
    decreases d.len() - i,
{
    if i < 0 || i >= d.len() {
        d.len() as int
    } else if d[i].0 == addr {
        i
    } else {
        dial_at(d, addr, i + 1)
    }
}

/// The dials without those of an address.
pub open spec fn undialed(d: Seq<(Seq<char>, Seq<char>)>, addr: Seq<char>) -> Seq<(Seq<char>, Seq<char>)>
    decreases d.len(),
{
    if d.len() == 0 {
        Seq::empty()
    } else if d.last().0 == addr {
        undialed(d.drop_last(), addr)
    } else {
        undialed(d.drop_last(), addr).push(d.last())
    }
}

proof fn lemma_places(ps: Seq<CtxV>, name: Seq<char>, pid: Seq<u8>, i: int)
    requires
        0 <= i,
    ensures
        0 <= named_at(ps, name, i) <= ps.len(),
        0 <= bound_at(ps, pid, i) <= ps.len(),
        0 <= waiting_at(ps, i) <= ps.len(),
        named_at(ps, name, i) < ps.len() ==> ps[named_at(ps, name, i)].name == name,
        bound_at(ps, pid, i) < ps.len() ==> ps[bound_at(ps, pid, i)].pid == Some(pid),
    decreases ps.len() - i,
{
    if i < ps.len() {
        lemma_places(ps, name, pid, i + 1);
    }
}

proof fn lemma_dial(d: Seq<(Seq<char>, Seq<char>)>, addr: Seq<char>, i: int)
    requires
        0 <= i,
    ensures
        0 <= dial_at(d, addr, i) <= d.len(),
    decreases d.len() - i,
{
    if i < d.len() {
        lemma_dial(d, addr, i + 1);
    }
}

impl SyncEngine {
    pub fn new() -> (e: SyncEngine)
        ensures
            e@ == (EngineV { peers: Seq::empty(), round_applied: 0, dials: Seq::empty() }),
    {
        let e = SyncEngine { peers: Vec::new(), round_applied: 0, dials: Vec::new() };
        assert(e@.peers =~= Seq::empty());
        assert(e@.dials =~= Seq::empty());
        e
    }

    fn find_name(&self, name: &str) -> (i: usize)
        ensures
            i == named_at(self@.peers, name@, 0),
    {
        let ghost all = self@.peers;
        let mut i: usize = 0;
        while i < self.peers.len()
            invariant
                i <= self.peers@.len(),
                all == ctx_views(self.peers@),
                named_at(all, name@, 0) == named_at(all, name@, i as int),
            decreases self.peers@.len() - i,
        {
            assert(all[i as int] == self.peers@[i as int]@);
            if text::same_text(self.peers[i].name.as_str(), name) {
                return i;
            }
            i += 1;
        }
        i
    }

    fn find_pid(&self, pid: &[u8]) -> (i: usize)
        ensures
            i == bound_at(self@.peers, pid@, 0),
    {
        let ghost all = self@.peers;
        let mut i: usize = 0;
        while i < self.peers.len()
            invariant
                i <= self.peers@.len(),
                all == ctx_views(self.peers@),
                bound_at(all, pid@, 0) == bound_at(all, pid@, i as int),
            decreases self.peers@.len() - i,
        {
            assert(all[i as int] == self.peers@[i as int]@);
            let here = match &self.peers[i].pid {
                Some(b) => same_bytes(b.as_slice(), pid),
                None => false,
            };
            if here {
                return i;
            }
            i += 1;
        }
        i
    }

    fn find_waiting(&self) -> (i: usize)
        ensures
            i == waiting_at(self@.peers, 0),
    {
        let ghost all = self@.peers;
        let mut i: usize = 0;
        while i < self.peers.len()
            invariant
                i <= self.peers@.len(),
                all == ctx_views(self.peers@),
                waiting_at(all, 0) == waiting_at(all, i as int),
            decreases self.peers@.len() - i,
        {
            assert(all[i as int] == self.peers@[i as int]@);
            if matches!(self.peers[i].phase, Phase::WaitingDial) && self.peers[i].pid.is_none() {
                return i;
            }
            i += 1;
        }
        i
    }

    fn find_dial(&self, addr: &str) -> (i: usize)
        ensures
            i == dial_at(self@.dials, addr@, 0),
    {
        let ghost all = self@.dials;
        let mut i: usize = 0;
        while i < self.dials.len()
            invariant
                i <= self.dials@.len(),
                all == dial_views(self.dials@),
                dial_at(all, addr@, 0) == dial_at(all, addr@, i as int),
            decreases self.dials@.len() - i,
        {
            assert(all[i as int] == (self.dials@[i as int].0@, self.dials@[i as int].1@));
            if text::same_text(self.dials[i].0.as_str(), addr) {
                return i;
            }
            i += 1;
        }
        i
    }

    /// Forget the dials of an address.
    fn forget_dials(&mut self, addr: &str)
        ensures
            final(self)@ == (EngineV { dials: undialed(old(self)@.dials, addr@), ..old(self)@ }),
            final(self).peers == old(self).peers,
    {
        let ghost all = dial_views(self.dials@);
        let mut keep: Vec<(String, String)> = Vec::new();
        let mut i: usize = 0;
        proof {
            assert(all.take(0) =~= Seq::empty());
            assert(dial_views(keep@) =~= Seq::empty());
        }
        while i < self.dials.len()
            invariant
                i <= self.dials@.len(),
                all == dial_views(self.dials@),
                dial_views(keep@) == undialed(all.take(i as int), addr@),
                *self == *old(self),
            decreases self.dials@.len() - i,
        {
            let ghost had = dial_views(keep@);
            proof {
                assert(all.take(i + 1).drop_last() =~= all.take(i as int));
                assert(all.take(i + 1).last() == all[i as int]);
            }
            if !text::same_text(self.dials[i].0.as_str(), addr) {
                let d = (text::copy_text(self.dials[i].0.as_str()), text::copy_text(self.dials[i].1.as_str()));
                keep.push(d);
                assert(dial_views(keep@) =~= had.push(all[i as int]));
            }
            i += 1;
        }
        assert(all.take(i as int) =~= all);
        self.dials = keep;
    }

    /// Set the phase of a peer.
    fn set_phase(&mut self, i: usize, phase: Phase)
        requires
            i < old(self)@.peers.len(),
        ensures
            final(self)@ == with_phase(old(self)@, i as int, phase@),
    {
        let ghost was = self@.peers;
        let ghost pv = phase@;
        self.peers[i].phase = phase;
        assert(self@.peers =~= was.update(i as int, CtxV { phase: pv, ..was[i as int] }));
    }

    /// The peer that this node bound a connection's id to.
    pub fn name_for_pid(&self, pid: &[u8]) -> (r: Option<String>)
        ensures
            match r {
                Some(n) => bound_at(self@.peers, pid@, 0) < self@.peers.len() && n@ == self@.peers[bound_at(
                    self@.peers,
                    pid@,
                    0,
                )].name,
                None => bound_at(self@.peers, pid@, 0) == self@.peers.len(),
            },
    {
        let i: usize = self.find_pid(pid);
        proof {
            lemma_places(self@.peers, Seq::empty(), pid@, 0);
        }
        if i < self.peers.len() {
            Some(text::copy_text(self.peers[i].name.as_str()))
        } else {
            None
        }
    }
}

/// The engine with another phase of a peer.
pub open spec fn with_phase(e: EngineV, i: int, phase: PhaseV) -> EngineV {
    EngineV { peers: e.peers.update(i, CtxV { phase, ..e.peers[i] }), ..e }
}

/// The engine with another peer in its place.
pub open spec fn with_ctx(e: EngineV, i: int, c: CtxV) -> EngineV {
    EngineV { peers: e.peers.update(i, c), ..e }
}

/// The engine after an event, and what is to be done.
pub struct Moved {
    pub engine: EngineV,
    pub actions: Seq<ActionV>,
}

pub open spec fn quiet(e: EngineV) -> Moved {
    Moved { engine: e, actions: Seq::empty() }
}

// ---------- rounds ----------

/// Is something under way with the peer?
pub open spec fn in_flight(p: PhaseV) -> bool {
    p is AwaitingHello || p is Pulling || p is WaitingDial
}

/// Start a round with an idle peer: say hello over the connection there is, else dial.
pub open spec fn kick(e: EngineV, i: int, connected: Set<Seq<u8>>) -> Moved {
    let c = e.peers[i];
    match c.pid {
        Some(pid) => if connected.contains(pid) {
            Moved {
                engine: with_phase(e, i, PhaseV::AwaitingHello),
                actions: seq![ActionV::SendHello { pid }],
            }
        } else {
            Moved {
                engine: with_phase(e, i, PhaseV::WaitingDial),
                actions: seq![ActionV::Dial { name: c.name, pid: c.pid, addr: c.addr }],
            }
        },
        None => Moved {
            engine: EngineV {
                dials: undialed(e.dials, c.addr).push((c.addr, c.name)),
                ..with_phase(e, i, PhaseV::WaitingDial)
            },
            actions: seq![ActionV::Dial { name: c.name, pid: None, addr: c.addr }],
        },
    }
}

/// The key that a peer is pinned to.
pub open spec fn pin_of(p: PeerV) -> Option<Seq<u8>> {
    if ident::is_key_text(p.pin) {
        Some(hexes::hex_bytes(p.pin))
    } else {
        None
    }
}

/// Start a round with a peer of the configuration: one with something under way goes on
/// with it, one whose address cannot be read is passed over.
pub open spec fn kick_one(e: EngineV, p: PeerV, connected: Set<Seq<u8>>) -> Moved {
    match config::multiaddr_text(p.addr) {
        None => quiet(e),
        Some(addr) => {
            let i = named_at(e.peers, p.name, 0);
            if i < e.peers.len() {
                let c = CtxV { addr, round_chunks: 0, ..e.peers[i] };
                if in_flight(c.phase) {
                    quiet(with_ctx(e, i, c))
                } else {
                    kick(with_ctx(e, i, c), i, connected)
                }
            } else {
                let c = CtxV {
                    name: p.name,
                    addr,
                    pid: None,
                    pin: pin_of(p),
                    phase: PhaseV::Idle,
                    round_chunks: 0,
                    queue: Seq::empty(),
                    skew: Seq::empty(),
                };
                kick(EngineV { peers: e.peers.push(c), ..e }, i, connected)
            }
        },
    }
}

/// Start a round with every peer of the configuration, in order.
pub open spec fn kick_all(e: EngineV, ps: Seq<PeerV>, connected: Set<Seq<u8>>) -> Moved
    decreases ps.len(),
{
    if ps.len() == 0 {
        quiet(EngineV { round_applied: 0, ..e })
    } else {
        let before = kick_all(e, ps.drop_last(), connected);
        let one = kick_one(before.engine, ps.last(), connected);
        Moved { engine: one.engine, actions: before.actions + one.actions }
    }
}

/// The ids that are connected.
pub open spec fn id_set(l: Seq<Vec<u8>>) -> Set<Seq<u8>> {
    Set::new(|b: Seq<u8>| exists|i: int| 0 <= i < l.len() && (#[trigger] l[i])@ == b)
}

fn is_among(l: &Vec<Vec<u8>>, b: &[u8]) -> (r: bool)
    ensures
        r == id_set(l@).contains(b@),
{
    let mut i: usize = 0;
    while i < l.len()
        invariant
            i <= l@.len(),
            forall|j: int| 0 <= j < i ==> (#[trigger] l@[j])@ != b@,
        decreases l@.len() - i,
    {
        if same_bytes(l[i].as_slice(), b) {
            assert(l@[i as int]@ == b@);
            return true;
        }
        i += 1;
    }
    false
}

fn copy_id(b: &Option<Vec<u8>>) -> (r: Option<Vec<u8>>)
    ensures
        opt_bytes(r) == opt_bytes(*b),
{
    match b {
        Some(v) => Some(v.clone()),
        None => None,
    }
}

impl SyncEngine {
    /// Start a round with an idle peer.
    fn kick(&mut self, i: usize, connected: &Vec<Vec<u8>>) -> (a: Action)
        requires
            i < old(self)@.peers.len(),
        ensures
            ({
                let want = kick(old(self)@, i as int, id_set(connected@));
                final(self)@ == want.engine && seq![a@] == want.actions
            }),
    {
        let ghost e = self@;
        let pid = copy_id(&self.peers[i].pid);
        let name = text::copy_text(self.peers[i].name.as_str());
        let addr = text::copy_text(self.peers[i].addr.as_str());
        match pid {
            Some(b) => {
                if is_among(connected, b.as_slice()) {
                    self.set_phase(i, Phase::AwaitingHello);
                    Action::SendHello { pid: b }
                } else {
                    self.set_phase(i, Phase::WaitingDial);
                    Action::Dial { name, pid: Some(b), addr }
                }
            },
            None => {
                self.forget_dials(addr.as_str());
                let ghost had = self@.dials;
                self.dials.push((text::copy_text(addr.as_str()), text::copy_text(name.as_str())));
                proof {
                    assert(self@.dials =~= had.push((addr@, name@)));
                    assert(self@.peers =~= e.peers);
                }
                self.set_phase(i, Phase::WaitingDial);
                Action::Dial { name, pid: None, addr }
            },
        }
    }

    /// Start a round with a peer of the configuration.
    fn kick_one(&mut self, p: &Peer, connected: &Vec<Vec<u8>>) -> (a: Option<Action>)
        ensures
            ({
                let want = kick_one(old(self)@, p@, id_set(connected@));
                &&& final(self)@ == want.engine
                &&& match a {
                    Some(x) => want.actions == seq![x@],
                    None => want.actions.len() == 0,
                }
            }),
    {
        let addr = match read_multiaddr(p.addr.as_str()) {
            None => {
                return None;
            },
            Some(a) => a,
        };
        let ghost e = self@;
        let i: usize = self.find_name(p.name.as_str());
        proof {
            lemma_places(e.peers, p@.name, Seq::empty(), 0);
        }
        if i < self.peers.len() {
            let ghost av = addr@;
            self.peers[i].addr = addr;
            self.peers[i].round_chunks = 0;
            assert(self@.peers =~= e.peers.update(
                i as int,
                CtxV { addr: av, round_chunks: 0, ..e.peers[i as int] },
            ));
            if matches!(
                self.peers[i].phase,
                Phase::AwaitingHello | Phase::Pulling { .. } | Phase::WaitingDial
            ) {
                return None;
            }
            Some(self.kick(i, connected))
        } else {
            let pin = match PublicKey::from_hex(p.pin.as_str()) {
                Ok(k) => Some(k),
                Err(_) => None,
            };
            let c = PeerCtx {
                name: text::copy_text(p.name.as_str()),
                addr,
                pid: None,
                pin,
                phase: Phase::Idle,
                round_chunks: 0,
                queue: Vec::new(),
                skew: Vec::new(),
            };
            let ghost cv = c@;
            assert(cv.queue =~= Seq::empty());
            assert(cv.skew =~= Seq::empty());
            self.peers.push(c);
            assert(self@.peers =~= e.peers.push(cv));
            Some(self.kick(i, connected))
        }
    }

    /// Start a round with every peer of the configuration that has nothing under way.
    pub fn kick_all(&mut self, cfg: &Config, connected: &Vec<Vec<u8>>) -> (l: Vec<Action>)
        ensures
            ({
                let want = kick_all(old(self)@, config::peer_views(cfg.peers@), id_set(connected@));
                final(self)@ == want.engine && action_views(l@) == want.actions
            }),
    {
        let ghost all = config::peer_views(cfg.peers@);
        let ghost ids = id_set(connected@);
        let ghost start = self@;
        self.round_applied = 0;
        let mut out: Vec<Action> = Vec::new();
        let mut i: usize = 0;
        proof {
            assert(all.take(0) =~= Seq::empty());
            assert(action_views(out@) =~= Seq::empty());
        }
        while i < cfg.peers.len()
            invariant
                i <= cfg.peers@.len(),
                all == config::peer_views(cfg.peers@),
                ids == id_set(connected@),
                self@ == kick_all(start, all.take(i as int), ids).engine,
                action_views(out@) == kick_all(start, all.take(i as int), ids).actions,
            decreases cfg.peers@.len() - i,
        {
            let ghost had = action_views(out@);
            proof {
                assert(all.take(i + 1).drop_last() =~= all.take(i as int));
                assert(all.take(i + 1).last() == all[i as int]);
            }
            match self.kick_one(&cfg.peers[i], connected) {
                Some(a) => {
                    let ghost av = a@;
                    out.push(a);
                    assert(action_views(out@) =~= had + seq![av]);
                },
                None => {
                    assert(had + Seq::<ActionV>::empty() =~= had);
                    assert(kick_one(kick_all(start, all.take(i as int), ids).engine, all[i as int], ids).actions
                        =~= Seq::empty());
                },
            }
            i += 1;
        }
        assert(all.take(i as int) =~= all);
        out
    }
}

// ---------- connections ----------

/// The peer that a new connection belongs to: the one whose address was dialed, else the
/// one its id is bound to, else the first that waits without an id.
pub open spec fn connection_of(e: EngineV, pid: Seq<u8>, addr: Seq<char>) -> int {
    let d = dial_at(e.dials, addr, 0);
    if d < e.dials.len() {
        named_at(e.peers, e.dials[d].1, 0)
    } else if bound_at(e.peers, pid, 0) < e.peers.len() {
        bound_at(e.peers, pid, 0)
    } else {
        waiting_at(e.peers, 0)
    }
}

/// A dial went through: the connection's id is bound to the peer, and hello is said.
pub open spec fn connected(e: EngineV, pid: Seq<u8>, addr: Seq<char>) -> Moved {
    let i = connection_of(e, pid, addr);
    let f = EngineV { dials: undialed(e.dials, addr), ..e };
    if i < 0 || i >= e.peers.len() {
        quiet(f)
    } else {
        let c = CtxV { pid: Some(pid), ..e.peers[i] };
        if c.phase is WaitingDial {
            Moved {
                engine: with_ctx(f, i, CtxV { phase: PhaseV::AwaitingHello, ..c }),
                actions: seq![ActionV::SendHello { pid }],
            }
        } else {
            quiet(with_ctx(f, i, c))
        }
    }
}

/// Whatever was under way with the peer of an id is over.
pub open spec fn set_idle(e: EngineV, pid: Seq<u8>) -> EngineV {
    let i = bound_at(e.peers, pid, 0);
    if i < e.peers.len() {
        with_phase(e, i, PhaseV::Idle)
    } else {
        e
    }
}

/// A connection closed: a peer that waited for it waits no longer.
pub open spec fn closed(e: EngineV, pid: Seq<u8>) -> EngineV {
    let i = bound_at(e.peers, pid, 0);
    if i < e.peers.len() && e.peers[i].phase is WaitingDial {
        with_phase(e, i, PhaseV::Idle)
    } else {
        e
    }
}

/// A peer that waits no longer.
pub open spec fn unwaiting(c: CtxV) -> CtxV {
    if c.phase is WaitingDial {
        CtxV { phase: PhaseV::Idle, ..c }
    } else {
        c
    }
}

/// A dial failed: no peer is left waiting for it.
pub open spec fn dial_failed(e: EngineV, pid: Option<Seq<u8>>) -> EngineV {
    match pid {
        Some(p) => set_idle(e, p),
        None => EngineV {
            peers: Seq::new(e.peers.len(), |i: int| unwaiting(e.peers[i])),
            dials: Seq::empty(),
            ..e
        },
    }
}

impl SyncEngine {
    /// A connection that this node dialed is there.
    pub fn on_connected(&mut self, pid: &[u8], addr: &str) -> (a: Option<Action>)
        ensures
            ({
                let want = connected(old(self)@, pid@, addr@);
                &&& final(self)@ == want.engine
                &&& match a {
                    Some(x) => want.actions == seq![x@],
                    None => want.actions.len() == 0,
                }
            }),
    {
        let ghost e = self@;
        proof {
            lemma_dial(e.dials, addr@, 0);
            lemma_places(e.peers, Seq::empty(), pid@, 0);
        }
        let d: usize = self.find_dial(addr);
        let i: usize = if d < self.dials.len() {
            proof {
                assert(e.dials[d as int] == (self.dials@[d as int].0@, self.dials@[d as int].1@));
                lemma_places(e.peers, e.dials[d as int].1, pid@, 0);
            }
            self.find_name(self.dials[d].1.as_str())
        } else {
            let b: usize = self.find_pid(pid);
            if b < self.peers.len() {
                b
            } else {
                self.find_waiting()
            }
        };
        self.forget_dials(addr);
        if i >= self.peers.len() {
            return None;
        }
        let waits = matches!(self.peers[i].phase, Phase::WaitingDial);
        self.peers[i].pid = Some(slice_to_vec(pid));
        assert(self@.peers =~= e.peers.update(i as int, CtxV { pid: Some(pid@), ..e.peers[i as int] }));
        if waits {
            self.set_phase(i, Phase::AwaitingHello);
            assert(self@.peers =~= connected(e, pid@, addr@).engine.peers);
            Some(Action::SendHello { pid: slice_to_vec(pid) })
        } else {
            None
        }
    }

    /// A connection closed.
    pub fn on_closed(&mut self, pid: &[u8])
        ensures
            final(self)@ == closed(old(self)@, pid@),
    {
        let i: usize = self.find_pid(pid);
        proof {
            lemma_places(self@.peers, Seq::empty(), pid@, 0);
        }
        if i < self.peers.len() {
            assert(self@.peers[i as int] == self.peers@[i as int]@);
            if matches!(self.peers[i].phase, Phase::WaitingDial) {
                self.set_phase(i, Phase::Idle);
            }
        }
    }

    /// A request to a peer failed or was denied: the round is over.
    pub fn on_failure(&mut self, pid: &[u8])
        ensures
            final(self)@ == set_idle(old(self)@, pid@),
    {
        let i: usize = self.find_pid(pid);
        proof {
            lemma_places(self@.peers, Seq::empty(), pid@, 0);
        }
        if i < self.peers.len() {
            self.set_phase(i, Phase::Idle);
        }
    }

    /// A dial failed, of a peer by its id or of an address.
    pub fn on_dial_error(&mut self, pid: Option<&[u8]>)
        ensures
            final(self)@ == dial_failed(
                old(self)@,
                match pid {
                    Some(b) => Some(b@),
                    None => None,
                },
            ),
    {
        match pid {
            Some(b) => self.on_failure(b),
            None => {
                let ghost e = self@;
                self.dials = Vec::new();
                assert(self@.dials =~= Seq::empty());
                let mut i: usize = 0;
                while i < self.peers.len()
                    invariant
                        i <= self.peers@.len(),
                        self.peers@.len() == e.peers.len(),
                        self@.dials == Seq::<(Seq<char>, Seq<char>)>::empty(),
                        self@.round_applied == e.round_applied,
                        forall|j: int| 0 <= j < i ==> (#[trigger] self@.peers[j]) == unwaiting(e.peers[j]),
                        forall|j: int| i <= j < e.peers.len() ==> (#[trigger] self@.peers[j]) == e.peers[j],
                    decreases self.peers@.len() - i,
                {
                    assert(self@.peers[i as int] == self.peers@[i as int]@);
                    if matches!(self.peers[i].phase, Phase::WaitingDial) {
                        self.set_phase(i, Phase::Idle);
                        assert(self@.peers.len() == self.peers@.len());
                    }
                    i += 1;
                }
                assert(self@.peers =~= dial_failed(e, None).peers);
            },
        }
    }

    /// The configuration with a peer's new pin could not be brought to disk: the peer is
    /// not used in this round.
    pub fn on_pin_unsaved(&mut self, name: &str)
        ensures
            final(self)@ == (if named_at(old(self)@.peers, name@, 0) < old(self)@.peers.len() {
                with_phase(old(self)@, named_at(old(self)@.peers, name@, 0), PhaseV::Bad("pin persist failed"@))
            } else {
                old(self)@
            }),
    {
        let i: usize = self.find_name(name);
        proof {
            lemma_places(self@.peers, name@, Seq::empty(), 0);
        }
        if i < self.peers.len() {
            self.set_phase(i, Phase::Bad(text::copy_text("pin persist failed")));
        }
    }
}

// ---------- clocks of peers ----------

/// Where a sample goes among ascending ones: behind those that are not greater.
pub open spec fn rank(s: Seq<i64>, x: i64) -> int
    decreases s.len(),
{
    if s.len() == 0 {
        0
    } else if s.last() > x {
        rank(s.drop_last(), x)
    } else {
        s.len() as int
    }
}

/// Samples in ascending order.
pub open spec fn ordered(s: Seq<i64>) -> Seq<i64>
    decreases s.len(),
{
    if s.len() == 0 {
        Seq::empty()
    } else {
        let before = ordered(s.drop_last());
        before.insert(rank(before, s.last()), s.last())
    }
}

/// The one in the middle.
pub open spec fn median(s: Seq<i64>) -> i64 {
    ordered(s)[s.len() as int / 2]
}

/// How far a peer's clock is ahead of the wall clock here, as far as that can be said.
pub open spec fn skew_sample(clock: u64, now_ms: u64) -> i64 {
    let d = clock / hlc::COUNTER_RANGE - now_ms;
    if d < i64::MIN {
        i64::MIN
    } else {
        d as i64
    }
}

/// The last samples with one more.
pub open spec fn sampled(s: Seq<i64>, x: i64) -> Seq<i64> {
    (if s.len() >= SKEW_SAMPLES {
        s.skip(1)
    } else {
        s
    }).push(x)
}

proof fn lemma_ordered_len(s: Seq<i64>)
    ensures
        ordered(s).len() == s.len(),
    decreases s.len(),
{
    if s.len() > 0 {
        lemma_ordered_len(s.drop_last());
        lemma_rank(ordered(s.drop_last()), s.last());
    }
}

proof fn lemma_rank(s: Seq<i64>, x: i64)
    ensures
        0 <= rank(s, x) <= s.len(),
    decreases s.len(),
{
    if s.len() > 0 && s.last() > x {
        lemma_rank(s.drop_last(), x);
    }
}

fn rank_of(s: &Vec<i64>, x: i64) -> (r: usize)
    ensures
        r == rank(s@, x),
        r <= s@.len(),
{
    let mut n: usize = s.len();
    assert(s@.take(n as int) =~= s@);
    while n > 0 && s[n - 1] > x
        invariant
            n <= s@.len(),
            rank(s@, x) == rank(s@.take(n as int), x),
        decreases n,
    {
        assert(s@.take(n as int).drop_last() =~= s@.take(n - 1));
        n -= 1;
    }
    n
}

fn median_of(s: &Vec<i64>) -> (r: i64)
    requires
        s@.len() > 0,
    ensures
        r == median(s@),
{
    let mut v: Vec<i64> = Vec::new();
    let mut i: usize = 0;
    assert(s@.take(0) =~= Seq::empty());
    while i < s.len()
        invariant
            i <= s@.len(),
            v@ == ordered(s@.take(i as int)),
        decreases s@.len() - i,
    {
        assert(s@.take(i + 1).drop_last() =~= s@.take(i as int));
        let x: i64 = s[i];
        let k: usize = rank_of(&v, x);
        v.insert(k, x);
        i += 1;
    }
    proof {
        assert(s@.take(i as int) =~= s@);
        lemma_ordered_len(s@);
    }
    v[v.len() / 2]
}

fn sample_of(clock: u64, now_ms: u64) -> (r: i64)
    ensures
        r == skew_sample(clock, now_ms),
{
    let d: i128 = (clock / hlc::COUNTER_RANGE) as i128 - now_ms as i128;
    if d < i64::MIN as i128 {
        i64::MIN
    } else {
        d as i64
    }
}

// ---------- hello ----------

/// The number of records that a node has of a namespace.
pub open spec fn local_seq(s: StoreV, n: Seq<char>) -> int {
    if s.has(n) {
        s.space(n).log.records.len() as int
    } else {
        0
    }
}

/// The pulls that a peer's word calls for: of the namespaces that both have, those where
/// the peer is ahead, each no further than a round may go.
pub open spec fn pulls_for(s: StoreV, heads: Seq<NsHeadV>) -> Seq<(Seq<char>, u64)>
    decreases heads.len(),
{
    if heads.len() == 0 {
        Seq::empty()
    } else {
        let before = pulls_for(s, heads.drop_last());
        let h = heads.last();
        if s.has(h.ns) && local_seq(s, h.ns) < h.seq {
            before.push((h.ns, target_of(local_seq(s, h.ns), h.seq)))
        } else {
            before
        }
    }
}

/// How far a pull goes in this round.
pub open spec fn target_of(local: int, seq: u64) -> u64 {
    if seq > local + MAX_LEAD {
        (local + MAX_LEAD) as u64
    } else {
        seq
    }
}

/// The number of the next record to be pulled.
pub open spec fn next_from(s: StoreV, n: Seq<char>) -> u64 {
    log::cap64(local_seq(s, n) + 1) as u64
}

/// Pull a namespace from a peer.
pub open spec fn pulling(e: EngineV, i: int, s: StoreV, pid: Seq<u8>, pull: (Seq<char>, u64)) -> Moved {
    Moved {
        engine: with_phase(e, i, PhaseV::Pulling { ns: pull.0, target: pull.1 }),
        actions: seq![ActionV::SendPull { pid, ns: pull.0, from_seq: next_from(s, pull.0) }],
    }
}

/// The engine, the store and the configuration after an event, and what is to be done.
pub struct Turn {
    pub engine: EngineV,
    pub store: StoreV,
    pub peers: Seq<PeerV>,
    pub actions: Seq<ActionV>,
}

/// Why a hello is not believed.
pub open spec fn hello_fault(c: CtxV, pid: Seq<u8>, host_id: Seq<char>) -> Option<Seq<char>> {
    let key = hexes::hex_bytes(host_id);
    if !ident::is_key_text(host_id) {
        Some("bad host_id"@)
    } else {
        match c.pin {
            None => if serve::peer_id_bytes(key) != Some(pid) {
                Some("host_id/connection mismatch"@)
            } else {
                None
            },
            Some(k) => if k != key {
                Some("pin mismatch"@)
            } else {
                None
            },
        }
    }
}

/// The configuration with a peer's pin.
pub open spec fn pinned(ps: Seq<PeerV>, name: Seq<char>, key: Seq<u8>) -> Seq<PeerV> {
    let i = config::place_of(ps, name, 0);
    if i < ps.len() {
        ps.update(i, PeerV { pin: hexes::hex_text(key), ..ps[i] })
    } else {
        ps
    }
}

/// A hello that is believed: its key is pinned where there was no pin, its clock is
/// noted, and the first pull goes out.
pub open spec fn welcomed(e: EngineV, i: int, s: StoreV, ps: Seq<PeerV>, pid: Seq<u8>, h: HelloV, now_ms: u64) -> Turn {
    let c = e.peers[i];
    let key = hexes::hex_bytes(h.host_id);
    let fresh = c.pin is None;
    let skew = sampled(c.skew, skew_sample(h.hlc, now_ms));
    let known = CtxV { pin: Some(key), skew, ..c };
    let t = StoreV { clocks: s.clocks.insert(text::utf8(c.name), median(skew)), ..s };
    let saves = if fresh {
        seq![ActionV::SavePin { name: c.name }]
    } else {
        Seq::empty()
    };
    let peers = if fresh {
        pinned(ps, c.name, key)
    } else {
        ps
    };
    let pulls = pulls_for(t, h.namespaces);
    if pulls.len() == 0 {
        Turn {
            engine: with_ctx(e, i, CtxV { phase: PhaseV::Done, ..known }),
            store: t,
            peers,
            actions: saves,
        }
    } else {
        let f = with_ctx(e, i, CtxV { queue: pulls.skip(1), ..known });
        let m = pulling(f, i, t, pid, pulls[0]);
        Turn { engine: m.engine, store: t, peers, actions: saves + m.actions }
    }
}

/// A peer said hello.
pub open spec fn hello_turn(e: EngineV, s: StoreV, ps: Seq<PeerV>, pid: Seq<u8>, h: HelloV, now_ms: u64) -> Turn {
    let i = bound_at(e.peers, pid, 0);
    if i >= e.peers.len() {
        Turn { engine: e, store: s, peers: ps, actions: Seq::empty() }
    } else {
        match hello_fault(e.peers[i], pid, h.host_id) {
            Some(m) => Turn {
                engine: with_phase(e, i, PhaseV::Bad(m)),
                store: s,
                peers: ps,
                actions: Seq::empty(),
            },
            None => welcomed(e, i, s, ps, pid, h, now_ms),
        }
    }
}

fn list_pulls(store: &Store, heads: &Vec<NsHead>) -> (r: Vec<(String, u64)>)
    requires
        store.wf(),
    ensures
        queue_views(r@) == pulls_for(store@, wire::head_views(heads@)),
{
    let ghost all = wire::head_views(heads@);
    let mut out: Vec<(String, u64)> = Vec::new();
    let mut i: usize = 0;
    proof {
        assert(all.take(0) =~= Seq::empty());
        assert(queue_views(out@) =~= Seq::empty());
    }
    while i < heads.len()
        invariant
            i <= heads@.len(),
            store.wf(),
            all == wire::head_views(heads@),
            queue_views(out@) == pulls_for(store@, all.take(i as int)),
        decreases heads@.len() - i,
    {
        let ghost had = queue_views(out@);
        proof {
            assert(all.take(i + 1).drop_last() =~= all.take(i as int));
            assert(all.take(i + 1).last() == all[i as int]);
        }
        let h = &heads[i];
        match store.head(h.ns.as_str()) {
            None => {},
            Some((local, _)) => {
                if local < h.seq {
                    let target: u64 = if h.seq - local > MAX_LEAD {
                        local + MAX_LEAD
                    } else {
                        h.seq
                    };
                    out.push((text::copy_text(h.ns.as_str()), target));
                    assert(queue_views(out@) =~= had.push((h.ns@, target)));
                }
            },
        }
        i += 1;
    }
    assert(all.take(i as int) =~= all);
    out
}

/// The number of the next record to be pulled.
fn pull_from(store: &Store, n: &str) -> (r: u64)
    requires
        store.wf(),
    ensures
        r == next_from(store@, n@),
{
    match store.head(n) {
        Some((s, _)) => s.saturating_add(1),
        None => 1,
    }
}

/// Why a hello is not believed; else the key it is from.
fn judge_hello(c: &PeerCtx, pid: &[u8], host_id: &str) -> (r: Result<PublicKey, String>)
    ensures
        match hello_fault(c@, pid@, host_id@) {
            Some(m) => r matches Err(e) && e@ == m,
            None => r matches Ok(k) && k@ == hexes::hex_bytes(host_id@),
        },
{
    let key = match PublicKey::from_hex(host_id) {
        Err(_) => {
            return Err(text::copy_text("bad host_id"));
        },
        Ok(k) => k,
    };
    match &c.pin {
        Some(k) => {
            if !k.same(&key) {
                return Err(text::copy_text("pin mismatch"));
            }
        },
        None => {
            let agrees = match peer_id_of(&key) {
                Some(b) => same_bytes(b.as_slice(), pid),
                None => false,
            };
            if !agrees {
                return Err(text::copy_text("host_id/connection mismatch"));
            }
        },
    }
    Ok(key)
}

/// Pin a peer of the configuration to a key.
fn pin_peer(cfg: &mut Config, name: &str, key: &PublicKey)
    ensures
        final(cfg).node == old(cfg).node,
        config::peer_views(final(cfg).peers@) == pinned(config::peer_views(old(cfg).peers@), name@, key@),
{
    let ghost was = config::peer_views(cfg.peers@);
    let ghost i = config::place_of(was, name@, 0);
    let hex = key.to_hex();
    let ghost hv = hex@;
    proof {
        serve::lemma_place_bounds(was, name@, 0);
    }
    match cfg.peer_mut(name) {
        Some(p) => {
            p.pin = hex;
        },
        None => {},
    }
    proof {
        if i < was.len() {
            assert(config::peer_views(cfg.peers@) =~= was.update(i, PeerV { pin: hv, ..was[i] }));
        }
    }
}

impl SyncEngine {
    /// Note a sample of a peer's clock and its key; the median of the samples comes back.
    fn note_peer(&mut self, i: usize, key: PublicKey, clock: u64, now_ms: u64) -> (m: i64)
        requires
            i < old(self)@.peers.len(),
        ensures
            ({
                let c = old(self)@.peers[i as int];
                let skew = sampled(c.skew, skew_sample(clock, now_ms));
                &&& final(self)@ == with_ctx(old(self)@, i as int, CtxV { pin: Some(key@), skew, ..c })
                &&& m == median(skew)
            }),
    {
        let ghost e = self@;
        let mut skew: Vec<i64> = self.peers[i].skew.clone();
        assert(skew@ =~= e.peers[i as int].skew);
        if skew.len() >= SKEW_SAMPLES {
            skew.remove(0);
            assert(skew@ =~= e.peers[i as int].skew.skip(1));
        }
        skew.push(sample_of(clock, now_ms));
        let m: i64 = median_of(&skew);
        self.peers[i].skew = skew;
        self.peers[i].pin = Some(key);
        assert(self@.peers =~= e.peers.update(
            i as int,
            CtxV { pin: Some(key@), skew: skew@, ..e.peers[i as int] },
        ));
        m
    }

    /// Pull a namespace from a peer.
    fn start_pull(&mut self, i: usize, store: &Store, pid: &[u8], n: String, target: u64) -> (a: Action)
        requires
            store.wf(),
            i < old(self)@.peers.len(),
        ensures
            ({
                let want = pulling(old(self)@, i as int, store@, pid@, (n@, target));
                final(self)@ == want.engine && seq![a@] == want.actions
            }),
    {
        let from: u64 = pull_from(store, n.as_str());
        let copy = text::copy_text(n.as_str());
        self.set_phase(i, Phase::Pulling { ns: n, target });
        Action::SendPull { pid: slice_to_vec(pid), ns: copy, from_seq: from }
    }

    /// A peer said hello: pin it, note its clock, and pull where it is ahead.
    pub fn on_hello(&mut self, store: &mut Store, cfg: &mut Config, pid: &[u8], resp: &HelloResponse, now_ms: u64) -> (l: Vec<
        Action,
    >)
        requires
            old(store).wf(),
        ensures
            final(store).wf(),
            final(store).is_durable() == old(store).is_durable(),
            final(cfg).node == old(cfg).node,
            ({
                let want = hello_turn(
                    old(self)@,
                    old(store)@,
                    config::peer_views(old(cfg).peers@),
                    pid@,
                    resp@,
                    now_ms,
                );
                &&& final(self)@ == want.engine
                &&& final(store)@ == want.store
                &&& config::peer_views(final(cfg).peers@) == want.peers
                &&& action_views(l@) == want.actions
            }),
    {
        let ghost e = self@;
        let mut out: Vec<Action> = Vec::new();
        assert(action_views(out@) =~= Seq::empty());
        let i: usize = self.find_pid(pid);
        proof {
            lemma_places(e.peers, Seq::empty(), pid@, 0);
        }
        if i >= self.peers.len() {
            return out;
        }
        assert(e.peers[i as int] == self.peers@[i as int]@);
        let key = match judge_hello(&self.peers[i], pid, resp.host_id.as_str()) {
            Err(m) => {
                self.set_phase(i, Phase::Bad(m));
                return out;
            },
            Ok(k) => k,
        };
        let name = text::copy_text(self.peers[i].name.as_str());
        let fresh = self.peers[i].pin.is_none();
        if fresh {
            pin_peer(cfg, name.as_str(), &key);
            out.push(Action::SavePin { name: text::copy_text(name.as_str()) });
            assert(action_views(out@) =~= seq![ActionV::SavePin { name: name@ }]);
        }
        let ghost saves = action_views(out@);
        let m: i64 = self.note_peer(i, key, resp.hlc, now_ms);
        store.set_peer_clock(name.as_str(), m);
        let mut pulls = list_pulls(store, &resp.namespaces);
        let ghost want = pulls_for(store@, wire::head_views(resp.namespaces@));
        assert(want.len() == pulls@.len());
        let ghost known = self@;
        if pulls.len() == 0 {
            self.set_phase(i, Phase::Done);
            assert(self@.peers =~= welcomed(
                e,
                i as int,
                old(store)@,
                config::peer_views(old(cfg).peers@),
                pid@,
                resp@,
                now_ms,
            ).engine.peers);
            return out;
        }
        assert(known.peers.len() == self.peers@.len());
        let (n, target) = pulls.remove(0);
        proof {
            assert(queue_views(pulls@) =~= want.skip(1));
            assert(want[0] == (n@, target));
        }
        self.peers[i].queue = pulls;
        assert(self@.peers =~= known.peers.update(
            i as int,
            CtxV { queue: want.skip(1), ..known.peers[i as int] },
        ));
        let a = self.start_pull(i, store, pid, n, target);
        let ghost av = a@;
        out.push(a);
        proof {
            assert(action_views(out@) =~= saves + seq![av]);
            assert(self@.peers =~= welcomed(
                e,
                i as int,
                old(store)@,
                config::peer_views(old(cfg).peers@),
                pid@,
                resp@,
                now_ms,
            ).engine.peers);
        }
        out
    }
}

// ---------- records ----------

/// May a peer write to a namespace?
pub open spec fn may_write(ps: Seq<PeerV>, name: Seq<char>, n: Seq<char>) -> bool {
    let i = config::place_of(ps, name, 0);
    i < ps.len() && ps[i].namespaces is Some ==> ps[i].namespaces->0.contains(n)
}

/// The bytes of some records in Base64; none where one cannot be read.
pub open spec fn decoded(l: Seq<RecV>) -> Option<Seq<(u64, Seq<u8>)>>
    decreases l.len(),
{
    if l.len() == 0 {
        Some(Seq::empty())
    } else {
        match (decoded(l.drop_last()), util::b64_bytes(false, util::unpadded(text::utf8(l.last().payload_b64)))) {
            (Some(before), Ok(b)) => Some(before.push((l.last().seq, b))),
            _ => None,
        }
    }
}

/// Is a snapshot due after some records?
pub open spec fn snapshot_due(round_applied: u64, n: int) -> bool {
    round_applied > 0 && round_applied % CHECKPOINT_EVERY <= n
}

/// What comes after records were taken in: the rest of the namespace, the next one, or
/// the end of the round. A round without progress is over, and so is one that took its
/// share.
pub open spec fn onward(e: EngineV, i: int, s: StoreV, pid: Seq<u8>, n: Seq<char>, target: u64, applied: int) -> Moved {
    let c = e.peers[i];
    let chunks = log::cap64(c.round_chunks + 1) as u64;
    let f = with_ctx(e, i, CtxV { round_chunks: chunks, ..c });
    if applied == 0 {
        quiet(with_phase(e, i, PhaseV::Done))
    } else if chunks >= MAX_CHUNKS_PER_TICK {
        quiet(with_phase(f, i, PhaseV::Done))
    } else if local_seq(s, n) < target {
        pulling(f, i, s, pid, (n, target))
    } else if c.queue.len() == 0 {
        quiet(with_phase(f, i, PhaseV::Done))
    } else {
        let g = with_ctx(f, i, CtxV { round_chunks: chunks, queue: c.queue.skip(1), ..c });
        pulling(g, i, s, pid, c.queue[0])
    }
}

/// Take in records that were checked.
pub open spec fn taken_in(e: EngineV, i: int, s: StoreV, ps: Seq<PeerV>, pid: Seq<u8>, n: Seq<char>, target: u64, rs: Seq<RecordV>) -> Turn {
    let step = s.sync_all(n, rs);
    match step.result {
        Err(_) => Turn {
            engine: with_phase(e, i, PhaseV::Idle),
            store: step.store,
            peers: ps,
            actions: Seq::empty(),
        },
        Ok(applied) => {
            let total = log::cap64(e.round_applied + applied) as u64;
            let f = EngineV { round_applied: total, ..e };
            let t = if snapshot_due(total, rs.len() as int) {
                disk::checkpointed(step.store).store
            } else {
                step.store
            };
            let m = onward(f, i, t, pid, n, target, applied);
            Turn {
                engine: m.engine,
                store: t,
                peers: ps,
                actions: seq![ActionV::Notify { ns: n }] + m.actions,
            }
        },
    }
}

/// Records came from a peer. They are taken in where they were asked for, the peer may
/// write to the namespace, and all of them are sound.
pub open spec fn records_turn(e: EngineV, s: StoreV, ps: Seq<PeerV>, pid: Seq<u8>, r: RecordsV) -> Turn {
    let i = bound_at(e.peers, pid, 0);
    let still = Turn { engine: e, store: s, peers: ps, actions: Seq::empty() };
    if i >= e.peers.len() {
        still
    } else {
        match e.peers[i].phase {
            PhaseV::Pulling { ns, target } => if r.ns != ns {
                Turn { engine: with_phase(e, i, PhaseV::Idle), ..still }
            } else if !may_write(ps, e.peers[i].name, ns) {
                Turn { engine: with_phase(e, i, PhaseV::Done), ..still }
            } else {
                match decoded(r.records) {
                    None => Turn { engine: with_phase(e, i, PhaseV::Idle), ..still },
                    Some(batch) => if merge::checked(batch).fault is Some {
                        Turn { engine: with_phase(e, i, PhaseV::Done), ..still }
                    } else {
                        taken_in(e, i, s, ps, pid, ns, target, merge::checked(batch).records)
                    },
                }
            },
            _ => still,
        }
    }
}

/// Is a text in a list?
fn lists(l: &Vec<String>, s: &str) -> (r: bool)
    ensures
        r == json::texts(l@).contains(s@),
{
    let ghost all = json::texts(l@);
    let mut i: usize = 0;
    while i < l.len()
        invariant
            i <= l@.len(),
            all == json::texts(l@),
            forall|j: int| 0 <= j < i ==> all[j] != s@,
        decreases l@.len() - i,
    {
        assert(all[i as int] == l@[i as int]@);
        if text::same_text(l[i].as_str(), s) {
            return true;
        }
        i += 1;
    }
    false
}

/// May a peer write to a namespace?
fn allowed(cfg: &Config, name: &str, n: &str) -> (r: bool)
    ensures
        r == may_write(config::peer_views(cfg.peers@), name@, n@),
{
    let ghost ps = config::peer_views(cfg.peers@);
    let ghost i = config::place_of(ps, name@, 0);
    proof {
        serve::lemma_place_bounds(ps, name@, 0);
    }
    match cfg.peer(name) {
        None => true,
        Some(p) => {
            assert(ps[i] == p@);
            match &p.namespaces {
                None => true,
                Some(l) => lists(l, n),
            }
        },
    }
}

/// The bytes of some records in Base64; none where one cannot be read.
fn decode_all(l: &Vec<Rec>) -> (r: Option<Vec<(u64, Vec<u8>)>>)
    ensures
        match decoded(wire::rec_views(l@)) {
            None => r is None,
            Some(b) => r matches Some(v) && merge::numbered(v@) == b,
        },
{
    let ghost all = wire::rec_views(l@);
    let mut out: Vec<(u64, Vec<u8>)> = Vec::new();
    let mut i: usize = 0;
    proof {
        assert(all.take(0) =~= Seq::empty());
        assert(merge::numbered(out@) =~= Seq::empty());
    }
    while i < l.len()
        invariant
            i <= l@.len(),
            all == wire::rec_views(l@),
            decoded(all.take(i as int)) == Some(merge::numbered(out@)),
        decreases l@.len() - i,
    {
        let ghost had = merge::numbered(out@);
        proof {
            assert(all.take(i + 1).drop_last() =~= all.take(i as int));
            assert(all.take(i + 1).last() == l@[i as int]@);
        }
        match util::b64_decode(l[i].payload_b64.as_str()) {
            Err(_) => {
                proof {
                    lemma_undecoded(all, i + 1);
                }
                return None;
            },
            Ok(b) => {
                let ghost bytes = b@;
                out.push((l[i].seq, b));
                assert(merge::numbered(out@) =~= had.push((l@[i as int].seq, bytes)));
            },
        }
        i += 1;
    }
    assert(all.take(i as int) =~= all);
    Some(out)
}

proof fn lemma_undecoded(l: Seq<RecV>, i: int)
    requires
        0 <= i <= l.len(),
        decoded(l.take(i)) is None,
    ensures
        decoded(l) is None,
    decreases l.len() - i,
{
    if i == l.len() {
        assert(l.take(i) =~= l);
    } else {
        assert(l.take(i + 1).drop_last() =~= l.take(i));
        lemma_undecoded(l, i + 1);
    }
}

impl SyncEngine {
    /// Go on after records were taken in.
    fn go_on(&mut self, i: usize, store: &Store, pid: &[u8], n: String, target: u64, applied: u64) -> (l: Vec<Action>)
        requires
            store.wf(),
            i < old(self)@.peers.len(),
        ensures
            ({
                let want = onward(old(self)@, i as int, store@, pid@, n@, target, applied as int);
                final(self)@ == want.engine && action_views(l@) == want.actions
            }),
    {
        let ghost e = self@;
        let ghost c = e.peers[i as int];
        let mut out: Vec<Action> = Vec::new();
        assert(action_views(out@) =~= Seq::empty());
        assert(self.peers@.len() == e.peers.len());
        if applied == 0 {
            self.set_phase(i, Phase::Done);
            return out;
        }
        let chunks: u64 = self.peers[i].round_chunks.saturating_add(1);
        self.peers[i].round_chunks = chunks;
        let ghost f = self@;
        assert(f.peers =~= e.peers.update(i as int, CtxV { round_chunks: chunks, ..c }));
        if chunks >= MAX_CHUNKS_PER_TICK {
            self.set_phase(i, Phase::Done);
            return out;
        }
        let local: u64 = match store.head(n.as_str()) {
            Some((s, _)) => s,
            None => 0,
        };
        if local < target {
            let a = self.start_pull(i, store, pid, n, target);
            let ghost av = a@;
            out.push(a);
            assert(action_views(out@) =~= seq![av]);
            return out;
        }
        assert(c.queue == queue_views(self.peers@[i as int].queue@));
        if self.peers[i].queue.len() == 0 {
            self.set_phase(i, Phase::Done);
            return out;
        }
        let mut queue: Vec<(String, u64)> = Vec::new();
        std::mem::swap(&mut queue, &mut self.peers[i].queue);
        let (next, goal) = queue.remove(0);
        assert(queue_views(queue@) =~= c.queue.skip(1));
        self.peers[i].queue = queue;
        assert(self@.peers =~= f.peers.update(
            i as int,
            CtxV { round_chunks: chunks, queue: c.queue.skip(1), ..c },
        ));
        let a = self.start_pull(i, store, pid, next, goal);
        let ghost av = a@;
        out.push(a);
        assert(action_views(out@) =~= seq![av]);
        out
    }

    /// Take in records that were checked.
    fn take_records(&mut self, i: usize, store: &mut Store, pid: &[u8], n: String, target: u64, batch: &Vec<Record>) -> (l: Vec<
        Action,
    >)
        requires
            old(store).wf(),
            i < old(self)@.peers.len(),
        ensures
            final(store).wf(),
            final(store).is_durable() == old(store).is_durable(),
            ({
                let want = taken_in(
                    old(self)@,
                    i as int,
                    old(store)@,
                    Seq::empty(),
                    pid@,
                    n@,
                    target,
                    log::record_views(batch@),
                );
                &&& final(self)@ == want.engine
                &&& final(store)@ == want.store
                &&& action_views(l@) == want.actions
            }),
    {
        let applied: u64 = match store.apply_synced_batch(n.as_str(), batch) {
            Err(_) => {
                self.set_phase(i, Phase::Idle);
                let none: Vec<Action> = Vec::new();
                assert(action_views(none@) =~= Seq::empty());
                return none;
            },
            Ok(k) => k,
        };
        self.round_applied = self.round_applied.saturating_add(applied);
        if self.round_applied > 0 && self.round_applied % CHECKPOINT_EVERY <= batch.len() as u64 {
            let _ = store.checkpoint();
        }
        let mut out: Vec<Action> = Vec::new();
        out.push(Action::Notify { ns: text::copy_text(n.as_str()) });
        let ghost nv = n@;
        let mut rest = self.go_on(i, store, pid, n, target, applied);
        let ghost rv = action_views(rest@);
        out.append(&mut rest);
        assert(action_views(out@) =~= seq![ActionV::Notify { ns: nv }] + rv);
        out
    }

    /// Records came from a peer: check them, take them in, and go on.
    pub fn on_records(&mut self, store: &mut Store, cfg: &Config, pid: &[u8], recs: &Records) -> (l: Vec<Action>)
        requires
            old(store).wf(),
        ensures
            final(store).wf(),
            final(store).is_durable() == old(store).is_durable(),
            ({
                let want = records_turn(
                    old(self)@,
                    old(store)@,
                    config::peer_views(cfg.peers@),
                    pid@,
                    recs@,
                );
                &&& final(self)@ == want.engine
                &&& final(store)@ == want.store
                &&& action_views(l@) == want.actions
            }),
    {
        let ghost e = self@;
        let none: Vec<Action> = Vec::new();
        assert(action_views(none@) =~= Seq::empty());
        let i: usize = self.find_pid(pid);
        proof {
            lemma_places(e.peers, Seq::empty(), pid@, 0);
        }
        if i >= self.peers.len() {
            return none;
        }
        assert(e.peers[i as int] == self.peers@[i as int]@);
        let (n, target) = match &self.peers[i].phase {
            Phase::Pulling { ns, target } => (text::copy_text(ns.as_str()), *target),
            _ => {
                return none;
            },
        };
        if !text::same_text(recs.ns.as_str(), n.as_str()) {
            self.set_phase(i, Phase::Idle);
            return none;
        }
        if !allowed(cfg, self.peers[i].name.as_str(), n.as_str()) {
            self.set_phase(i, Phase::Done);
            return none;
        }
        let batch = match decode_all(&recs.records) {
            None => {
                self.set_phase(i, Phase::Idle);
                return none;
            },
            Some(b) => b,
        };
        match verify_batch([0u8; 32], &batch) {
            Err(_) => {
                self.set_phase(i, Phase::Done);
                none
            },
            Ok(parsed) => self.take_records(i, store, pid, n, target, &parsed),
        }
    }
}

// ---------- listening ----------

/// Where to listen: an address as it stands, or a port on all interfaces.
pub open spec fn listen_text(s: Seq<char>) -> Seq<char> {
    if s.contains('/') {
        s
    } else {
        "/ip4/0.0.0.0/tcp/"@ + s
    }
}

/// Where to listen: an address as it stands, or a port on all interfaces.
pub fn listen_addr(s: &str) -> (r: String)
    ensures
        r@ == listen_text(s@),
{
    let c = text::chars_of(s);
    let mut i: usize = 0;
    while i < c.len()
        invariant
            i <= c@.len(),
            c@ == s@,
            forall|j: int| 0 <= j < i ==> c@[j] != '/',
        decreases c@.len() - i,
    {
        if c[i] == '/' {
            return text::copy_text(s);
        }
        i += 1;
    }
    text::join2("/ip4/0.0.0.0/tcp/", s)
}

// ---------- laws ----------

/// Only the holder of the connection's key is pinned: a peer whose hello names another
/// host on first contact is not believed, and changes nothing but its own standing.
pub proof fn law_pin_needs_the_connections_key(e: EngineV, s: StoreV, ps: Seq<PeerV>, pid: Seq<u8>, h: HelloV, now_ms: u64)
    requires
        bound_at(e.peers, pid, 0) < e.peers.len(),
        e.peers[bound_at(e.peers, pid, 0)].pin is None,
        serve::peer_id_bytes(hexes::hex_bytes(h.host_id)) != Some(pid),
    ensures
        ({
            let t = hello_turn(e, s, ps, pid, h, now_ms);
            let i = bound_at(e.peers, pid, 0);
            &&& t.store == s
            &&& t.peers == ps
            &&& t.actions.len() == 0
            &&& t.engine.peers[i].pin is None
            &&& t.engine.peers[i].phase is Bad
        }),
{
    lemma_places(e.peers, Seq::empty(), pid, 0);
}

/// A pin holds: a peer that is pinned to one key and says that it is another host is
/// given up for the round, its pin stays, and nothing is pulled from it.
pub proof fn law_pin_holds(e: EngineV, s: StoreV, ps: Seq<PeerV>, pid: Seq<u8>, h: HelloV, now_ms: u64)
    requires
        bound_at(e.peers, pid, 0) < e.peers.len(),
        ({
            let pin = e.peers[bound_at(e.peers, pid, 0)].pin;
            pin is Some && pin->0 != hexes::hex_bytes(h.host_id)
        }),
    ensures
        ({
            let t = hello_turn(e, s, ps, pid, h, now_ms);
            let i = bound_at(e.peers, pid, 0);
            &&& t.store == s
            &&& t.peers == ps
            &&& t.actions.len() == 0
            &&& t.engine.peers[i].pin == e.peers[i].pin
            &&& t.engine.peers[i].phase is Bad
        }),
{
    lemma_places(e.peers, Seq::empty(), pid, 0);
}

/// A peer writes only to the namespaces that its configuration lists: records for
/// another one change no data.
pub proof fn law_unlisted_namespace_is_not_written(e: EngineV, s: StoreV, ps: Seq<PeerV>, pid: Seq<u8>, r: RecordsV)
    requires
        bound_at(e.peers, pid, 0) < e.peers.len(),
        !may_write(ps, e.peers[bound_at(e.peers, pid, 0)].name, r.ns),
    ensures
        records_turn(e, s, ps, pid, r).store == s,
        records_turn(e, s, ps, pid, r).actions.len() == 0,
{
}

/// Corruption is never introduced: where one record of a batch is unsound, none of the
/// batch is taken in.
pub proof fn law_unsound_batch_changes_no_data(e: EngineV, s: StoreV, ps: Seq<PeerV>, pid: Seq<u8>, r: RecordsV)
    requires
        decoded(r.records) is None || merge::checked(decoded(r.records)->0).fault is Some,
    ensures
        records_turn(e, s, ps, pid, r).store == s,
        records_turn(e, s, ps, pid, r).actions.len() == 0,
{
}

/// Records that nobody asked for change nothing.
pub proof fn law_unasked_records_change_nothing(e: EngineV, s: StoreV, ps: Seq<PeerV>, pid: Seq<u8>, r: RecordsV)
    requires
        ({
            let i = bound_at(e.peers, pid, 0);
            i < e.peers.len() ==> !(e.peers[i].phase is Pulling)
        }),
    ensures
        records_turn(e, s, ps, pid, r) == (Turn { engine: e, store: s, peers: ps, actions: Seq::empty() }),
{
}

/// A round comes to an end: after each answer the peer has one more of its share behind
/// it, or the round with it is over.
pub proof fn law_round_is_bounded(e: EngineV, s: StoreV, ps: Seq<PeerV>, pid: Seq<u8>, r: RecordsV)
    requires
        bound_at(e.peers, pid, 0) < e.peers.len(),
    ensures
        ({
            let i = bound_at(e.peers, pid, 0);
            let after = records_turn(e, s, ps, pid, r).engine.peers[i];
            e.peers[i].phase is Pulling && after.phase is Pulling ==> after.round_chunks
                == e.peers[i].round_chunks + 1 && after.round_chunks < MAX_CHUNKS_PER_TICK
        }),
{
    lemma_places(e.peers, Seq::empty(), pid, 0);
}

/// A peer's word is followed only so far: no pull reaches further beyond the own log
/// than a round may go, and each is for a namespace that this node has.
pub proof fn law_pulls_are_bounded(s: StoreV, heads: Seq<NsHeadV>, j: int)
    requires
        0 <= j < pulls_for(s, heads).len(),
    ensures
        ({
            let p = pulls_for(s, heads)[j];
            s.has(p.0) && local_seq(s, p.0) < p.1 <= local_seq(s, p.0) + MAX_LEAD
        }),
    decreases heads.len(),
{
    let before = pulls_for(s, heads.drop_last());
    if j < before.len() {
        law_pulls_are_bounded(s, heads.drop_last(), j);
    }
}

} // verus!
