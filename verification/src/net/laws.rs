//! What a round of replication does, from hello to the last record.

use crate::hash;
use crate::hexes;
use crate::net::engine;
use crate::net::engine::{ActionV, CtxV, EngineV, PhaseV};
use crate::net::merge;
use crate::net::serve;
use crate::net::wire::{HelloV, NsHeadV, RecV, RecordsV, SyncRequestV, SyncResponseV};
use crate::ordmap;
use crate::server::config;
use crate::server::config::PeerV;
use crate::storage::error::StorageFault;
use crate::storage::log;
use crate::storage::model;
use crate::storage::model::StoreV;
use crate::storage::record;
use crate::storage::record::RecordV;
use crate::text;
use crate::util;
use vstd::prelude::*;

verus! {

// ---------- hello ----------

/// Is the peer at place `i` the first that the connection's id belongs to?
pub open spec fn bound(ps: Seq<CtxV>, pid: Seq<u8>, i: int) -> bool {
    &&& 0 <= i < ps.len()
    &&& ps[i].pid == Some(pid)
    &&& forall|j: int| 0 <= j < i ==> (#[trigger] ps[j]).pid != Some(pid)
}

proof fn lemma_bound(ps: Seq<CtxV>, pid: Seq<u8>, i: int, from: int)
    requires
        bound(ps, pid, i),
        0 <= from <= i,
    ensures
        engine::bound_at(ps, pid, from) == i,
    decreases i - from,
{
    if from < i {
        assert(ps[from].pid != Some(pid));
        lemma_bound(ps, pid, i, from + 1);
    }
}

/// Does the peer prove, over a connection with the id `pid`, that it holds the key? It
/// is pinned to the key, or it has no pin and the id is that of the key.
pub open spec fn proves(c: CtxV, pid: Seq<u8>, key: Seq<u8>) -> bool {
    c.pin == Some(key) || (c.pin is None && serve::peer_id_bytes(key) == Some(pid))
}

/// What is pulled from a peer in its round: the namespace under way, then those that
/// wait, each with the number up to which it is pulled.
pub open spec fn round_of(c: CtxV) -> Seq<(Seq<char>, u64)> {
    match c.phase {
        PhaseV::Pulling { ns, target } => seq![(ns, target)] + c.queue,
        _ => Seq::empty(),
    }
}

/// Does the peer have more of the namespace than this node, which has it too?
pub open spec fn is_ahead(s: StoreV, h: NsHeadV) -> bool {
    s.has(h.ns) && s.space(h.ns).log.records.len() < h.seq
}

/// What is pulled of a namespace: up to the peer's last record, but no more than 64000
/// records beyond the own last one.
pub open spec fn wanted(s: StoreV, h: NsHeadV) -> (Seq<char>, u64) {
    let most = s.space(h.ns).log.records.len() + 64_000;
    (
        h.ns,
        if h.seq <= most {
            h.seq
        } else {
            most as u64
        },
    )
}

/// Does a peer's word call for the pull?
pub open spec fn called_for(s: StoreV, heads: Seq<NsHeadV>, pull: (Seq<char>, u64)) -> bool {
    exists|j: int| 0 <= j < heads.len() && is_ahead(s, #[trigger] heads[j]) && pull == wanted(s, heads[j])
}

#[verifier::rlimit(40)]
proof fn lemma_pulls(s: StoreV, heads: Seq<NsHeadV>)
    ensures
        forall|j: int|
            #![trigger heads[j]]
            0 <= j < heads.len() && is_ahead(s, heads[j]) ==> engine::pulls_for(s, heads).contains(
                wanted(s, heads[j]),
            ),
        forall|k: int|
            #![trigger engine::pulls_for(s, heads)[k]]
            0 <= k < engine::pulls_for(s, heads).len() ==> called_for(
                s,
                heads,
                engine::pulls_for(s, heads)[k],
            ),
        engine::pulls_for(s, heads).len() <= heads.len(),
    decreases heads.len(),
{
    if heads.len() > 0 {
        let front = heads.drop_last();
        lemma_pulls(s, front);
        let had = engine::pulls_for(s, front);
        let l = engine::pulls_for(s, heads);
        let last = heads[heads.len() - 1];
        assert forall|j: int| #![trigger heads[j]] 0 <= j < heads.len() && is_ahead(s, heads[j]) implies l.contains(
            wanted(s, heads[j]),
        ) by {
            let want = wanted(s, heads[j]);
            if j < front.len() {
                assert(front[j] == heads[j]);
                assert(had.contains(want));
                let x = had.index_of(want);
                assert(l[x] == want);
            } else {
                assert(l.last() == want);
                assert(l[l.len() - 1] == want);
            }
        }
        assert forall|k: int| #![trigger l[k]] 0 <= k < l.len() implies called_for(s, heads, l[k]) by {
            if k < had.len() {
                assert(l[k] == had[k]);
                let j = choose|j: int|
                    0 <= j < front.len() && is_ahead(s, #[trigger] front[j]) && had[k] == wanted(s, front[j]);
                assert(heads[j] == front[j]);
            } else {
                assert(is_ahead(s, last));
            }
        }
    }
}

/// A round takes up all that is missing: after a hello that is believed, every namespace
/// that this node has too and of which the peer has more records is pulled, up to the
/// peer's last record but no more than a bounded number beyond the own last one, and
/// nothing else is. The first pull goes out at once and asks for the record behind the
/// own last one; where nothing is missing, the round is over and nothing is asked for.
/// No data changes.
#[verifier::rlimit(40)]
pub proof fn law_round_pulls_all_that_is_missing(
    e: EngineV,
    s: StoreV,
    ps: Seq<PeerV>,
    pid: Seq<u8>,
    i: int,
    key: Seq<u8>,
    h: HelloV,
    now_ms: u64,
)
    requires
        bound(e.peers, pid, i),
        key.len() == 32,
        h.host_id == hexes::hex_text(key),
        proves(e.peers[i], pid, key),
    ensures
        ({
            let t = engine::hello_turn(e, s, ps, pid, h, now_ms);
            let c = t.engine.peers[i];
            let round = round_of(c);
            &&& t.store.spaces == s.spaces
            &&& t.store.meta == s.meta
            &&& forall|j: int|
                #![trigger h.namespaces[j]]
                0 <= j < h.namespaces.len() && is_ahead(s, h.namespaces[j]) ==> round.contains(
                    wanted(s, h.namespaces[j]),
                )
            &&& forall|k: int|
                #![trigger round[k]]
                0 <= k < round.len() ==> called_for(s, h.namespaces, round[k])
            &&& round.len() > 0 ==> t.actions.len() > 0 && t.actions.last() == (ActionV::SendPull {
                pid,
                ns: round[0].0,
                from_seq: (s.space(round[0].0).log.records.len() + 1) as u64,
            })
            &&& round.len() == 0 ==> c.phase == PhaseV::Done
            &&& forall|k: int|
                #![trigger t.actions[k]]
                0 <= k < t.actions.len() && t.actions[k] is SendPull ==> round.len() > 0 && k == t.actions.len() - 1
            &&& c.pin == Some(key) && c.pid == Some(pid) && c.name == e.peers[i].name
            &&& forall|j: int|
                #![trigger t.engine.peers[j]]
                0 <= j < e.peers.len() && j != i ==> t.engine.peers[j] == e.peers[j]
            &&& t.engine.peers.len() == e.peers.len()
        }),
{
    lemma_bound(e.peers, pid, i, 0);
    hexes::law_hex_round_trip(key);
    let c = e.peers[i];
    let skew = engine::sampled(c.skew, engine::skew_sample(h.hlc, now_ms));
    let t = StoreV { clocks: s.clocks.insert(text::utf8(c.name), engine::median(skew)), ..s };
    lemma_pulls(t, h.namespaces);
    assert forall|n: NsHeadV| #[trigger] is_ahead(t, n) == is_ahead(s, n) && wanted(t, n) == wanted(s, n) by {}
    assert forall|p: (Seq<char>, u64)| #[trigger] called_for(t, h.namespaces, p) implies called_for(s, h.namespaces, p) by {
        let j = choose|j: int|
            0 <= j < h.namespaces.len() && is_ahead(t, #[trigger] h.namespaces[j]) && p == wanted(t, h.namespaces[j]);
        assert(is_ahead(s, h.namespaces[j]));
    }
    let pulls = engine::pulls_for(t, h.namespaces);
    let turn = engine::hello_turn(e, s, ps, pid, h, now_ms);
    let round = round_of(turn.engine.peers[i]);
    if pulls.len() > 0 {
        assert(seq![pulls[0]] + pulls.skip(1) =~= pulls);
        assert(round == pulls);
        let k = 0int;
        assert(called_for(t, h.namespaces, pulls[k]));
    } else {
        assert(round =~= pulls);
    }
}

// ---------- clocks ----------

proof fn lemma_ordered(s: Seq<i64>)
    ensures
        engine::ordered(s).len() == s.len(),
        engine::ordered(s).to_multiset() == s.to_multiset(),
        forall|i: int, j: int|
            0 <= i <= j < s.len() ==> #[trigger] engine::ordered(s)[i] <= #[trigger] engine::ordered(s)[j],
    decreases s.len(),
{
    broadcast use vstd::seq_lib::group_to_multiset_ensures;

    let o = engine::ordered(s);
    if s.len() == 0 {
        assert(o =~= s);
    } else {
        let front = s.drop_last();
        let x = s.last();
        lemma_ordered(front);
        let b = engine::ordered(front);
        let r = engine::rank(b, x);
        lemma_rank_splits(b, x);
        assert(o == b.insert(r, x));
        assert(o.remove(r) =~= b);
        assert(o[r] == x);
        assert(o.contains(x));
        assert(o.to_multiset() =~= b.to_multiset().insert(x));
        assert(front.push(x) =~= s);
    }
}

proof fn lemma_rank_splits(s: Seq<i64>, x: i64)
    requires
        forall|i: int, j: int| 0 <= i <= j < s.len() ==> #[trigger] s[i] <= #[trigger] s[j],
    ensures
        0 <= engine::rank(s, x) <= s.len(),
        forall|i: int| 0 <= i < engine::rank(s, x) ==> #[trigger] s[i] <= x,
        forall|i: int| engine::rank(s, x) <= i < s.len() ==> #[trigger] s[i] > x,
    decreases s.len(),
{
    if s.len() > 0 && s.last() > x {
        let f = s.drop_last();
        lemma_rank_splits(f, x);
        assert forall|i: int| 0 <= i < engine::rank(s, x) implies #[trigger] s[i] <= x by {
            assert(s[i] == f[i]);
        }
        assert forall|i: int| engine::rank(s, x) <= i < s.len() implies #[trigger] s[i] > x by {
            if i < f.len() {
                assert(s[i] == f[i]);
            }
        }
    } else if s.len() > 0 {
        assert(s.last() == s[s.len() - 1]);
    }
}

/// How far a peer's clock is ahead is what the last eight hellos say: each counts the
/// milliseconds of the peer's clock less those of the own one, and the one in the middle
/// of them, in ascending order, is noted under the peer's name. No other peer's is
/// touched.
pub proof fn law_skew_is_the_median_of_the_last_hellos(
    e: EngineV,
    s: StoreV,
    ps: Seq<PeerV>,
    pid: Seq<u8>,
    i: int,
    key: Seq<u8>,
    h: HelloV,
    now_ms: u64,
) -> (samples: Seq<i64>)
    requires
        bound(e.peers, pid, i),
        key.len() == 32,
        h.host_id == hexes::hex_text(key),
        proves(e.peers[i], pid, key),
        now_ms < 0x8000_0000_0000_0000,
    ensures
        ({
            let t = engine::hello_turn(e, s, ps, pid, h, now_ms);
            let old_ones = e.peers[i].skew;
            let new_ones = t.engine.peers[i].skew;
            &&& new_ones.len() == if old_ones.len() < 8 {
                old_ones.len() + 1
            } else {
                old_ones.len()
            }
            &&& new_ones.last() == h.hlc as int / 65536 - now_ms
            &&& forall|k: int|
                #![trigger new_ones[k]]
                0 <= k < new_ones.len() - 1 ==> new_ones[k] == old_ones[k + old_ones.len() - (new_ones.len() - 1)]
            &&& samples.to_multiset() == new_ones.to_multiset()
            &&& samples.len() == new_ones.len()
            &&& forall|a: int, b: int| 0 <= a <= b < samples.len() ==> #[trigger] samples[a] <= #[trigger] samples[b]
            &&& t.store.clocks == s.clocks.insert(
                text::utf8(e.peers[i].name),
                samples[samples.len() as int / 2],
            )
        }),
{
    lemma_bound(e.peers, pid, i, 0);
    hexes::law_hex_round_trip(key);
    let c = e.peers[i];
    let skew = engine::sampled(c.skew, engine::skew_sample(h.hlc, now_ms));
    lemma_ordered(skew);
    engine::ordered(skew)
}

// ---------- rounds ----------

/// Is something under way with a peer?
pub open spec fn under_way(p: PhaseV) -> bool {
    match p {
        PhaseV::AwaitingHello => true,
        PhaseV::Pulling { ns, target } => true,
        PhaseV::WaitingDial => true,
        _ => false,
    }
}

/// Is the peer at place `i` the first of the name?
pub open spec fn first_named(ps: Seq<CtxV>, name: Seq<char>, i: int) -> bool {
    &&& 0 <= i < ps.len()
    &&& ps[i].name == name
    &&& forall|j: int| 0 <= j < i ==> (#[trigger] ps[j]).name != name
}

proof fn lemma_named(ps: Seq<CtxV>, name: Seq<char>, from: int)
    requires
        0 <= from <= ps.len(),
        forall|j: int| 0 <= j < from ==> (#[trigger] ps[j]).name != name,
    ensures
        ({
            let i = engine::named_at(ps, name, from);
            if i < ps.len() {
                first_named(ps, name, i)
            } else {
                i == ps.len() && forall|j: int| 0 <= j < ps.len() ==> (#[trigger] ps[j]).name != name
            }
        }),
    decreases ps.len() - from,
{
    if from < ps.len() && ps[from].name != name {
        lemma_named(ps, name, from + 1);
    }
}

/// What came of the start of a round with a peer that stood as `c`, or was not known.
pub open spec fn taken_up(c: Option<CtxV>, now: CtxV, addr: Seq<char>, connected: Set<Seq<u8>>, actions: Seq<ActionV>) -> bool {
    &&& now.addr == addr
    &&& now.round_chunks == 0
    &&& match c {
        None => now.phase == PhaseV::WaitingDial && now.pid is None && actions.contains(
            ActionV::Dial { name: now.name, pid: None, addr },
        ),
        Some(was) => now.pid == was.pid && now.pin == was.pin && if under_way(was.phase) {
            now.phase == was.phase
        } else if was.pid is Some && connected.contains(was.pid->0) {
            now.phase == PhaseV::AwaitingHello && actions.contains(ActionV::SendHello { pid: was.pid->0 })
        } else {
            now.phase == PhaseV::WaitingDial && actions.contains(ActionV::Dial { name: now.name, pid: was.pid, addr })
        },
    }
}

/// The peer of a name, where there is one.
pub open spec fn known(ps: Seq<CtxV>, name: Seq<char>) -> Option<CtxV> {
    if exists|i: int| first_named(ps, name, i) {
        Some(ps[choose|i: int| first_named(ps, name, i)])
    } else {
        None
    }
}

proof fn lemma_known(ps: Seq<CtxV>, name: Seq<char>)
    ensures
        known(ps, name) == if engine::named_at(ps, name, 0) < ps.len() {
            Some(ps[engine::named_at(ps, name, 0)])
        } else {
            None::<CtxV>
        },
{
    lemma_named(ps, name, 0);
    let i = engine::named_at(ps, name, 0);
    if i < ps.len() {
        assert(first_named(ps, name, i));
        let k = choose|k: int| first_named(ps, name, k);
        if k < i {
            assert(ps[k].name != name);
        }
        if i < k {
            assert(ps[i].name != name);
        }
    } else {
        if exists|k: int| first_named(ps, name, k) {
            let k = choose|k: int| first_named(ps, name, k);
            assert(ps[k].name == name);
        }
    }
}

#[verifier::rlimit(40)]
proof fn lemma_kick_one(e: EngineV, p: PeerV, connected: Set<Seq<u8>>, other: Seq<char>)
    ensures
        ({
            let m = engine::kick_one(e, p, connected);
            &&& m.engine.round_applied == e.round_applied
            &&& other != p.name ==> known(m.engine.peers, other) == known(e.peers, other)
            &&& config::multiaddr_text(p.addr) is None ==> m.engine == e && m.actions.len() == 0
            &&& config::multiaddr_text(p.addr) matches Some(addr) ==> {
                &&& known(m.engine.peers, p.name) is Some
                &&& known(m.engine.peers, p.name)->0.name == p.name
                &&& taken_up(known(e.peers, p.name), known(m.engine.peers, p.name)->0, addr, connected, m.actions)
                &&& known(e.peers, p.name) is None ==> known(m.engine.peers, p.name)->0.pin == engine::pin_of(p)
            }
        }),
{
    let m = engine::kick_one(e, p, connected);
    lemma_known(e.peers, p.name);
    lemma_known(e.peers, other);
    lemma_known(m.engine.peers, p.name);
    lemma_known(m.engine.peers, other);
    lemma_named(e.peers, p.name, 0);
    lemma_named(e.peers, other, 0);
    lemma_named(m.engine.peers, p.name, 0);
    lemma_named(m.engine.peers, other, 0);
    let i = engine::named_at(e.peers, p.name, 0);
    let j = engine::named_at(e.peers, other, 0);
    let x = engine::named_at(m.engine.peers, p.name, 0);
    let y = engine::named_at(m.engine.peers, other, 0);
    assert(forall|k: int| 0 <= k < e.peers.len() ==> m.engine.peers[k].name == (#[trigger] e.peers[k]).name);
    if config::multiaddr_text(p.addr) is Some {
        assert(m.engine.peers[i].name == p.name);
        assert(x == i) by {
            if x < i {
                assert(e.peers[x].name == m.engine.peers[x].name);
            }
            if i < x {
                assert(m.engine.peers[i].name != p.name);
            }
        }
        if other != p.name {
            if j < e.peers.len() {
                assert(m.engine.peers[j].name == other);
                if y < j {
                    assert(e.peers[y].name == m.engine.peers[y].name);
                }
                if j < y {
                    assert(m.engine.peers[j].name != other);
                }
                assert(m.engine.peers[j] == e.peers[j]);
            } else if y < m.engine.peers.len() {
                if y < e.peers.len() {
                    assert(e.peers[y].name == m.engine.peers[y].name);
                }
            }
        }
        if m.actions.len() > 0 {
            assert(m.actions.contains(m.actions[0]));
        }
    }
}

#[verifier::rlimit(40)]
proof fn lemma_kick_all(e: EngineV, ps: Seq<PeerV>, connected: Set<Seq<u8>>, name: Seq<char>)
    requires
        forall|i: int, j: int| 0 <= i < j < ps.len() ==> (#[trigger] ps[i]).name != (#[trigger] ps[j]).name,
    ensures
        ({
            let m = engine::kick_all(e, ps, connected);
            &&& m.engine.round_applied == 0
            &&& (forall|i: int| 0 <= i < ps.len() ==> (#[trigger] ps[i]).name != name) ==> known(m.engine.peers, name)
                == known(e.peers, name)
            &&& forall|i: int|
                #![trigger ps[i]]
                0 <= i < ps.len() && ps[i].name == name && config::multiaddr_text(ps[i].addr) is Some ==> known(
                    m.engine.peers,
                    name,
                ) is Some && known(m.engine.peers, name)->0.name == name && taken_up(
                    known(e.peers, name),
                    known(m.engine.peers, name)->0,
                    config::multiaddr_text(ps[i].addr)->0,
                    connected,
                    m.actions,
                ) && (known(e.peers, name) is None ==> known(m.engine.peers, name)->0.pin == engine::pin_of(ps[i]))
        }),
    decreases ps.len(),
{
    if ps.len() > 0 {
        let front = ps.drop_last();
        let last = ps.last();
        assert forall|i: int, j: int| 0 <= i < j < front.len() implies (#[trigger] front[i]).name != (
        #[trigger] front[j]).name by {
            assert(front[i] == ps[i] && front[j] == ps[j]);
        }
        lemma_kick_all(e, front, connected, name);
        let before = engine::kick_all(e, front, connected);
        let one = engine::kick_one(before.engine, last, connected);
        lemma_kick_one(before.engine, last, connected, name);
        let m = engine::kick_all(e, ps, connected);
        assert(ps[ps.len() - 1] == last);
        if last.name == name {
            assert forall|i: int| 0 <= i < front.len() implies (#[trigger] front[i]).name != name by {
                assert(front[i] == ps[i]);
                assert(ps[i].name != ps[ps.len() - 1].name);
            }
            assert forall|i: int| #![trigger ps[i]] 0 <= i < ps.len() && ps[i].name == name implies i == ps.len() - 1 by {
                if i < front.len() {
                    assert(front[i] == ps[i]);
                }
            }
        } else {
            if forall|i: int| 0 <= i < ps.len() ==> (#[trigger] ps[i]).name != name {
                assert forall|i: int| 0 <= i < front.len() implies (#[trigger] front[i]).name != name by {
                    assert(front[i] == ps[i]);
                }
            }
            assert forall|i: int| #![trigger ps[i]] 0 <= i < ps.len() && ps[i].name == name implies front[i] == ps[i]
                && i < front.len() by {}
        }
        assert forall|a: ActionV| before.actions.contains(a) implies #[trigger] m.actions.contains(a) by {
            let k = before.actions.index_of(a);
            assert(m.actions[k] == a);
        }
        assert forall|a: ActionV| one.actions.contains(a) implies #[trigger] m.actions.contains(a) by {
            let k = one.actions.index_of(a);
            assert(m.actions[before.actions.len() + k] == a);
        }
    }
}

/// A round is started with every peer of the configuration whose address can be read:
/// one that is connected is greeted, one that is not is dialed, at the address that the
/// configuration gives; one with something under way goes on with it. A peer that was
/// not known before starts with the pin of the configuration.
pub proof fn law_round_starts_with_every_peer(e: EngineV, ps: Seq<PeerV>, connected: Set<Seq<u8>>, i: int)
    requires
        forall|a: int, b: int| 0 <= a < b < ps.len() ==> (#[trigger] ps[a]).name != (#[trigger] ps[b]).name,
        0 <= i < ps.len(),
        config::multiaddr_text(ps[i].addr) is Some,
    ensures
        ({
            let m = engine::kick_all(e, ps, connected);
            let now = known(m.engine.peers, ps[i].name);
            &&& m.engine.round_applied == 0
            &&& now is Some && now->0.name == ps[i].name
            &&& taken_up(
                known(e.peers, ps[i].name),
                now->0,
                config::multiaddr_text(ps[i].addr)->0,
                connected,
                m.actions,
            )
            &&& known(e.peers, ps[i].name) is None ==> forall|key: Seq<u8>|
                key.len() == 32 && ps[i].pin == #[trigger] hexes::hex_text(key) ==> now->0.pin == Some(key)
            &&& known(e.peers, ps[i].name) is None && ps[i].pin.len() == 0 ==> now->0.pin is None
        }),
{
    lemma_kick_all(e, ps, connected, ps[i].name);
    assert forall|key: Seq<u8>| key.len() == 32 && ps[i].pin == #[trigger] hexes::hex_text(key) implies engine::pin_of(
        ps[i],
    ) == Some(key) by {
        hexes::law_hex_round_trip(key);
    }
}

/// A dial that went through binds the connection to the peer that was dialed at the
/// address, and greets it.
pub proof fn law_dialed_peer_is_greeted(e: EngineV, pid: Seq<u8>, addr: Seq<char>, d: int, i: int)
    requires
        0 <= d < e.dials.len(),
        e.dials[d].0 == addr,
        forall|j: int| 0 <= j < d ==> (#[trigger] e.dials[j]).0 != addr,
        first_named(e.peers, e.dials[d].1, i),
        e.peers[i].phase is WaitingDial,
    ensures
        ({
            let m = engine::connected(e, pid, addr);
            &&& m.actions == seq![ActionV::SendHello { pid }]
            &&& m.engine.peers[i].pid == Some(pid)
            &&& m.engine.peers[i].phase == PhaseV::AwaitingHello
            &&& m.engine.peers[i].pin == e.peers[i].pin
            &&& m.engine.peers[i].queue == e.peers[i].queue
            &&& m.engine.peers.len() == e.peers.len()
            &&& forall|j: int|
                #![trigger m.engine.peers[j]]
                0 <= j < e.peers.len() && j != i ==> m.engine.peers[j] == e.peers[j]
        }),
{
    lemma_dialed(e.dials, addr, d, 0);
    lemma_named(e.peers, e.dials[d].1, 0);
    let k = engine::named_at(e.peers, e.dials[d].1, 0);
    if k < i {
        assert(e.peers[k].name != e.dials[d].1);
    }
    if i < k {
        assert(e.peers[i].name == e.dials[d].1);
    }
}

proof fn lemma_dialed(dials: Seq<(Seq<char>, Seq<char>)>, addr: Seq<char>, d: int, from: int)
    requires
        0 <= from <= d < dials.len(),
        dials[d].0 == addr,
        forall|j: int| 0 <= j < d ==> (#[trigger] dials[j]).0 != addr,
    ensures
        engine::dial_at(dials, addr, from) == d,
    decreases d - from,
{
    if from < d {
        assert(dials[from].0 != addr);
        lemma_dialed(dials, addr, d, from + 1);
    }
}

// ---------- what is served ----------

/// The answer to a hello names who this is and lists every namespace, each once, with
/// the number of its records and the hash of the last one.
pub proof fn law_hello_lists_every_namespace(s: StoreV, root: Seq<u8>, clock: u64, n: Seq<char>, who: serve::AccessV)
    requires
        s.spaces.dom().finite(),
        forall|k: Seq<u8>| #[trigger] s.spaces.dom().contains(k) ==> vstd::utf8::valid_utf8(k),
        !(who is Deny),
    ensures
        ({
            let a = serve::answer(s, root, who, SyncRequestV::Hello, clock);
            &&& a is Hello
            &&& a->Hello_0.host_id == hexes::hex_text(root)
            &&& a->Hello_0.hlc == clock
            &&& s.has(n) <==> exists|j: int|
                0 <= j < a->Hello_0.namespaces.len() && (#[trigger] a->Hello_0.namespaces[j]).ns == n
            &&& forall|j: int|
                #![trigger a->Hello_0.namespaces[j]]
                0 <= j < a->Hello_0.namespaces.len() && a->Hello_0.namespaces[j].ns == n
                    ==> a->Hello_0.namespaces[j].seq == s.space(n).log.records.len() as u64
                    && a->Hello_0.namespaces[j].hash == hexes::hex_text(s.space(n).log.head)
            &&& forall|j: int, k: int|
                0 <= j < k < a->Hello_0.namespaces.len() ==> (#[trigger] a->Hello_0.namespaces[j]).ns != (
                #[trigger] a->Hello_0.namespaces[k]).ns
        }),
{
    let d = s.spaces.dom();
    ordmap::lemma_has_list(d);
    let ks = ordmap::listed(d);
    let l = serve::heads_of(s);
    assert(serve::answer(s, root, who, SyncRequestV::Hello, clock)->Hello_0.namespaces == l);
    text::lemma_utf8_decodes(n);
    assert forall|j: int| 0 <= j < ks.len() implies text::utf8((#[trigger] l[j]).ns) == ks[j] by {
        assert(ks.contains(ks[j]));
        assert(d.contains(ks[j]));
        text::lemma_utf8_encodes(ks[j]);
    }
    if s.has(n) {
        assert(ks.contains(text::utf8(n)));
        let j = ks.index_of(text::utf8(n));
        assert(l[j].ns == n);
    }
    assert forall|j: int, k: int| 0 <= j < k < l.len() implies (#[trigger] l[j]).ns != (#[trigger] l[k]).ns by {
        assert(ordmap::lex_lt(ks[j], ks[k]));
        ordmap::lemma_lex_irreflexive(ks[j]);
    }
    if exists|j: int| 0 <= j < l.len() && (#[trigger] l[j]).ns == n {
        let j = choose|j: int| 0 <= j < l.len() && (#[trigger] l[j]).ns == n;
        assert(ks.contains(ks[j]));
    }
}

/// Is the chunk a part of the log from number `from` on, in order and without gaps?
pub open spec fn is_part(records: Seq<Seq<u8>>, from: int, chunk: Seq<RecV>) -> bool {
    forall|k: int|
        #![trigger chunk[k]]
        0 <= k < chunk.len() ==> from + k <= records.len() && chunk[k].seq == from + k && chunk[k].payload_b64
            == util::b64_text(false, records[from + k - 1])
}

/// The bytes of `count` records from number `from` on.
pub open spec fn bytes_from(records: Seq<Seq<u8>>, from: int, count: int) -> int
    decreases count,
{
    if count <= 0 {
        0
    } else {
        bytes_from(records, from, count - 1) + records[from + count - 2].len()
    }
}

proof fn lemma_chunk(records: Seq<Seq<u8>>, start: int, from: int, end: int, taken: Seq<RecV>, bytes: int)
    requires
        0 < start <= from <= end + 1,
        end <= records.len(),
        records.len() <= u64::MAX,
        taken.len() == from - start,
        taken.len() <= 1000,
        is_part(records, start, taken),
        bytes == bytes_from(records, start, from - start),
        bytes <= 983_040,
        end == records.len() || end == start + 999,
        forall|i: int| 0 <= i < records.len() ==> ((#[trigger] records[i]).len() + 2) / 3 * 4 <= 8_388_608,
    ensures
        ({
            let c = serve::chunk_from(records, from, end, taken, bytes);
            &&& is_part(records, start, c)
            &&& c.len() >= taken.len()
            &&& c.len() <= 1000
            &&& c.len() == 1 || bytes_from(records, start, c.len() as int) <= 983_040
            &&& start + c.len() <= records.len() ==> c.len() == 1000 || bytes_from(records, start, c.len() as int + 1) > 983_040
        }),
    decreases end - from + 1,
{
    if from <= end {
        let p = records[from - 1];
        let rec = RecV { seq: from as u64, payload_b64: util::b64_text(false, p) };
        let more = taken.push(rec);
        assert(bytes_from(records, start, taken.len() as int + 1) == bytes + p.len());
        let c = serve::chunk_from(records, from, end, taken, bytes);
        assert((records[from - 1].len() + 2) / 3 * 4 <= 8_388_608);
        if p.len() > 983_040 {
            if taken.len() > 0 {
                lemma_bytes_grow(records, start, 0, taken.len() as int);
                assert(c == taken);
            } else {
                lemma_bytes_grow(records, start, 1, 2);
                assert(bytes_from(records, start, 1) == bytes + p.len());
                assert(serve::chunk_from(records, from, end, taken, bytes) == more);
                assert(more.len() as int + 1 == 2);
            }
        } else if taken.len() >= 1000 || bytes + p.len() > 983_040 {
            assert(c == taken);
        } else {
            assert(c == serve::chunk_from(records, from + 1, end, more, bytes + p.len()));
            lemma_chunk(records, start, from + 1, end, more, bytes + p.len());
        }
    }
}

proof fn lemma_bytes_grow(records: Seq<Seq<u8>>, from: int, a: int, b: int)
    requires
        0 <= a <= b,
    ensures
        bytes_from(records, from, a) <= bytes_from(records, from, b),
    decreases b - a,
{
    if a < b {
        lemma_bytes_grow(records, from, a, b - 1);
    }
}

/// A pull is answered with the records from the number asked for on, in order and
/// without gaps, as they stand in the log: as many as there are, up to a thousand of
/// them and 960 KiB of bytes; one that is longer goes alone.
pub proof fn law_pull_is_answered_from_the_log(
    s: StoreV,
    root: Seq<u8>,
    name: Seq<char>,
    n: Seq<char>,
    from_seq: u64,
    clock: u64,
)
    requires
        s.has(n),
        0 < from_seq <= s.space(n).log.records.len() <= u64::MAX,
        forall|i: int|
            0 <= i < s.space(n).log.records.len() ==> ((#[trigger] s.space(n).log.records[i]).len() + 2) / 3 * 4
                <= 8_388_608,
    ensures
        ({
            let a = serve::answer(s, root, serve::AccessV::Full(name), SyncRequestV::Pull { ns: n, from_seq }, clock);
            let records = s.space(n).log.records;
            let c = a->Records_0.records;
            &&& a is Records
            &&& a->Records_0.ns == n
            &&& c.len() > 0
            &&& is_part(records, from_seq as int, c)
            &&& c.len() <= 1000
            &&& c.len() == 1 || bytes_from(records, from_seq as int, c.len() as int) <= 983_040
            &&& from_seq + c.len() <= records.len() ==> c.len() == 1000 || bytes_from(
                records,
                from_seq as int,
                c.len() as int + 1,
            ) > 983_040
        }),
{
    let recs = s.space(n).log.records;
    let end = log::window_end(recs.len() as int, from_seq as int, 1000);
    assert(bytes_from(recs, from_seq as int, 0) == 0);
    assert forall|i: int| 0 <= i < recs.len() implies ((#[trigger] recs[i]).len() + 2) / 3 * 4 <= 8_388_608 by {
        assert((s.space(n).log.records[i].len() + 2) / 3 * 4 <= 8_388_608);
    }
    lemma_chunk(recs, from_seq as int, from_seq as int, end, Seq::empty(), 0);
    serve::law_pull_makes_progress(s, n, from_seq);
}

/// Who is trusted: the holder of a connection whose key is the pin of a peer of the
/// configuration is served in full, as the first such peer. Anyone else is denied, but
/// for a peer that this node dialed itself and that has no pin: it is answered a hello,
/// and no records.
pub proof fn law_trust_follows_the_pins(ps: Seq<PeerV>, pid: Seq<u8>, dialed: Option<Seq<char>>, i: int, key: Seq<u8>)
    requires
        key.len() == 32,
    ensures
        0 <= i < ps.len() && ps[i].pin == hexes::hex_text(key) && serve::peer_id_bytes(key) == Some(pid) ==> serve::access(
            ps,
            pid,
            dialed,
        ) is Full,
        serve::access(ps, pid, dialed) is Full ==> exists|j: int|
            0 <= j < ps.len() && serve::peer_id_bytes(hexes::hex_bytes(#[trigger] ps[j].pin)) == Some(pid)
                && ps[j].pin.len() == 64 && serve::access(ps, pid, dialed) == serve::AccessV::Full(ps[j].name),
        serve::access(ps, pid, dialed) matches serve::AccessV::HelloOnly(n) ==> dialed == Some(n) && exists|j: int|
            0 <= j < ps.len() && (#[trigger] ps[j]).name == n && ps[j].pin.len() == 0,
        dialed is None && !(serve::access(ps, pid, dialed) is Full) ==> serve::access(ps, pid, dialed) is Deny,
{
    hexes::law_hex_round_trip(key);
    serve::lemma_proven(ps, pid, 0);
    if 0 <= i < ps.len() && ps[i].pin == hexes::hex_text(key) && serve::peer_id_bytes(key) == Some(pid) {
        lemma_proven_before(ps, pid, i, 0);
    }
    let x = serve::proven_at(ps, pid, 0);
    if x < ps.len() {
        assert(serve::peer_id_bytes(hexes::hex_bytes(ps[x].pin)) == Some(pid));
    } else if dialed is Some {
        let j = config::place_of(ps, dialed->0, 0);
        lemma_placed(ps, dialed->0, 0);
        if j < ps.len() {
            assert(ps[j].name == dialed->0);
        }
    }
}

proof fn lemma_placed(ps: Seq<PeerV>, name: Seq<char>, i: int)
    requires
        0 <= i,
    ensures
        ({
            let j = config::place_of(ps, name, i);
            j < ps.len() ==> i <= j && ps[j].name == name
        }),
    decreases ps.len() - i,
{
    if i < ps.len() && ps[i].name != name {
        lemma_placed(ps, name, i + 1);
    }
}

proof fn lemma_proven_before(ps: Seq<PeerV>, pid: Seq<u8>, i: int, from: int)
    requires
        0 <= from <= i < ps.len(),
        serve::pin_proves(ps[i], pid),
    ensures
        serve::proven_at(ps, pid, from) <= i,
    decreases i - from,
{
    if from < i {
        lemma_proven_before(ps, pid, i, from + 1);
    }
}

// ---------- records ----------

/// Are these the bytes of the records, each linked to the one before it and the first to
/// the hash `prev`?
pub open spec fn chained(rs: Seq<RecordV>, bytes: Seq<Seq<u8>>, prev: Seq<u8>) -> bool {
    &&& rs.len() == bytes.len()
    &&& prev.len() == 32
    &&& forall|k: int|
        #![trigger bytes[k]]
        0 <= k < rs.len() ==> rs[k].sound() && rs[k].fits() && bytes[k] == rs[k].bytes(link(bytes, prev, k))
}

/// The hash that record `k` of a row is linked to.
pub open spec fn link(bytes: Seq<Seq<u8>>, prev: Seq<u8>, k: int) -> Seq<u8>
    decreases k,
{
    if k <= 0 {
        prev
    } else {
        hash::sha256_digest(link(bytes, prev, k - 1) + bytes[k - 1])
    }
}

proof fn lemma_link_len(bytes: Seq<Seq<u8>>, prev: Seq<u8>, k: int)
    requires
        prev.len() == 32,
    ensures
        link(bytes, prev, k).len() == 32,
{
    if k > 0 {
        hash::lemma_digest_len(link(bytes, prev, k - 1) + bytes[k - 1]);
    }
}

#[verifier::rlimit(40)]
proof fn lemma_checked(rs: Seq<RecordV>, bytes: Seq<Seq<u8>>, prev: Seq<u8>, batch: Seq<(u64, Seq<u8>)>, n: int)
    requires
        chained(rs, bytes, prev),
        0 <= n <= rs.len(),
        batch.len() == n,
        forall|k: int| 0 <= k < n ==> (#[trigger] batch[k]).1 == bytes[k],
    ensures
        ({
            let c = merge::checked(batch);
            &&& c.fault is None
            &&& c.records == Seq::new(n as nat, |k: int| rs[k].plain())
            &&& n > 0 ==> c.head == Some(link(bytes, prev, n))
            &&& n == 0 ==> c.head is None
        }),
    decreases n,
{
    if n > 0 {
        let front = batch.drop_last();
        assert forall|k: int| 0 <= k < n - 1 implies (#[trigger] front[k]).1 == bytes[k] by {
            assert(front[k] == batch[k]);
        }
        lemma_checked(rs, bytes, prev, front, n - 1);
        lemma_link_len(bytes, prev, n - 1);
        let b = bytes[n - 1];
        assert(batch.last().1 == b);
        record::law_sound_record_reads(rs[n - 1], link(bytes, prev, n - 1));
        assert(merge::checked(batch).records =~= Seq::new(n as nat, |k: int| rs[k].plain()));
    } else {
        assert(merge::checked(batch).records =~= Seq::new(0, |k: int| rs[k].plain()));
    }
}

proof fn lemma_decoded(l: Seq<RecV>, bytes: Seq<Seq<u8>>)
    requires
        l.len() == bytes.len(),
        forall|k: int| 0 <= k < l.len() ==> (#[trigger] l[k]).payload_b64 == util::b64_text(false, bytes[k]),
    ensures
        engine::decoded(l) matches Some(d) && d.len() == bytes.len() && forall|k: int|
            0 <= k < d.len() ==> (#[trigger] d[k]).1 == bytes[k],
    decreases l.len(),
{
    if l.len() > 0 {
        let n = l.len() - 1;
        lemma_decoded(l.drop_last(), bytes.take(n));
        util::law_b64_padding(bytes[n], 0);
        let t = text::utf8(util::b64_text(false, bytes[n]));
        assert(t + Seq::new(0, |i: int| 61u8) =~= t);
        assert(l[n].payload_b64 == util::b64_text(false, bytes[n]));
        let d = engine::decoded(l)->0;
        let had = engine::decoded(l.drop_last())->0;
        assert forall|k: int| 0 <= k < d.len() implies (#[trigger] d[k]).1 == bytes[k] by {
            if k < n {
                assert(d[k] == had[k]);
            }
        }
    }
}

/// What one record adds to the log.
#[verifier::rlimit(40)]
proof fn lemma_sync_one(s: StoreV, ns: Seq<char>, r: RecordV)
    requires
        s.has(ns),
        s.space(ns).log.head.len() == 32,
        r.sound(),
        s.sync(ns, r).result is Ok,
    ensures
        ({
            let t = s.sync(ns, r);
            let (old_log, new_log) = (s.space(ns).log.records, t.store.space(ns).log.records);
            &&& t.store.has(ns)
            &&& t.store.space(ns).log.head.len() == 32
            &&& new_log.len() >= old_log.len()
            &&& forall|i: int| 0 <= i < old_log.len() ==> #[trigger] new_log[i] == old_log[i]
            &&& t.result == Ok::<bool, StorageFault>(new_log.len() > old_log.len())
            &&& new_log.len() <= old_log.len() + 1
            &&& model::seen(new_log, model::version_id(r))
        }),
{
    let t = s.sync(ns, r);
    let old_log = s.space(ns).log.records;
    let new_log = t.store.space(ns).log.records;
    let head = s.space(ns).log.head;
    let bytes = r.bytes(head);
    if !model::seen(old_log, model::version_id(r)) {
        record::law_sound_record_reads(r, head);
        hash::lemma_digest_len(record::prev_of(bytes) + bytes);
        assert(new_log == old_log.push(bytes));
        assert(model::record_has(new_log[new_log.len() - 1], model::version_id(r)));
    }
}

/// What the records add to the log.
#[verifier::rlimit(40)]
proof fn lemma_sync_all(s: StoreV, ns: Seq<char>, rs: Seq<RecordV>)
    requires
        s.has(ns),
        s.space(ns).log.head.len() == 32,
        forall|k: int| 0 <= k < rs.len() ==> (#[trigger] rs[k]).sound(),
        s.sync_all(ns, rs).result is Ok,
    ensures
        ({
            let t = s.sync_all(ns, rs);
            let (old_log, new_log) = (s.space(ns).log.records, t.store.space(ns).log.records);
            &&& t.store.has(ns)
            &&& new_log.len() >= old_log.len()
            &&& forall|i: int| 0 <= i < old_log.len() ==> #[trigger] new_log[i] == old_log[i]
            &&& t.result == Ok::<int, StorageFault>(new_log.len() - old_log.len())
            &&& forall|k: int| 0 <= k < rs.len() ==> model::seen(new_log, model::version_id(#[trigger] rs[k]))
        }),
    decreases rs.len(),
{
    if rs.len() > 0 {
        let r = rs[0];
        let rest = rs.drop_first();
        let one = s.sync(ns, r);
        let mid = one.store.space(ns).log.records;
        assert(r.sound());
        lemma_sync_one(s, ns, r);
        assert forall|k: int| 0 <= k < rest.len() implies (#[trigger] rest[k]).sound() by {
            assert(rest[k] == rs[k + 1]);
        }
        lemma_sync_all(one.store, ns, rest);
        let new_log = one.store.sync_all(ns, rest).store.space(ns).log.records;
        assert(s.sync_all(ns, rs).store == one.store.sync_all(ns, rest).store);
        assert forall|k: int| 0 <= k < rs.len() implies model::seen(new_log, model::version_id(#[trigger] rs[k])) by {
            if k == 0 {
                let i = choose|i: int| 0 <= i < mid.len() && model::record_has(#[trigger] mid[i], model::version_id(r));
                assert(new_log[i] == mid[i]);
            } else {
                assert(rest[k - 1] == rs[k]);
            }
        }
    }
}

/// Records that were asked for are taken in, all of them: where they come in the form
/// that a peer serves them in, from a peer that may write to the namespace, each of them
/// is an event of the own log afterwards, those who watch the namespace are told, and
/// the round goes on: with the next record of the namespace as long as some are missing,
/// then with the next namespace, and it is over where nothing came that was new, where
/// nothing is left to pull, or after thirty-two answers. Where the store takes one of
/// the records not in, the round is given up.
#[verifier::rlimit(40)]
pub proof fn law_asked_records_are_taken_in(
    e: EngineV,
    s: StoreV,
    ps: Seq<PeerV>,
    pid: Seq<u8>,
    i: int,
    r: RecordsV,
    target: u64,
    rs: Seq<RecordV>,
    bytes: Seq<Seq<u8>>,
    prev: Seq<u8>,
)
    requires
        bound(e.peers, pid, i),
        e.peers[i].phase == (PhaseV::Pulling { ns: r.ns, target }),
        forall|j: int|
            0 <= j < ps.len() && (#[trigger] ps[j]).name == e.peers[i].name && ps[j].namespaces is Some
                ==> ps[j].namespaces->0.contains(r.ns),
        s.has(r.ns),
        s.space(r.ns).log.head.len() == 32,
        chained(rs, bytes, prev),
        r.records.len() == bytes.len(),
        forall|k: int| 0 <= k < r.records.len() ==> (#[trigger] r.records[k]).payload_b64 == util::b64_text(false, bytes[k]),
    ensures
        ({
            let t = engine::records_turn(e, s, ps, pid, r);
            let c = t.engine.peers[i];
            let was = e.peers[i];
            let had = s.space(r.ns).log.records.len();
            let has = t.store.space(r.ns).log.records.len();
            &&& t.peers == ps
            &&& t.actions.len() == 0 ==> c.phase == PhaseV::Idle
            &&& t.actions.len() > 0 ==> {
                &&& t.actions[0] == (ActionV::Notify { ns: r.ns })
                &&& has >= had
                &&& forall|k: int|
                    0 <= k < had ==> #[trigger] t.store.space(r.ns).log.records[k] == s.space(r.ns).log.records[k]
                &&& forall|k: int|
                    0 <= k < rs.len() ==> model::seen(
                        t.store.space(r.ns).log.records,
                        model::version_id(#[trigger] rs[k]),
                    )
                &&& has == had ==> c.phase == PhaseV::Done && t.actions.len() == 1
                &&& has > had && was.round_chunks + 1 >= 32 ==> c.phase == PhaseV::Done && t.actions.len() == 1
                &&& has > had && was.round_chunks + 1 < 32 && has < target ==> c.phase == was.phase && c.queue == was.queue
                    && t.actions.len() == 2 && t.actions[1] == (ActionV::SendPull {
                    pid,
                    ns: r.ns,
                    from_seq: (has + 1) as u64,
                })
                &&& has > had && was.round_chunks + 1 < 32 && has >= target && was.queue.len() > 0 ==> c.phase == (
                PhaseV::Pulling { ns: was.queue[0].0, target: was.queue[0].1 }) && c.queue == was.queue.skip(1)
                    && t.actions.len() == 2 && t.actions[1] is SendPull && t.actions[1]->SendPull_ns == was.queue[0].0
                &&& has > had && was.round_chunks + 1 < 32 && has >= target && was.queue.len() == 0 ==> c.phase
                    == PhaseV::Done && t.actions.len() == 1
                &&& has > had && was.round_chunks + 1 < 32 ==> c.round_chunks == was.round_chunks + 1
            }
            &&& forall|j: int|
                #![trigger t.engine.peers[j]]
                0 <= j < e.peers.len() && j != i ==> t.engine.peers[j] == e.peers[j]
        }),
{
    lemma_bound(e.peers, pid, i, 0);
    let c = e.peers[i];
    lemma_placed(ps, c.name, 0);
    assert(engine::may_write(ps, c.name, r.ns));
    lemma_decoded(r.records, bytes);
    let batch = engine::decoded(r.records)->0;
    lemma_checked(rs, bytes, prev, batch, rs.len() as int);
    let got = merge::checked(batch).records;
    assert forall|k: int| 0 <= k < got.len() implies (#[trigger] got[k]).sound() && model::version_id(got[k])
        == model::version_id(rs[k]) by {
        assert(bytes[k] == rs[k].bytes(link(bytes, prev, k)));
        assert(got[k] == rs[k].plain());
    }
    let step = s.sync_all(r.ns, got);
    if step.result is Ok {
        lemma_sync_all(s, r.ns, got);
        let new_log = step.store.space(r.ns).log.records;
        assert forall|k: int| 0 <= k < rs.len() implies model::seen(new_log, model::version_id(#[trigger] rs[k])) by {
            assert(model::seen(new_log, model::version_id(got[k])));
        }
    }
}

/// A peer whose entry in the configuration lists its namespaces writes to no other:
/// records for another one change no data, and nothing more is asked for.
pub proof fn law_peer_writes_what_it_lists(
    e: EngineV,
    s: StoreV,
    ps: Seq<PeerV>,
    pid: Seq<u8>,
    i: int,
    r: RecordsV,
    j: int,
)
    requires
        bound(e.peers, pid, i),
        0 <= j < ps.len(),
        ps[j].name == e.peers[i].name,
        forall|x: int| 0 <= x < j ==> (#[trigger] ps[x]).name != e.peers[i].name,
        ps[j].namespaces is Some,
        !ps[j].namespaces->0.contains(r.ns),
    ensures
        engine::records_turn(e, s, ps, pid, r).store == s,
        engine::records_turn(e, s, ps, pid, r).actions.len() == 0,
        !(engine::records_turn(e, s, ps, pid, r).engine.peers[i].phase is Pulling),
{
    lemma_bound(e.peers, pid, i, 0);
    lemma_place(ps, e.peers[i].name, j, 0);
}

proof fn lemma_place(ps: Seq<PeerV>, name: Seq<char>, j: int, from: int)
    requires
        0 <= from <= j < ps.len(),
        ps[j].name == name,
        forall|x: int| 0 <= x < j ==> (#[trigger] ps[x]).name != name,
    ensures
        config::place_of(ps, name, from) == j,
    decreases j - from,
{
    if from < j {
        assert(ps[from].name != name);
        lemma_place(ps, name, j, from + 1);
    }
}

proof fn lemma_decoded_at(l: Seq<RecV>, k: int)
    requires
        0 <= k < l.len(),
    ensures
        engine::decoded(l) matches Some(d) ==> d.len() == l.len() && util::b64_bytes(
            false,
            util::unpadded(text::utf8(l[k].payload_b64)),
        ) == Ok::<Seq<u8>, Seq<char>>(d[k].1),
    decreases l.len(),
{
    let front = l.drop_last();
    if front.len() > 0 {
        lemma_decoded_at(front, if k < front.len() {
            k
        } else {
            0
        });
        if k < front.len() {
            assert(front[k] == l[k]);
        }
    } else {
        assert(engine::decoded(front) == Some(Seq::<(u64, Seq<u8>)>::empty()));
    }
}

/// One damaged record keeps the whole answer out: where a payload is no Base64, or its
/// bytes are no record with a good checksum, no data changes and nobody is told.
pub proof fn law_damaged_answer_is_not_taken_in(e: EngineV, s: StoreV, ps: Seq<PeerV>, pid: Seq<u8>, r: RecordsV, k: int)
    requires
        0 <= k < r.records.len(),
        ({
            let b = util::b64_bytes(false, util::unpadded(text::utf8(r.records[k].payload_b64)));
            b is Ok ==> record::parse_record(b->Ok_0, None) is Err
        }),
    ensures
        engine::records_turn(e, s, ps, pid, r).store == s,
        engine::records_turn(e, s, ps, pid, r).actions.len() == 0,
{
    lemma_decoded_at(r.records, k);
    if engine::decoded(r.records) is Some {
        merge::law_broken_record_refuses_batch(engine::decoded(r.records)->0, k);
    }
}

// ---------- pins and connections ----------

/// The first hello of a peer without a pin pins it to the key that the connection
/// proves, in the engine and in the configuration, and asks for that to be saved; a peer
/// with a pin leaves the configuration as it is.
pub proof fn law_first_hello_pins(
    e: EngineV,
    s: StoreV,
    ps: Seq<PeerV>,
    pid: Seq<u8>,
    i: int,
    key: Seq<u8>,
    h: HelloV,
    now_ms: u64,
    j: int,
)
    requires
        bound(e.peers, pid, i),
        key.len() == 32,
        h.host_id == hexes::hex_text(key),
        proves(e.peers[i], pid, key),
        0 <= j < ps.len(),
        ps[j].name == e.peers[i].name,
        forall|x: int| 0 <= x < j ==> (#[trigger] ps[x]).name != e.peers[i].name,
    ensures
        ({
            let t = engine::hello_turn(e, s, ps, pid, h, now_ms);
            let save = ActionV::SavePin { name: e.peers[i].name };
            &&& t.engine.peers[i].pin == Some(key)
            &&& e.peers[i].pin is None ==> t.actions.len() > 0 && t.actions[0] == save && t.peers.len() == ps.len()
                && t.peers[j].pin == hexes::hex_text(key) && t.peers[j].name == ps[j].name && t.peers[j].addr == ps[j].addr
                && t.peers[j].namespaces == ps[j].namespaces && forall|x: int|
                0 <= x < ps.len() && x != j ==> (#[trigger] t.peers[x]) == ps[x]
            &&& e.peers[i].pin is Some ==> t.peers == ps && forall|x: int|
                0 <= x < t.actions.len() ==> !((#[trigger] t.actions[x]) is SavePin)
        }),
{
    lemma_bound(e.peers, pid, i, 0);
    hexes::law_hex_round_trip(key);
    lemma_place(ps, e.peers[i].name, j, 0);
}

/// A hello that is not believed changes nothing but the peer's round, which is over:
/// nothing is pulled, saved or noted.
pub proof fn law_disbelieved_hello_changes_nothing(
    e: EngineV,
    s: StoreV,
    ps: Seq<PeerV>,
    pid: Seq<u8>,
    i: int,
    key: Seq<u8>,
    h: HelloV,
    now_ms: u64,
)
    requires
        bound(e.peers, pid, i),
        key.len() == 32,
        h.host_id == hexes::hex_text(key),
        !proves(e.peers[i], pid, key),
    ensures
        ({
            let t = engine::hello_turn(e, s, ps, pid, h, now_ms);
            &&& t.store == s
            &&& t.peers == ps
            &&& t.actions.len() == 0
            &&& t.engine.peers[i].phase is Bad
            &&& t.engine.peers[i].pin == e.peers[i].pin
            &&& t.engine.peers[i].queue == e.peers[i].queue
            &&& forall|j: int|
                #![trigger t.engine.peers[j]]
                0 <= j < e.peers.len() && j != i ==> t.engine.peers[j] == e.peers[j]
        }),
{
    lemma_bound(e.peers, pid, i, 0);
    hexes::law_hex_round_trip(key);
}

/// No peer is left waiting for a connection that will not come: a failed dial of a known
/// id makes that peer idle, one of an unknown id every peer that waits, and a connection
/// that closes the peer that waited for it. No other peer changes.
pub proof fn law_nobody_waits_in_vain(e: EngineV, pid: Seq<u8>, i: int, j: int)
    requires
        bound(e.peers, pid, i),
        0 <= j < e.peers.len(),
    ensures
        engine::dial_failed(e, Some(pid)).peers[i].phase == PhaseV::Idle,
        engine::set_idle(e, pid).peers[i].phase == PhaseV::Idle,
        e.peers[i].phase is WaitingDial ==> engine::closed(e, pid).peers[i].phase == PhaseV::Idle,
        !(e.peers[i].phase is WaitingDial) ==> engine::closed(e, pid) == e,
        engine::dial_failed(e, None).peers[j].phase == if e.peers[j].phase is WaitingDial {
            PhaseV::Idle
        } else {
            e.peers[j].phase
        },
        j != i ==> engine::dial_failed(e, Some(pid)).peers[j] == e.peers[j] && engine::set_idle(e, pid).peers[j]
            == e.peers[j] && engine::closed(e, pid).peers[j] == e.peers[j],
        engine::dial_failed(e, None).peers[j].pin == e.peers[j].pin && engine::dial_failed(e, None).peers[j].pid
            == e.peers[j].pid,
{
    lemma_bound(e.peers, pid, i, 0);
}

/// A record that is too long to be sent in any answer stops the pull: where it is the one
/// that is asked for, the answer is empty. So is that to a pull of a namespace that is not
/// there, or from behind the last record.
pub proof fn law_nothing_is_served_where_nothing_fits(
    s: StoreV,
    root: Seq<u8>,
    name: Seq<char>,
    n: Seq<char>,
    from_seq: u64,
    clock: u64,
)
    requires
        s.has(n) && 0 < from_seq <= s.space(n).log.records.len() ==> (s.space(n).log.records[from_seq - 1].len() + 2) / 3 * 4
            > 8_388_608,
    ensures
        serve::answer(s, root, serve::AccessV::Full(name), SyncRequestV::Pull { ns: n, from_seq }, clock) == (
        SyncResponseV::Records(RecordsV { ns: n, records: Seq::empty() })),
{
}

/// A port is listened on at every interface; an address is taken as it stands.
pub proof fn law_port_is_listened_on_everywhere(s: Seq<char>, i: int)
    ensures
        0 <= i < s.len() && s[i] == '/' ==> engine::listen_text(s) == s,
        (forall|j: int| 0 <= j < s.len() ==> #[trigger] s[j] != '/') ==> engine::listen_text(s) == "/ip4/0.0.0.0/tcp/"@ + s,
{
    if 0 <= i < s.len() && s[i] == '/' {
        assert(s.contains(s[i]));
    }
}

// ---------- dials ----------

proof fn lemma_undialed(d: Seq<(Seq<char>, Seq<char>)>, addr: Seq<char>, x: (Seq<char>, Seq<char>))
    ensures
        engine::undialed(d, addr).contains(x) <==> d.contains(x) && x.0 != addr,
    decreases d.len(),
{
    if d.len() > 0 {
        let front = d.drop_last();
        let last = d[d.len() - 1];
        lemma_undialed(front, addr, x);
        let u = engine::undialed(d, addr);
        let v = engine::undialed(front, addr);
        if d.contains(x) {
            let i = d.index_of(x);
            if i < front.len() {
                assert(front[i] == x);
            }
        }
        if front.contains(x) {
            assert(d[front.index_of(x)] == x);
        }
        if last.0 != addr {
            if v.contains(x) {
                assert(u[v.index_of(x)] == x);
            }
            if u.contains(x) {
                let i = u.index_of(x);
                if i < v.len() {
                    assert(v[i] == x);
                } else {
                    assert(d[d.len() - 1] == x);
                }
            }
            if x == last {
                assert(u[u.len() - 1] == x);
            }
        }
    }
}

/// Is the peer one to be dialed by its address: not under way, and without an id?
pub open spec fn dialed_by_address(c: Option<CtxV>) -> bool {
    c matches Some(was) ==> !under_way(was.phase) && was.pid is None
}

proof fn lemma_kick_dials(e: EngineV, p: PeerV, connected: Set<Seq<u8>>, x: (Seq<char>, Seq<char>))
    ensures
        ({
            let m = engine::kick_one(e, p, connected);
            let a = config::multiaddr_text(p.addr);
            &&& a is Some && dialed_by_address(known(e.peers, p.name)) ==> m.engine.dials.contains((a->0, p.name))
            &&& a is None || x.0 != a->0 ==> (m.engine.dials.contains(x) <==> e.dials.contains(x))
        }),
{
    lemma_known(e.peers, p.name);
    lemma_named(e.peers, p.name, 0);
    let m = engine::kick_one(e, p, connected);
    if config::multiaddr_text(p.addr) is Some {
        let addr = config::multiaddr_text(p.addr)->0;
        lemma_undialed(e.dials, addr, x);
        let y = (addr, p.name);
        let u = engine::undialed(e.dials, addr).push(y);
        assert(u[u.len() - 1] == y);
        assert(u.contains(x) <==> engine::undialed(e.dials, addr).contains(x) || x == y) by {
            let v = engine::undialed(e.dials, addr);
            if v.contains(x) {
                assert(u[v.index_of(x)] == x);
            }
            if u.contains(x) {
                let i = u.index_of(x);
                if i < v.len() {
                    assert(v[i] == x);
                }
            }
        }
    }
}

#[verifier::rlimit(40)]
proof fn lemma_all_dials(e: EngineV, ps: Seq<PeerV>, connected: Set<Seq<u8>>, i: int)
    requires
        0 <= i < ps.len(),
        forall|a: int, b: int| 0 <= a < b < ps.len() ==> (#[trigger] ps[a]).name != (#[trigger] ps[b]).name,
        forall|a: int, b: int|
            0 <= a < b < ps.len() ==> config::multiaddr_text((#[trigger] ps[a]).addr) != config::multiaddr_text(
                (#[trigger] ps[b]).addr,
            ),
        config::multiaddr_text(ps[i].addr) is Some,
        dialed_by_address(known(e.peers, ps[i].name)),
    ensures
        engine::kick_all(e, ps, connected).engine.dials.contains((config::multiaddr_text(ps[i].addr)->0, ps[i].name)),
    decreases ps.len(),
{
    let front = ps.drop_last();
    let last = ps[ps.len() - 1];
    assert forall|a: int, b: int| 0 <= a < b < front.len() implies (#[trigger] front[a]).name != (#[trigger] front[b]).name
        && config::multiaddr_text(front[a].addr) != config::multiaddr_text(front[b].addr) by {
        assert(front[a] == ps[a] && front[b] == ps[b]);
    }
    let before = engine::kick_all(e, front, connected);
    let x = (config::multiaddr_text(ps[i].addr)->0, ps[i].name);
    lemma_kick_dials(before.engine, last, connected, x);
    if i < front.len() {
        assert(front[i] == ps[i]);
        lemma_all_dials(e, front, connected, i);
        assert(config::multiaddr_text(ps[i].addr) != config::multiaddr_text(ps[ps.len() - 1].addr));
    } else {
        lemma_kick_all(e, front, connected, last.name);
        assert forall|j: int| 0 <= j < front.len() implies (#[trigger] front[j]).name != last.name by {
            assert(front[j] == ps[j]);
            assert(ps[j].name != ps[ps.len() - 1].name);
        }
    }
}

/// A peer that is dialed by its address is remembered with it, so that the connection can
/// be told to be its own; once the connection is there, the address is forgotten.
pub proof fn law_dials_are_remembered(
    e: EngineV,
    ps: Seq<PeerV>,
    connected: Set<Seq<u8>>,
    i: int,
    f: EngineV,
    pid: Seq<u8>,
    addr: Seq<char>,
    name: Seq<char>,
)
    requires
        0 <= i < ps.len(),
        forall|a: int, b: int| 0 <= a < b < ps.len() ==> (#[trigger] ps[a]).name != (#[trigger] ps[b]).name,
        forall|a: int, b: int|
            0 <= a < b < ps.len() ==> config::multiaddr_text((#[trigger] ps[a]).addr) != config::multiaddr_text(
                (#[trigger] ps[b]).addr,
            ),
        config::multiaddr_text(ps[i].addr) is Some,
        dialed_by_address(known(e.peers, ps[i].name)),
    ensures
        engine::kick_all(e, ps, connected).engine.dials.contains((config::multiaddr_text(ps[i].addr)->0, ps[i].name)),
        !engine::connected(f, pid, addr).engine.dials.contains((addr, name)),
{
    lemma_all_dials(e, ps, connected, i);
    lemma_undialed(f.dials, addr, (addr, name));
}

/// A connection whose address nobody dialed belongs to the peer that has its id; where no
/// peer has it, to the first that waits for a connection and has no id yet. Where there is
/// none, nothing changes but the address being forgotten.
pub proof fn law_undialed_connection_finds_its_peer(e: EngineV, pid: Seq<u8>, addr: Seq<char>, i: int)
    requires
        forall|d: int| 0 <= d < e.dials.len() ==> (#[trigger] e.dials[d]).0 != addr,
        0 <= i < e.peers.len(),
    ensures
        ({
            let m = engine::connected(e, pid, addr);
            &&& bound(e.peers, pid, i) ==> m.engine.peers[i].pid == Some(pid) && (e.peers[i].phase is WaitingDial
                ==> m.engine.peers[i].phase == PhaseV::AwaitingHello && m.actions == seq![ActionV::SendHello { pid }]) && (
            !(e.peers[i].phase is WaitingDial) ==> m.actions.len() == 0)
            &&& (forall|j: int| 0 <= j < e.peers.len() ==> (#[trigger] e.peers[j]).pid != Some(pid)) && e.peers[i].phase
                is WaitingDial && e.peers[i].pid is None && (forall|j: int|
                0 <= j < i ==> !((#[trigger] e.peers[j]).phase is WaitingDial && e.peers[j].pid is None))
                ==> m.engine.peers[i].pid == Some(pid) && m.engine.peers[i].phase == PhaseV::AwaitingHello && m.actions
                == seq![ActionV::SendHello { pid }]
            &&& (forall|j: int|
                0 <= j < e.peers.len() ==> (#[trigger] e.peers[j]).pid != Some(pid) && !(e.peers[j].phase is WaitingDial
                    && e.peers[j].pid is None)) ==> m.engine.peers == e.peers && m.actions.len() == 0
        }),
{
    lemma_no_dial(e.dials, addr, 0);
    if bound(e.peers, pid, i) {
        lemma_bound(e.peers, pid, i, 0);
    }
    if forall|j: int| 0 <= j < e.peers.len() ==> (#[trigger] e.peers[j]).pid != Some(pid) {
        lemma_unbound(e.peers, pid, 0);
        if e.peers[i].phase is WaitingDial && e.peers[i].pid is None && (forall|j: int|
            0 <= j < i ==> !((#[trigger] e.peers[j]).phase is WaitingDial && e.peers[j].pid is None)) {
            lemma_waiting(e.peers, i, 0);
        }
        if forall|j: int|
            0 <= j < e.peers.len() ==> !((#[trigger] e.peers[j]).phase is WaitingDial && e.peers[j].pid is None) {
            lemma_none_waits(e.peers, 0);
        }
    }
}

proof fn lemma_no_dial(dials: Seq<(Seq<char>, Seq<char>)>, addr: Seq<char>, from: int)
    requires
        0 <= from <= dials.len(),
        forall|d: int| 0 <= d < dials.len() ==> (#[trigger] dials[d]).0 != addr,
    ensures
        engine::dial_at(dials, addr, from) == dials.len(),
    decreases dials.len() - from,
{
    if from < dials.len() {
        lemma_no_dial(dials, addr, from + 1);
    }
}

proof fn lemma_unbound(ps: Seq<CtxV>, pid: Seq<u8>, from: int)
    requires
        0 <= from <= ps.len(),
        forall|j: int| 0 <= j < ps.len() ==> (#[trigger] ps[j]).pid != Some(pid),
    ensures
        engine::bound_at(ps, pid, from) == ps.len(),
    decreases ps.len() - from,
{
    if from < ps.len() {
        lemma_unbound(ps, pid, from + 1);
    }
}

proof fn lemma_waiting(ps: Seq<CtxV>, i: int, from: int)
    requires
        0 <= from <= i < ps.len(),
        ps[i].phase is WaitingDial && ps[i].pid is None,
        forall|j: int| 0 <= j < i ==> !((#[trigger] ps[j]).phase is WaitingDial && ps[j].pid is None),
    ensures
        engine::waiting_at(ps, from) == i,
    decreases i - from,
{
    if from < i {
        assert(!(ps[from].phase is WaitingDial && ps[from].pid is None));
        lemma_waiting(ps, i, from + 1);
    }
}

proof fn lemma_none_waits(ps: Seq<CtxV>, from: int)
    requires
        0 <= from <= ps.len(),
        forall|j: int| 0 <= j < ps.len() ==> !((#[trigger] ps[j]).phase is WaitingDial && ps[j].pid is None),
    ensures
        engine::waiting_at(ps, from) == ps.len(),
    decreases ps.len() - from,
{
    if from < ps.len() {
        assert(!(ps[from].phase is WaitingDial && ps[from].pid is None));
        lemma_none_waits(ps, from + 1);
    }
}

} // verus!
