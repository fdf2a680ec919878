//! Versions, index entries and conflict policies, and how one operation changes them.

use crate::json;
use crate::json::Json;
use crate::ordmap;
use crate::ordmap::{place, Place};
use crate::storage::error::StorageFault;
use crate::storage::record;
use crate::storage::record::{OpV, TAG_DEL, TAG_PUT, TAG_PUT_TTL};
use crate::storage::rows::RowV;
use crate::text;
use vstd::prelude::*;

verus! {

/// One write to one key; `seq` is its record number in the namespace log.
#[derive(Debug, PartialEq, Eq)]
pub struct Version {
    pub hlc: u64,
    pub replica: [u8; 32],
    pub author: [u8; 32],
    pub value: Vec<u8>,
    pub seq: u64,
    /// Wall-clock expiry in ms; 0 is never. Expired versions are kept until compaction.
    pub expires_at: u64,
}

/// What the index holds under a key, shaped by the namespace's conflict policy.
#[derive(Debug, PartialEq, Eq)]
pub enum Entry {
    /// The latest version alone.
    Lww(Version),
    /// Every version, in order of arrival.
    Register(Vec<Version>),
}

#[derive(Debug, Clone, Copy, PartialEq, Eq, Structural)]
pub enum ConflictPolicy {
    Lww,
    CrdtRegister,
}

/// A version as a value of the model.
#[verifier::ext_equal]
pub struct VersionV {
    pub hlc: u64,
    pub replica: Seq<u8>,
    pub author: Seq<u8>,
    pub value: Seq<u8>,
    pub seq: u64,
    pub expires_at: u64,
}

/// An entry as a value of the model.
#[verifier::ext_equal]
pub enum EntryV {
    Lww(VersionV),
    Register(Seq<VersionV>),
}

impl View for Version {
    type V = VersionV;

    open spec fn view(&self) -> VersionV {
        VersionV {
            hlc: self.hlc,
            replica: self.replica@,
            author: self.author@,
            value: self.value@,
            seq: self.seq,
            expires_at: self.expires_at,
        }
    }
}

/// The views of some versions.
pub open spec fn version_views(vs: Seq<Version>) -> Seq<VersionV> {
    Seq::new(vs.len(), |i: int| vs[i]@)
}

impl View for Entry {
    type V = EntryV;

    open spec fn view(&self) -> EntryV {
        match self {
            Entry::Lww(v) => EntryV::Lww(v@),
            Entry::Register(vs) => EntryV::Register(version_views(vs@)),
        }
    }
}

impl Clone for Version {
    fn clone(&self) -> (r: Version)
        ensures
            r@ == self@,
    {
        Version {
            hlc: self.hlc,
            replica: self.replica,
            author: self.author,
            value: self.value.clone(),
            seq: self.seq,
            expires_at: self.expires_at,
        }
    }
}

impl Clone for Entry {
    fn clone(&self) -> (r: Entry)
        ensures
            r@ == self@,
    {
        match self {
            Entry::Lww(v) => Entry::Lww(v.clone()),
            Entry::Register(vs) => {
                let mut out: Vec<Version> = Vec::new();
                let mut i: usize = 0;
                while i < vs.len()
                    invariant
                        i <= vs.len(),
                        version_views(out@) == version_views(vs@).take(i as int),
                    decreases vs.len() - i,
                {
                    let ghost before = version_views(out@);
                    out.push(vs[i].clone());
                    proof {
                        assert(version_views(out@) =~= before.push(vs@[i as int]@));
                        assert(version_views(out@) =~= version_views(vs@).take(i + 1));
                    }
                    i += 1;
                }
                assert(version_views(vs@).take(i as int) =~= version_views(vs@));
                Entry::Register(out)
            },
        }
    }
}

/// Is the write (`hlc`, `replica`) at or after the other one?
pub open spec fn not_before(hlc: u64, replica: Seq<u8>, hlc2: u64, replica2: Seq<u8>) -> bool {
    hlc > hlc2 || (hlc == hlc2 && !ordmap::lex_lt(replica, replica2))
}

/// Is the write (`hlc`, `replica`) at or after the other one?
pub fn at_or_after(hlc: u64, replica: &[u8; 32], hlc2: u64, replica2: &[u8; 32]) -> (r: bool)
    ensures
        r == not_before(hlc, replica@, hlc2, replica2@),
{
    if hlc != hlc2 {
        return hlc > hlc2;
    }
    match place(replica.as_slice(), replica2.as_slice()) {
        Place::Before => false,
        _ => true,
    }
}

/// Writes are ordered by clock and replica.
pub proof fn lemma_write_order(h: u64, x: Seq<u8>, h2: u64, y: Seq<u8>, h3: u64, z: Seq<u8>)
    ensures
        not_before(h, x, h2, y) || not_before(h2, y, h, x),
        not_before(h, x, h2, y) && not_before(h2, y, h3, z) ==> not_before(h, x, h3, z),
        not_before(h, x, h2, y) && not_before(h2, y, h, x) ==> h == h2 && x == y,
        not_before(h, x, h, x),
{
    ordmap::lemma_lex_irreflexive(x);
    ordmap::lemma_lex_total(x, y);
    ordmap::lemma_lex_total(y, z);
    ordmap::lemma_lex_total(x, z);
    if ordmap::lex_lt(x, y) && ordmap::lex_lt(y, x) {
        ordmap::lemma_lex_asymmetric(x, y);
    }
    if ordmap::lex_lt(x, z) && ordmap::lex_lt(z, y) {
        ordmap::lemma_lex_transitive(x, z, y);
    }
    if ordmap::lex_lt(y, x) && ordmap::lex_lt(x, z) {
        ordmap::lemma_lex_transitive(y, x, z);
    }
}

/// The last of the greatest versions by clock and replica.
pub open spec fn latest_of(vs: Seq<VersionV>) -> Option<VersionV>
    decreases vs.len(),
{
    if vs.len() == 0 {
        None
    } else {
        match latest_of(vs.drop_last()) {
            None => Some(vs.last()),
            Some(b) => if not_before(vs.last().hlc, vs.last().replica, b.hlc, b.replica) {
                Some(vs.last())
            } else {
                Some(b)
            },
        }
    }
}

/// Is the version not past its expiry?
pub open spec fn live(v: VersionV, now_ms: u64) -> bool {
    v.expires_at == 0 || v.expires_at > now_ms
}

impl EntryV {
    /// The visible version.
    pub open spec fn latest(self) -> Option<VersionV> {
        match self {
            EntryV::Lww(v) => Some(v),
            EntryV::Register(vs) => latest_of(vs),
        }
    }

    /// The version that a read sees: the visible one, unless it is past its expiry.
    pub open spec fn latest_live(self, now_ms: u64) -> Option<VersionV> {
        match self.latest() {
            Some(v) => if live(v, now_ms) {
                Some(v)
            } else {
                None
            },
            None => None,
        }
    }
}

fn is_live(v: &Version, now_ms: u64) -> (r: bool)
    ensures
        r == live(v@, now_ms),
{
    v.expires_at == 0 || v.expires_at > now_ms
}

impl Entry {
    /// The visible version: the single one, or the greatest by clock and replica, the
    /// same on every peer.
    pub fn latest(&self) -> (r: Option<&Version>)
        ensures
            match r {
                Some(v) => self@.latest() == Some(v@),
                None => self@.latest() is None,
            },
    {
        match self {
            Entry::Lww(v) => Some(v),
            Entry::Register(vs) => {
                if vs.len() == 0 {
                    return None;
                }
                let ghost all = version_views(vs@);
                let mut best: usize = 0;
                let mut i: usize = 1;
                proof {
                    assert(all.take(1).drop_last() =~= Seq::empty());
                    assert(latest_of(all.take(1).drop_last()) is None);
                }
                while i < vs.len()
                    invariant
                        0 < i <= vs.len(),
                        best < i,
                        all == version_views(vs@),
                        latest_of(all.take(i as int)) == Some(all[best as int]),
                    decreases vs.len() - i,
                {
                    assert(all.take(i + 1).drop_last() =~= all.take(i as int));
                    if at_or_after(vs[i].hlc, &vs[i].replica, vs[best].hlc, &vs[best].replica) {
                        best = i;
                    }
                    i += 1;
                }
                assert(all.take(i as int) =~= all);
                Some(&vs[best])
            },
        }
    }

    /// The version that a read sees: the visible one, unless it is past its expiry.
    pub fn latest_live(&self, now_ms: u64) -> (r: Option<&Version>)
        ensures
            match r {
                Some(v) => self@.latest_live(now_ms) == Some(v@),
                None => self@.latest_live(now_ms) is None,
            },
    {
        match self.latest() {
            Some(v) => if is_live(v, now_ms) {
                Some(v)
            } else {
                None
            },
            None => None,
        }
    }
}

/// The version that an operation writes.
pub open spec fn version_of(o: OpV, seq: u64) -> VersionV {
    VersionV {
        hlc: o.hlc,
        replica: o.replica,
        author: o.author,
        value: o.value,
        seq,
        expires_at: o.expires_at,
    }
}

/// A namespace's live data: the index and the tombstones.
#[verifier::ext_equal]
pub struct CellsV {
    pub index: Map<Seq<u8>, EntryV>,
    pub tombs: Map<Seq<u8>, u64>,
}

/// What one operation leaves, and what went wrong, if anything did.
pub struct OpOutcome {
    pub cells: CellsV,
    pub fault: Option<StorageFault>,
}

/// No operation has this tag.
pub open spec fn bad_tag(ns: Seq<char>, tag: u8) -> StorageFault {
    StorageFault::Corrupt { ns: Some(ns), detail: "bad tag "@ + text::decimal(tag as int) }
}

/// A register namespace holds an entry of another shape.
pub open spec fn not_register(ns: Seq<char>) -> StorageFault {
    StorageFault::Corrupt { ns: Some(ns), detail: "register policy entry not a Register"@ }
}

impl CellsV {
    pub open spec fn empty() -> CellsV {
        CellsV { index: Map::empty(), tombs: Map::empty() }
    }

    /// The entry that reads see: a tombstone hides what the index holds.
    pub open spec fn get(self, key: Seq<u8>) -> Option<EntryV> {
        if !self.tombs.dom().contains(key) && self.index.dom().contains(key) {
            Some(self.index[key])
        } else {
            None
        }
    }

    /// The value that reads see.
    pub open spec fn shown(self, key: Seq<u8>) -> Option<Seq<u8>> {
        match self.get(key) {
            Some(e) => match e.latest() {
                Some(v) => Some(v.value),
                None => None,
            },
            None => None,
        }
    }

    pub open spec fn with_entry(self, key: Seq<u8>, e: EntryV) -> CellsV {
        CellsV { index: self.index.insert(key, e), ..self }
    }

    /// A register gets one more version.
    pub open spec fn add_version(self, ns: Seq<char>, key: Seq<u8>, v: VersionV) -> OpOutcome {
        if !self.index.dom().contains(key) {
            OpOutcome { cells: self.with_entry(key, EntryV::Register(seq![v])), fault: None }
        } else {
            match self.index[key] {
                EntryV::Register(vs) => OpOutcome {
                    cells: self.with_entry(key, EntryV::Register(vs.push(v))),
                    fault: None,
                },
                EntryV::Lww(_) => OpOutcome { cells: self, fault: Some(not_register(ns)) },
            }
        }
    }

    /// A delete: the entry goes, a tombstone stays.
    pub open spec fn bury(self, key: Seq<u8>, hlc: u64) -> CellsV {
        CellsV { index: self.index.remove(key), tombs: self.tombs.insert(key, hlc) }
    }

    /// A local write is new intent: it lifts a tombstone, and a last-writer-wins
    /// namespace takes it whatever its clock says.
    pub open spec fn local(self, ns: Seq<char>, policy: ConflictPolicy, o: OpV, seq: u64) -> OpOutcome {
        if o.tag == TAG_PUT || o.tag == TAG_PUT_TTL {
            let lifted = CellsV { tombs: self.tombs.remove(o.key), ..self };
            match policy {
                ConflictPolicy::Lww => OpOutcome {
                    cells: lifted.with_entry(o.key, EntryV::Lww(version_of(o, seq))),
                    fault: None,
                },
                ConflictPolicy::CrdtRegister => lifted.add_version(ns, o.key, version_of(o, seq)),
            }
        } else if o.tag == TAG_DEL {
            OpOutcome { cells: self.bury(o.key, o.hlc), fault: None }
        } else {
            OpOutcome { cells: self, fault: Some(bad_tag(ns, o.tag)) }
        }
    }

    /// A synced or replayed write: last-writer-wins keeps the greatest (clock,
    /// replica), a register keeps every version, and a tombstone stays.
    pub open spec fn synced(self, ns: Seq<char>, policy: ConflictPolicy, o: OpV, seq: u64) -> OpOutcome {
        if o.tag == TAG_PUT || o.tag == TAG_PUT_TTL {
            match policy {
                ConflictPolicy::Lww => OpOutcome {
                    cells: if self.stale(o) {
                        self
                    } else {
                        self.with_entry(o.key, EntryV::Lww(version_of(o, seq)))
                    },
                    fault: None,
                },
                ConflictPolicy::CrdtRegister => self.add_version(ns, o.key, version_of(o, seq)),
            }
        } else if o.tag == TAG_DEL {
            OpOutcome { cells: self.bury(o.key, o.hlc), fault: None }
        } else {
            OpOutcome { cells: self, fault: Some(bad_tag(ns, o.tag)) }
        }
    }

    /// Does the index hold a later write than the operation?
    pub open spec fn stale(self, o: OpV) -> bool {
        self.index.dom().contains(o.key) && (self.index[o.key] matches EntryV::Lww(v) && !not_before(
            o.hlc,
            o.replica,
            v.hlc,
            v.replica,
        ))
    }

    /// Local writes, in order, up to the first that fails.
    pub open spec fn local_all(
        self,
        ns: Seq<char>,
        policy: ConflictPolicy,
        ops: Seq<OpV>,
        seq: u64,
    ) -> OpOutcome
        decreases ops.len(),
    {
        if ops.len() == 0 {
            OpOutcome { cells: self, fault: None }
        } else {
            let step = self.local(ns, policy, ops[0], seq);
            if step.fault is Some {
                step
            } else {
                step.cells.local_all(ns, policy, ops.drop_first(), seq)
            }
        }
    }

    /// Synced writes, in order, up to the first that fails.
    pub open spec fn synced_all(
        self,
        ns: Seq<char>,
        policy: ConflictPolicy,
        ops: Seq<OpV>,
        seq: u64,
    ) -> OpOutcome
        decreases ops.len(),
    {
        if ops.len() == 0 {
            OpOutcome { cells: self, fault: None }
        } else {
            let step = self.synced(ns, policy, ops[0], seq);
            if step.fault is Some {
                step
            } else {
                step.cells.synced_all(ns, policy, ops.drop_first(), seq)
            }
        }
    }

    /// The rows of a secondary index over `field`, derived from what reads see.
    pub open spec fn rows(self, field: Seq<char>) -> Set<RowV> {
        Set::new(
            |p: RowV|
                self.shown(p.1) is Some && field_value(self.shown(p.1)->0, field) == Some(p.0),
        )
    }
}

/// Every entry has the shape of the policy.
pub open spec fn fits_policy(c: CellsV, policy: ConflictPolicy) -> bool {
    forall|k: Seq<u8>| #[trigger]
        c.index.dom().contains(k) ==> match policy {
            ConflictPolicy::Lww => c.index[k] is Lww,
            ConflictPolicy::CrdtRegister => c.index[k] is Register,
        }
}

/// Does a local write do something else than its replay? It does where it lifts a
/// tombstone, and where the last writer wins and it is older than what it replaces.
pub open spec fn unlike(c: CellsV, policy: ConflictPolicy, o: OpV) -> bool {
    (o.tag == TAG_PUT || o.tag == TAG_PUT_TTL) && (c.tombs.dom().contains(o.key) || (policy is Lww && c.stale(o)))
}

/// Does one local write of a row do something else than its replay?
pub open spec fn unlike_all(c: CellsV, ns: Seq<char>, policy: ConflictPolicy, ops: Seq<OpV>, seq: u64) -> bool
    decreases ops.len(),
{
    if ops.len() == 0 {
        false
    } else {
        unlike(c, policy, ops[0]) || unlike_all(
            c.local(ns, policy, ops[0], seq).cells,
            ns,
            policy,
            ops.drop_first(),
            seq,
        )
    }
}

/// How many local writes of a row go well before one fails.
pub open spec fn local_done(c: CellsV, ns: Seq<char>, policy: ConflictPolicy, ops: Seq<OpV>, seq: u64) -> int
    decreases ops.len(),
{
    if ops.len() == 0 || c.local(ns, policy, ops[0], seq).fault is Some {
        0
    } else {
        1 + local_done(c.local(ns, policy, ops[0], seq).cells, ns, policy, ops.drop_first(), seq)
    }
}

/// The index bytes of a scalar.
pub open spec fn scalar_bytes(j: json::JsonV) -> Option<Seq<u8>> {
    match j {
        json::JsonV::Num(n) => Some(text::utf8(n.numeral)),
        json::JsonV::Str(s) => Some(text::utf8(s)),
        json::JsonV::Bool(b) => Some(
            if b {
                text::utf8("true"@)
            } else {
                text::utf8("false"@)
            },
        ),
        _ => None,
    }
}

/// What `field` of a stored value is indexed under: the scalar member of an object,
/// or a bare scalar; nothing where the value is no JSON or the member no scalar.
pub open spec fn field_value(value: Seq<u8>, field: Seq<char>) -> Option<Seq<u8>> {
    match json::json_read(text::lossy_text(value)) {
        Some(json::JsonV::Obj(m)) => match json::member(m, field) {
            Some(j) => scalar_bytes(j),
            None => None,
        },
        Some(j) => scalar_bytes(j),
        None => None,
    }
}

fn push_scalar(j: &Json) -> (r: Option<Vec<u8>>)
    ensures
        match r {
            Some(b) => scalar_bytes(j.value()) == Some(b@),
            None => scalar_bytes(j.value()) is None,
        },
{
    match j {
        Json::Num(n) => Some(text::bytes_of(n.numeral.as_str())),
        Json::Str(s) => Some(text::bytes_of(s.as_str())),
        Json::Bool(b) => if *b {
            Some(text::bytes_of("true"))
        } else {
            Some(text::bytes_of("false"))
        },
        _ => None,
    }
}

/// See [`field_value`].
pub fn field_values(value: &[u8], field: &str) -> (r: Option<Vec<u8>>)
    ensures
        match r {
            Some(b) => field_value(value@, field@) == Some(b@),
            None => field_value(value@, field@) is None,
        },
{
    let s = text::lossy_string(value);
    match json::read_json(s.as_str()) {
        None => None,
        Some(j) => {
            proof {
                json::lemma_value(j);
            }
            match &j {
                Json::Obj(m) => match json::find_member(m, field) {
                    Some(v) => push_scalar(v),
                    None => None,
                },
                _ => push_scalar(&j),
            }
        },
    }
}

// ---------- laws of the two ways to apply an operation ----------

/// A local write that is not unlike its replay leaves the same data as that.
pub proof fn law_replay_agrees(c: CellsV, ns: Seq<char>, policy: ConflictPolicy, o: OpV, seq: u64)
    requires
        !unlike(c, policy, o),
    ensures
        c.local(ns, policy, o, seq) == c.synced(ns, policy, o, seq),
{
    if o.tag != TAG_DEL {
        assert(c.tombs.remove(o.key) =~= c.tombs || (o.tag != TAG_PUT && o.tag != TAG_PUT_TTL));
    }
}

/// So does a row of local writes.
pub proof fn law_batch_replay_agrees(c: CellsV, ns: Seq<char>, policy: ConflictPolicy, ops: Seq<OpV>, seq: u64)
    requires
        !unlike_all(c, ns, policy, ops, seq),
    ensures
        c.local_all(ns, policy, ops, seq) == c.synced_all(ns, policy, ops, seq),
    decreases ops.len(),
{
    if ops.len() > 0 {
        law_replay_agrees(c, ns, policy, ops[0], seq);
        law_batch_replay_agrees(c.local(ns, policy, ops[0], seq).cells, ns, policy, ops.drop_first(), seq);
    }
}

/// An operation never fails where the entries have the shape of the policy, and keeps
/// them so.
pub proof fn law_operations_go_through(c: CellsV, ns: Seq<char>, policy: ConflictPolicy, o: OpV, seq: u64)
    requires
        fits_policy(c, policy),
        record::is_op_tag(o.tag),
    ensures
        c.local(ns, policy, o, seq).fault is None,
        c.synced(ns, policy, o, seq).fault is None,
        fits_policy(c.local(ns, policy, o, seq).cells, policy),
        fits_policy(c.synced(ns, policy, o, seq).cells, policy),
{
}

/// Nor does a row of them.
pub proof fn law_batches_go_through(c: CellsV, ns: Seq<char>, policy: ConflictPolicy, ops: Seq<OpV>, seq: u64)
    requires
        fits_policy(c, policy),
        forall|i: int| 0 <= i < ops.len() ==> record::is_op_tag((#[trigger] ops[i]).tag),
    ensures
        c.local_all(ns, policy, ops, seq).fault is None,
        c.synced_all(ns, policy, ops, seq).fault is None,
        fits_policy(c.local_all(ns, policy, ops, seq).cells, policy),
        fits_policy(c.synced_all(ns, policy, ops, seq).cells, policy),
    decreases ops.len(),
{
    if ops.len() > 0 {
        let rest = ops.drop_first();
        law_operations_go_through(c, ns, policy, ops[0], seq);
        assert forall|i: int| 0 <= i < rest.len() implies record::is_op_tag((#[trigger] rest[i]).tag) by {
            assert(rest[i] == ops[i + 1]);
        }
        law_batches_go_through(c.local(ns, policy, ops[0], seq).cells, ns, policy, rest, seq);
        law_batches_go_through(c.synced(ns, policy, ops[0], seq).cells, ns, policy, rest, seq);
    }
}

/// Two synced writes to a last-writer-wins namespace commute, whether they hit one
/// key or two, where they are different events.
pub proof fn law_lww_commutes(c: CellsV, ns: Seq<char>, a: OpV, b: OpV, sa: u64, sb: u64)
    requires
        a.tag == TAG_PUT || a.tag == TAG_PUT_TTL,
        b.tag == TAG_PUT || b.tag == TAG_PUT_TTL,
        a.hlc != b.hlc || a.replica != b.replica,
    ensures
        c.synced(ns, ConflictPolicy::Lww, a, sa).cells.synced(ns, ConflictPolicy::Lww, b, sb).cells
            == c.synced(ns, ConflictPolicy::Lww, b, sb).cells.synced(ns, ConflictPolicy::Lww, a, sa).cells,
{
    let p = ConflictPolicy::Lww;
    let ab = c.synced(ns, p, a, sa).cells.synced(ns, p, b, sb).cells;
    let ba = c.synced(ns, p, b, sb).cells.synced(ns, p, a, sa).cells;
    ordmap::lemma_lex_total(a.replica, b.replica);
    ordmap::lemma_lex_irreflexive(a.replica);
    if ordmap::lex_lt(a.replica, b.replica) && ordmap::lex_lt(b.replica, a.replica) {
        ordmap::lemma_lex_transitive(a.replica, b.replica, a.replica);
    }
    if c.index.dom().contains(a.key) {
        let v = c.index[a.key]->Lww_0;
        lemma_not_before_chain(a, b, v);
        lemma_not_before_chain(b, a, v);
    }
    if c.index.dom().contains(b.key) {
        let v = c.index[b.key]->Lww_0;
        lemma_not_before_chain(a, b, v);
        lemma_not_before_chain(b, a, v);
    }
    assert(ab.index =~= ba.index);
}

proof fn lemma_not_before_chain(a: OpV, b: OpV, v: VersionV)
    ensures
        !not_before(a.hlc, a.replica, v.hlc, v.replica) && not_before(
            b.hlc,
            b.replica,
            v.hlc,
            v.replica,
        ) ==> !not_before(a.hlc, a.replica, b.hlc, b.replica),
{
    if a.hlc == b.hlc && b.hlc == v.hlc && ordmap::lex_lt(a.replica, v.replica) && !ordmap::lex_lt(
        b.replica,
        v.replica,
    ) {
        ordmap::lemma_lex_total(b.replica, v.replica);
        if b.replica != v.replica {
            ordmap::lemma_lex_transitive(a.replica, v.replica, b.replica);
        }
    }
}

/// A tombstone wins over any synced version: the key stays unread.
pub proof fn law_tombstone_wins(c: CellsV, ns: Seq<char>, policy: ConflictPolicy, o: OpV, seq: u64)
    requires
        c.tombs.dom().contains(o.key),
    ensures
        c.synced(ns, policy, o, seq).cells.get(o.key) is None,
{
}

/// A local write is read back, with its own value where the namespace keeps one
/// version, even where the key was deleted before.
pub proof fn law_local_write_reads_back(c: CellsV, ns: Seq<char>, o: OpV, seq: u64)
    requires
        o.tag == TAG_PUT || o.tag == TAG_PUT_TTL,
    ensures
        c.local(ns, ConflictPolicy::Lww, o, seq).fault is None,
        c.local(ns, ConflictPolicy::Lww, o, seq).cells.get(o.key) == Some(
            EntryV::Lww(version_of(o, seq)),
        ),
{
}

/// A deleted key reads as absent, by either way of applying the delete.
pub proof fn law_deleted_is_gone(c: CellsV, ns: Seq<char>, policy: ConflictPolicy, o: OpV, seq: u64)
    requires
        o.tag == TAG_DEL,
    ensures
        c.local(ns, policy, o, seq).cells.get(o.key) is None,
        c.synced(ns, policy, o, seq).cells.get(o.key) is None,
{
}

/// A register keeps every version that it was given.
pub proof fn law_register_keeps_all(c: CellsV, ns: Seq<char>, o: OpV, seq: u64)
    requires
        o.tag == TAG_PUT || o.tag == TAG_PUT_TTL,
        c.index.dom().contains(o.key) ==> c.index[o.key] is Register,
    ensures
        ({
            let vs = if c.index.dom().contains(o.key) {
                c.index[o.key]->Register_0
            } else {
                Seq::empty()
            };
            &&& c.synced(ns, ConflictPolicy::CrdtRegister, o, seq).cells.index[o.key]
                == EntryV::Register(vs.push(version_of(o, seq)))
            &&& c.local(ns, ConflictPolicy::CrdtRegister, o, seq).cells.get(o.key) == Some(
                EntryV::Register(vs.push(version_of(o, seq))),
            )
        }),
{
    assert(Seq::<VersionV>::empty().push(version_of(o, seq)) =~= seq![version_of(o, seq)]);
}

/// An operation touches its own key alone.
pub proof fn law_other_keys_stay(
    c: CellsV,
    ns: Seq<char>,
    policy: ConflictPolicy,
    o: OpV,
    seq: u64,
    key: Seq<u8>,
)
    requires
        key != o.key,
    ensures
        c.local(ns, policy, o, seq).cells.get(key) == c.get(key),
        c.synced(ns, policy, o, seq).cells.get(key) == c.get(key),
{
}

/// Was the first version written after the second: at a later clock, or at the same one
/// by the greater replica?
pub open spec fn later(a: VersionV, b: VersionV) -> bool {
    a.hlc > b.hlc || (a.hlc == b.hlc && ordmap::lex_lt(b.replica, a.replica))
}

/// What is seen of several versions is one of them, and none of them was written after
/// it.
pub proof fn law_latest_is_the_greatest(vs: Seq<VersionV>)
    ensures
        latest_of(vs) is Some <==> vs.len() > 0,
        vs.len() > 0 ==> exists|k: int|
            0 <= k < vs.len() && latest_of(vs) == Some(#[trigger] vs[k]) && forall|j: int|
                0 <= j < vs.len() ==> !later((#[trigger] vs[j]), vs[k]),
    decreases vs.len(),
{
    if vs.len() > 0 {
        let front = vs.drop_last();
        let last = vs[vs.len() - 1];
        law_latest_is_the_greatest(front);
        ordmap::lemma_lex_irreflexive(last.replica);
        if front.len() == 0 {
            assert(latest_of(vs) == Some(vs[0]));
        } else {
            let k = choose|k: int|
                0 <= k < front.len() && latest_of(front) == Some(#[trigger] front[k]) && forall|j: int|
                    0 <= j < front.len() ==> !later((#[trigger] front[j]), front[k]);
            let b = vs[k];
            assert(front[k] == b);
            if not_before(last.hlc, last.replica, b.hlc, b.replica) {
                assert forall|j: int| 0 <= j < vs.len() implies !later(#[trigger] vs[j], last) by {
                    if j < front.len() {
                        assert(!later(front[j], b));
                        let v = vs[j];
                        ordmap::lemma_lex_total(v.replica, b.replica);
                        lemma_write_order(last.hlc, last.replica, b.hlc, b.replica, v.hlc, v.replica);
                        lemma_write_order(v.hlc, v.replica, last.hlc, last.replica, b.hlc, b.replica);
                    }
                }
                assert(latest_of(vs) == Some(vs[vs.len() - 1]));
            } else {
                assert forall|j: int| 0 <= j < vs.len() implies !later(#[trigger] vs[j], b) by {
                    if j < front.len() {
                        assert(!later(front[j], b));
                    } else {
                        ordmap::lemma_lex_total(last.replica, b.replica);
                        if ordmap::lex_lt(last.replica, b.replica) && ordmap::lex_lt(b.replica, last.replica) {
                            ordmap::lemma_lex_asymmetric(last.replica, b.replica);
                        }
                    }
                }
                assert(latest_of(vs) == Some(vs[k]));
            }
        }
    }
}

} // verus!
