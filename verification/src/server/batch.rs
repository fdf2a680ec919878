//! Many operations in one request: one authorization, one record.

use crate::caps::{CapV, PermSet};
use crate::node::ident::PublicKey;
use crate::ns::{account_write, ensure_l3_namespace};
use crate::schema;
use crate::schema::OddPairs;
use crate::server::data;
use crate::server::data::{check_value, latest_value};
use crate::server::reply;
use crate::server::reply::{refuse, OpOut, OpOutV, Reply, ReplyV};
use crate::server::state;
use crate::server::state::{ApiV, AppState, AuthCaps, Outcome};
use crate::storage::model;
use crate::storage::model::StoreV;
use crate::storage::record;
use crate::storage::record::{OpV, Record, TAG_DEL, TAG_PUT, TAG_PUT_TTL};
use crate::storage::store::Store;
use crate::text;
use crate::util;
use vstd::prelude::*;

verus! {

/// How many operations a batch may hold.
pub const MAX_BATCH_OPS: usize = 1000;

/// How many bytes the operations of a batch may take in its record: a larger record
/// could not reach the peers.
pub const MAX_BATCH_BYTES: u64 = 6_291_456;

/// How many bytes the reads of a batch may give back.
pub const MAX_GET_BYTES: u64 = 8_388_608;

/// An operation of a batch.
pub enum BatchOp {
    Get { key: String },
    Put { key: String, value_b64: String, ttl: u64 },
    Del { key: String },
    /// One that could not be read, with the reason.
    Bad(String),
}

/// An operation of a batch in the model.
#[allow(inconsistent_fields)]
pub enum BatchOpV {
    Get { key: Seq<char> },
    Put { key: Seq<char>, value_b64: Seq<char>, ttl: u64 },
    Del { key: Seq<char> },
    Bad(Seq<char>),
}

impl View for BatchOp {
    type V = BatchOpV;

    open spec fn view(&self) -> BatchOpV {
        match self {
            BatchOp::Get { key } => BatchOpV::Get { key: key@ },
            BatchOp::Put { key, value_b64, ttl } => BatchOpV::Put { key: key@, value_b64: value_b64@, ttl: *ttl },
            BatchOp::Del { key } => BatchOpV::Del { key: key@ },
            BatchOp::Bad(m) => BatchOpV::Bad(m@),
        }
    }
}

/// The views of some operations.
pub open spec fn op_views(ops: Seq<BatchOp>) -> Seq<BatchOpV> {
    Seq::new(ops.len(), |i: int| ops[i]@)
}

/// What is to come of an operation.
pub enum Plan {
    Read(Vec<u8>),
    Write(Record),
    Fail(String),
}

/// What is to come of an operation, in the model.
pub enum PlanV {
    Read(Seq<u8>),
    Write(OpV),
    Fail(Seq<char>),
}

impl View for Plan {
    type V = PlanV;

    open spec fn view(&self) -> PlanV {
        match self {
            Plan::Read(k) => PlanV::Read(k@),
            Plan::Write(r) => PlanV::Write(r.op()),
            Plan::Fail(m) => PlanV::Fail(m@),
        }
    }
}

/// The views of some plans.
pub open spec fn plan_views(ps: Seq<Plan>) -> Seq<PlanV> {
    Seq::new(ps.len(), |i: int| ps[i]@)
}

/// When a write with a time to live in seconds expires; 0 is never.
pub open spec fn expires_after(ttl: u64, now_ms: u64) -> u64 {
    if ttl > 0 {
        ((now_ms + ttl * 1000) % 0x1_0000_0000_0000_0000) as u64
    } else {
        0
    }
}

/// Who writes, where and when.
pub struct WriterV {
    pub ns: Seq<char>,
    pub root: Seq<u8>,
    pub principal: Seq<u8>,
    pub odd: Set<(u64, u64)>,
    pub now_ms: u64,
}

/// What is to come of an operation; `clock` is the one a write gets.
pub open spec fn planned(op: BatchOpV, s: StoreV, w: WriterV, clock: u64) -> PlanV {
    match op {
        BatchOpV::Get { key } => PlanV::Read(text::utf8(key)),
        BatchOpV::Bad(m) => PlanV::Fail(m),
        BatchOpV::Del { key } => PlanV::Write(model::del_op(text::utf8(key), clock, w.root, w.principal)),
        BatchOpV::Put { key, value_b64, ttl } => match util::b64_bytes(
            false,
            util::unpadded(text::utf8(value_b64)),
        ) {
            Err(_) => PlanV::Fail("bad_value_b64"@),
            Ok(v) => match data::violation(s, w.ns, v, w.odd) {
                Some(m) => PlanV::Fail(m),
                None => PlanV::Write(
                    model::put_op(
                        text::utf8(key),
                        v,
                        clock,
                        w.root,
                        w.principal,
                        expires_after(ttl, w.now_ms),
                    ),
                ),
            },
        },
    }
}

/// Plans, and the last clock that was issued for them.
pub struct PlansV {
    pub plans: Seq<PlanV>,
    pub clock: u64,
}

/// What is to come of every operation, in order; each write gets a clock of its own.
pub open spec fn plan_all(ops: Seq<BatchOpV>, s: StoreV, w: WriterV, clock: u64) -> PlansV
    decreases ops.len(),
{
    if ops.len() == 0 {
        PlansV { plans: Seq::empty(), clock }
    } else {
        let before = plan_all(ops.drop_last(), s, w, clock);
        let next = crate::node::hlc::issued(before.clock, w.now_ms);
        let p = planned(ops.last(), s, w, next);
        PlansV {
            plans: before.plans.push(p),
            clock: if p is Write {
                next
            } else {
                before.clock
            },
        }
    }
}

/// The writes of some plans, in order.
pub open spec fn writes_in(plans: Seq<PlanV>) -> Seq<OpV>
    decreases plans.len(),
{
    if plans.len() == 0 {
        Seq::empty()
    } else {
        match plans.last() {
            PlanV::Write(o) => writes_in(plans.drop_last()).push(o),
            _ => writes_in(plans.drop_last()),
        }
    }
}

/// The bytes that operations take in a record.
pub open spec fn weight(ops: Seq<OpV>) -> int
    decreases ops.len(),
{
    if ops.len() == 0 {
        0
    } else {
        weight(ops.drop_last()) + ops.last().frame().len()
    }
}

/// Plans after the quota was charged, and the store with the charge.
pub struct ChargedV {
    pub plans: Seq<PlanV>,
    pub store: StoreV,
}

/// Charge every put in order; one that would go over the quota fails.
pub open spec fn charge_all(plans: Seq<PlanV>, s: StoreV, n: Seq<char>, limit: u64) -> ChargedV
    decreases plans.len(),
{
    if plans.len() == 0 {
        ChargedV { plans: Seq::empty(), store: s }
    } else {
        let before = charge_all(plans.drop_last(), s, n, limit);
        match plans.last() {
            PlanV::Write(o) => if o.tag == TAG_DEL {
                ChargedV { plans: before.plans.push(plans.last()), store: before.store }
            } else {
                match data::charged(before.store, n, o.value.len() as int, limit) {
                    Some(t) => ChargedV { plans: before.plans.push(plans.last()), store: t },
                    None => ChargedV {
                        plans: before.plans.push(PlanV::Fail("quota_exceeded"@)),
                        store: before.store,
                    },
                }
            },
            _ => ChargedV { plans: before.plans.push(plans.last()), store: before.store },
        }
    }
}

/// What came of some plans; how many bytes were read, and whether they are used up.
pub struct ResultsV {
    pub out: Seq<OpOutV>,
    pub total: int,
    pub over: bool,
}

/// What came of every plan. Reads see the whole batch; the first that would give back
/// too much fails, and so does every one behind it.
pub open spec fn results_of(plans: Seq<PlanV>, s: StoreV, n: Seq<char>, seq: u64, now_ms: u64) -> ResultsV
    decreases plans.len(),
{
    if plans.len() == 0 {
        ResultsV { out: Seq::empty(), total: 0, over: false }
    } else {
        let b = results_of(plans.drop_last(), s, n, seq, now_ms);
        match plans.last() {
            PlanV::Fail(m) => ResultsV { out: b.out.push(OpOutV::Failed(m)), ..b },
            PlanV::Write(o) => ResultsV {
                out: b.out.push(
                    if o.tag == TAG_DEL {
                        OpOutV::Deleted
                    } else {
                        OpOutV::Put(seq)
                    },
                ),
                ..b
            },
            PlanV::Read(k) => if b.over {
                ResultsV { out: b.out.push(OpOutV::Failed("batch_get_response_too_large"@)), ..b }
            } else {
                match read_value(s, n, k, now_ms) {
                    None => ResultsV { out: b.out.push(OpOutV::Got(None)), ..b },
                    Some(v) => if b.total + v.len() > MAX_GET_BYTES {
                        ResultsV {
                            out: b.out.push(OpOutV::Failed("batch_get_response_too_large"@)),
                            over: true,
                            ..b
                        }
                    } else {
                        ResultsV {
                            out: b.out.push(OpOutV::Got(Some(util::b64_text(false, v)))),
                            total: b.total + v.len(),
                            ..b
                        }
                    },
                }
            },
        }
    }
}

/// The value that a read sees.
pub open spec fn read_value(s: StoreV, n: Seq<char>, k: Seq<u8>, now_ms: u64) -> Option<Seq<u8>> {
    match s.get(n, k) {
        None => None,
        Some(e) => data::live_value(e, now_ms),
    }
}

/// Run a batch on a namespace that is there: plan, weigh, charge, write one record, read.
pub open spec fn run_batch(a: ApiV, ops: Seq<BatchOpV>, w: WriterV) -> Outcome {
    let p = plan_all(ops, a.store, w, a.clock);
    let timed = ApiV { clock: p.clock, ..a };
    if weight(writes_in(p.plans)) > MAX_BATCH_BYTES {
        Outcome { api: timed, reply: reply::refusal(413, "batch_too_large"@) }
    } else {
        let c = charge_all(p.plans, a.store, w.ns, a.quota);
        let writes = writes_in(c.plans);
        if writes.len() == 0 {
            Outcome {
                api: state::with_store(timed, c.store),
                reply: ReplyV::Results(results_of(c.plans, c.store, w.ns, 0, w.now_ms).out),
            }
        } else {
            let step = c.store.put_batch(w.ns, writes);
            Outcome {
                api: state::with_store(timed, step.store),
                reply: match step.result {
                    Err(_) => reply::refusal(500, "internal"@),
                    Ok(seq) => ReplyV::Results(results_of(c.plans, step.store, w.ns, seq, w.now_ms).out),
                },
            }
        }
    }
}

/// A batch of a request.
pub open spec fn batch(
    a: ApiV,
    cs: Option<Seq<CapV>>,
    n: Seq<char>,
    ops: Seq<BatchOpV>,
    odd: Set<(u64, u64)>,
    now_ms: u64,
) -> Outcome {
    let g = data::namespace_gate(a, cs, n, 2, now_ms);
    match g.result {
        Err(r) => Outcome { api: g.api, reply: r },
        Ok(p) => if ops.len() == 0 || ops.len() > MAX_BATCH_OPS {
            Outcome { api: g.api, reply: reply::refusal(400, "bad_request"@) }
        } else {
            match data::opened(a.store, n, p) {
                None => Outcome { api: g.api, reply: reply::refusal(404, "namespace_not_found"@) },
                Some(s) => run_batch(
                    state::with_store(g.api, s),
                    ops,
                    WriterV { ns: n, root: a.root, principal: p, odd, now_ms },
                ),
            }
        },
    }
}

// ---------- steps ----------

fn expires_in(ttl: u64, now_ms: u64) -> (r: u64)
    ensures
        r == expires_after(ttl, now_ms),
{
    if ttl > 0 {
        ((now_ms as u128 + ttl as u128 * 1000) % 0x1_0000_0000_0000_0000) as u64
    } else {
        0
    }
}

impl AppState {
    /// Plan one operation with the clock that comes next.
    fn plan_one(&self, op: &BatchOp, n: &str, principal: &PublicKey, odd: &OddPairs, now_ms: u64, at: u64) -> (p: Plan)
        requires
            self.wf(),
        ensures
            p@ == planned(
                op@,
                self.store@,
                WriterV {
                    ns: n@,
                    root: self.root@,
                    principal: principal@,
                    odd: schema::odd_set(odd@),
                    now_ms,
                },
                at,
            ),
            p matches Plan::Write(r) ==> r.op().shaped() && record::is_op_tag(r.tag) && r.op().canonical(),
    {
        match op {
            BatchOp::Get { key } => Plan::Read(text::bytes_of(key.as_str())),
            BatchOp::Bad(m) => Plan::Fail(text::copy_text(m.as_str())),
            BatchOp::Del { key } => {
                let r = Record {
                    tag: TAG_DEL,
                    key: text::bytes_of(key.as_str()),
                    hlc: at,
                    replica: self.root.to_bytes(),
                    author: principal.to_bytes(),
                    value: Vec::new(),
                    expires_at: 0,
                    ops: Vec::new(),
                };
                assert(r.value@ =~= Seq::empty());
                Plan::Write(r)
            },
            BatchOp::Put { key, value_b64, ttl } => match util::b64_decode(value_b64.as_str()) {
                Err(_) => Plan::Fail(text::copy_text("bad_value_b64")),
                Ok(v) => match check_value(&self.store, n, v.as_slice(), odd) {
                    Some(m) => Plan::Fail(m),
                    None => {
                        let e: u64 = expires_in(*ttl, now_ms);
                        Plan::Write(
                            Record {
                                tag: if e == 0 {
                                    TAG_PUT
                                } else {
                                    TAG_PUT_TTL
                                },
                                key: text::bytes_of(key.as_str()),
                                hlc: at,
                                replica: self.root.to_bytes(),
                                author: principal.to_bytes(),
                                value: v,
                                expires_at: e,
                                ops: Vec::new(),
                            },
                        )
                    },
                },
            },
        }
    }

    /// Plan every operation.
    fn plan_ops(&mut self, ops: &Vec<BatchOp>, n: &str, principal: &PublicKey, odd: &OddPairs, now_ms: u64) -> (r: Vec<
        Plan,
    >)
        requires
            old(self).wf(),
        ensures
            final(self).wf(),
            final(self).store.is_durable() == old(self).store.is_durable(),
            well_planned(r@),
            ({
                let w = WriterV {
                    ns: n@,
                    root: old(self).root@,
                    principal: principal@,
                    odd: schema::odd_set(odd@),
                    now_ms,
                };
                let want = plan_all(op_views(ops@), old(self)@.store, w, old(self)@.clock);
                &&& plan_views(r@) == want.plans
                &&& final(self)@ == (ApiV { clock: want.clock, ..old(self)@ })
                &&& final(self).store == old(self).store
            }),
    {
        let ghost w = WriterV {
            ns: n@,
            root: self.root@,
            principal: principal@,
            odd: schema::odd_set(odd@),
            now_ms,
        };
        let ghost all = op_views(ops@);
        let ghost start = self@;
        let mut out: Vec<Plan> = Vec::new();
        let mut i: usize = 0;
        proof {
            assert(all.take(0) =~= Seq::empty());
            assert(plan_views(out@) =~= Seq::empty());
        }
        while i < ops.len()
            invariant
                i <= ops@.len(),
                self.wf(),
                all == op_views(ops@),
                start == old(self)@,
                self.store == old(self).store,
                self.root@ == start.root,
                w == (WriterV {
                    ns: n@,
                    root: start.root,
                    principal: principal@,
                    odd: schema::odd_set(odd@),
                    now_ms,
                }),
                well_planned(out@),
                plan_views(out@) == plan_all(all.take(i as int), start.store, w, start.clock).plans,
                self@ == (ApiV { clock: plan_all(all.take(i as int), start.store, w, start.clock).clock, ..start }),
            decreases ops@.len() - i,
        {
            let ghost had = plan_views(out@);
            proof {
                assert(all.take(i + 1).drop_last() =~= all.take(i as int));
                assert(all.take(i + 1).last() == ops@[i as int]@);
            }
            let next = crate::node::hlc::Hlc::issue(self.clock, now_ms);
            let p = self.plan_one(&ops[i], n, principal, odd, now_ms, next.to_u64());
            if matches!(p, Plan::Write(_)) {
                self.clock = next;
            }
            let ghost pv = p@;
            out.push(p);
            assert(plan_views(out@) =~= had.push(pv));
            i += 1;
        }
        assert(all.take(i as int) =~= all);
        out
    }
}

/// Every write has the shape of a write.
pub open spec fn well_planned(ps: Seq<Plan>) -> bool {
    forall|i: int| 0 <= i < ps.len() ==> well_shaped(#[trigger] ps[i])
}

pub open spec fn well_shaped(p: Plan) -> bool {
    p matches Plan::Write(r) ==> r.op().shaped() && record::is_op_tag(r.tag) && r.op().canonical()
}

/// The bytes that the writes take in a record.
fn weigh(ps: &Vec<Plan>) -> (r: u128)
    requires
        well_planned(ps@),
        ps@.len() <= MAX_BATCH_OPS,
    ensures
        r == weight(writes_in(plan_views(ps@))),
{
    let ghost all = plan_views(ps@);
    let mut sum: u128 = 0;
    let mut i: usize = 0;
    assert(all.take(0) =~= Seq::empty());
    while i < ps.len()
        invariant
            i <= ps@.len() <= MAX_BATCH_OPS,
            all == plan_views(ps@),
            well_planned(ps@),
            sum == weight(writes_in(all.take(i as int))),
            sum <= i * 0x4_0000_0000_0000_0000,
        decreases ps@.len() - i,
    {
        let ghost had = writes_in(all.take(i as int));
        proof {
            assert(all.take(i + 1).drop_last() =~= all.take(i as int));
            assert(all.take(i + 1).last() == all[i as int]);
            assert(well_shaped(ps@[i as int]));
        }
        match &ps[i] {
            Plan::Write(r) => {
                proof {
                    let o = r.op();
                    lemma_frame_len(o);
                    assert(had.push(o).drop_last() =~= had);
                }
                sum = sum + 85 + r.key.len() as u128 + r.value.len() as u128 + (if r.tag == TAG_PUT_TTL {
                    8u128
                } else {
                    0u128
                });
            },
            _ => {},
        }
        i += 1;
    }
    assert(all.take(i as int) =~= all);
    sum
}

proof fn lemma_frame_len(o: OpV)
    requires
        o.shaped(),
    ensures
        o.frame().len() == 85 + o.key.len() + o.value.len() + (if o.tag == TAG_PUT_TTL {
            8int
        } else {
            0
        }),
{
    vstd::bytes::lemma_auto_spec_u64_to_from_le_bytes();
    vstd::bytes::lemma_auto_spec_u32_to_from_le_bytes();
}

/// Charge every put.
fn charge(store: &mut Store, ps: Vec<Plan>, n: &str, limit: u64) -> (r: Vec<Plan>)
    requires
        old(store).wf(),
        well_planned(ps@),
    ensures
        final(store).wf(),
        final(store).is_durable() == old(store).is_durable(),
        well_planned(r@),
        ({
            let want = charge_all(plan_views(ps@), old(store)@, n@, limit);
            plan_views(r@) == want.plans && final(store)@ == want.store
        }),
{
    let ghost all = plan_views(ps@);
    let ghost start = store@;
    let ghost given = ps@;
    let mut rest = ps;
    let mut out: Vec<Plan> = Vec::new();
    let n_all: usize = rest.len();
    let mut i: usize = 0;
    proof {
        assert(all.take(0) =~= Seq::empty());
        assert(plan_views(out@) =~= Seq::empty());
        assert(rest@ =~= given.skip(0));
    }
    while i < n_all
        invariant
            i <= n_all == given.len(),
            store.wf(),
            store.is_durable() == old(store).is_durable(),
            all == plan_views(given),
            start == old(store)@,
            well_planned(given),
            rest@ == given.skip(i as int),
            well_planned(out@),
            plan_views(out@) == charge_all(all.take(i as int), start, n@, limit).plans,
            store@ == charge_all(all.take(i as int), start, n@, limit).store,
        decreases n_all - i,
    {
        let ghost had = plan_views(out@);
        proof {
            assert(all.take(i + 1).drop_last() =~= all.take(i as int));
            assert(all.take(i + 1).last() == given[i as int]@);
            assert(well_shaped(given[i as int]));
        }
        let p = rest.remove(0);
        proof {
            assert(p == given[i as int]);
            assert(rest@ =~= given.skip(i + 1));
        }
        let q = match p {
            Plan::Write(r) => {
                if r.tag == TAG_DEL {
                    Plan::Write(r)
                } else {
                    match account_write(store, n, r.value.len() as u64, limit) {
                        Ok(_) => Plan::Write(r),
                        Err(_) => Plan::Fail(text::copy_text("quota_exceeded")),
                    }
                }
            },
            other => other,
        };
        let ghost qv = q@;
        assert(well_shaped(q));
        out.push(q);
        assert(plan_views(out@) =~= had.push(qv));
        i += 1;
    }
    assert(all.take(i as int) =~= all);
    out
}

/// The records of the writes, in order.
fn records_of(ps: &Vec<Plan>) -> (r: Vec<Record>)
    ensures
        record::ops_of(r@) == writes_in(plan_views(ps@)),
{
    let ghost all = plan_views(ps@);
    let mut out: Vec<Record> = Vec::new();
    let mut i: usize = 0;
    proof {
        assert(all.take(0) =~= Seq::empty());
        assert(record::ops_of(out@) =~= Seq::empty());
    }
    while i < ps.len()
        invariant
            i <= ps@.len(),
            all == plan_views(ps@),
            record::ops_of(out@) == writes_in(all.take(i as int)),
        decreases ps@.len() - i,
    {
        let ghost had = record::ops_of(out@);
        proof {
            assert(all.take(i + 1).drop_last() =~= all.take(i as int));
            assert(all.take(i + 1).last() == ps@[i as int]@);
        }
        match &ps[i] {
            Plan::Write(r) => {
                let c = r.clone();
                let ghost o = c.op();
                out.push(c);
                assert(record::ops_of(out@) =~= had.push(o));
            },
            _ => {},
        }
        i += 1;
    }
    assert(all.take(i as int) =~= all);
    out
}

/// The views of some results.
pub open spec fn out_views(l: Seq<OpOut>) -> Seq<OpOutV> {
    Seq::new(l.len(), |i: int| l[i]@)
}

/// What came of every plan.
fn collect_results(store: &Store, ps: &Vec<Plan>, n: &str, seq: u64, now_ms: u64) -> (r: Vec<OpOut>)
    requires
        store.wf(),
    ensures
        out_views(r@) == results_of(plan_views(ps@), store@, n@, seq, now_ms).out,
{
    let ghost all = plan_views(ps@);
    let mut out: Vec<OpOut> = Vec::new();
    let mut total: u64 = 0;
    let mut over = false;
    let mut i: usize = 0;
    proof {
        assert(all.take(0) =~= Seq::empty());
        assert(out_views(out@) =~= Seq::empty());
    }
    while i < ps.len()
        invariant
            i <= ps@.len(),
            store.wf(),
            all == plan_views(ps@),
            total <= MAX_GET_BYTES,
            ({
                let b = results_of(all.take(i as int), store@, n@, seq, now_ms);
                out_views(out@) == b.out && total == b.total && over == b.over
            }),
        decreases ps@.len() - i,
    {
        let ghost had = out_views(out@);
        proof {
            assert(all.take(i + 1).drop_last() =~= all.take(i as int));
            assert(all.take(i + 1).last() == ps@[i as int]@);
        }
        let one = match &ps[i] {
            Plan::Fail(m) => OpOut::Failed(text::copy_text(m.as_str())),
            Plan::Write(r) => if r.tag == TAG_DEL {
                OpOut::Deleted
            } else {
                OpOut::Put(seq)
            },
            Plan::Read(k) => {
                if over {
                    OpOut::Failed(text::copy_text("batch_get_response_too_large"))
                } else {
                    let v = match store.get(n, k) {
                        None => None,
                        Some(e) => latest_value(e, now_ms),
                    };
                    match v {
                        None => OpOut::Got(None),
                        Some(v) => if v.len() as u64 > MAX_GET_BYTES - total {
                            over = true;
                            OpOut::Failed(text::copy_text("batch_get_response_too_large"))
                        } else {
                            total = total + v.len() as u64;
                            OpOut::Got(Some(util::b64_encode(v.as_slice())))
                        },
                    }
                }
            },
        };
        let ghost ov = one@;
        out.push(one);
        assert(out_views(out@) =~= had.push(ov));
        i += 1;
    }
    assert(all.take(i as int) =~= all);
    out
}

impl AppState {
    /// Run a batch of a principal that was let in, on a namespace that is there.
    fn run_ops(&mut self, ops: &Vec<BatchOp>, n: &str, principal: &PublicKey, odd: &OddPairs, now_ms: u64) -> (r: Reply)
        requires
            old(self).wf(),
            ops@.len() <= MAX_BATCH_OPS,
        ensures
            final(self).wf(),
            final(self).store.is_durable() == old(self).store.is_durable(),
            ({
                let w = WriterV {
                    ns: n@,
                    root: old(self).root@,
                    principal: principal@,
                    odd: schema::odd_set(odd@),
                    now_ms,
                };
                let want = run_batch(old(self)@, op_views(ops@), w);
                final(self)@ == want.api && r@ == want.reply
            }),
    {
        let ghost w = WriterV {
            ns: n@,
            root: self.root@,
            principal: principal@,
            odd: schema::odd_set(odd@),
            now_ms,
        };
        let ghost start = self@;
        let plans = self.plan_ops(ops, n, principal, odd, now_ms);
        proof {
            lemma_plan_count(op_views(ops@), start.store, w, start.clock);
            assert(plan_views(plans@).len() == plans@.len());
            assert(op_views(ops@).len() == ops@.len());
        }
        if weigh(&plans) > MAX_BATCH_BYTES as u128 {
            return refuse(413, "batch_too_large");
        }
        let plans = charge(&mut self.store, plans, n, self.default_quota);
        let records = records_of(&plans);
        assert(record::ops_of(records@).len() == records@.len());
        let seq: u64 = if records.len() == 0 {
            0
        } else {
            match self.store.put_batch(n, &records) {
                Err(_) => {
                    return refuse(500, "internal");
                },
                Ok(s) => s,
            }
        };
        let out = collect_results(&self.store, &plans, n, seq, now_ms);
        assert(Reply::Results(out)@->Results_0 =~= out_views(out@));
        Reply::Results(out)
    }

    /// `POST` of a batch.
    pub fn handle_batch(
        &mut self,
        caps: Option<&AuthCaps>,
        n: &str,
        ops: &Vec<BatchOp>,
        odd: &OddPairs,
        now_ms: u64,
    ) -> (r: Reply)
        requires
            old(self).wf(),
        ensures
            final(self).wf(),
            final(self).store.is_durable() == old(self).store.is_durable(),
            ({
                let want = batch(
                    old(self)@,
                    state::held(caps),
                    n@,
                    op_views(ops@),
                    schema::odd_set(odd@),
                    now_ms,
                );
                final(self)@ == want.api && r@ == want.reply
            }),
    {
        match self.auth_namespace(caps, n, PermSet::write(), now_ms) {
            Err(e) => e,
            Ok(principal) => {
                assert(op_views(ops@).len() == ops@.len());
                if ops.len() == 0 || ops.len() > MAX_BATCH_OPS {
                    return refuse(400, "bad_request");
                }
                if state::is_owned(n) {
                    match ensure_l3_namespace(&mut self.store, &principal) {
                        Ok(_) => {},
                        Err(e) => {
                            return state::auth_to_response(e);
                        },
                    }
                } else if self.store.policy(n).is_none() {
                    return refuse(404, "namespace_not_found");
                }
                self.run_ops(ops, n, &principal, odd, now_ms)
            },
        }
    }
}

proof fn lemma_plan_count(ops: Seq<BatchOpV>, s: StoreV, w: WriterV, clock: u64)
    ensures
        plan_all(ops, s, w, clock).plans.len() == ops.len(),
    decreases ops.len(),
{
    if ops.len() > 0 {
        lemma_plan_count(ops.drop_last(), s, w, clock);
    }
}

// ---------- laws ----------

/// Is the plan one for the operation?
spec fn plans_for(op: BatchOpV, p: PlanV) -> bool {
    match op {
        BatchOpV::Get { key } => p == PlanV::Read(text::utf8(key)),
        BatchOpV::Bad(m) => p == PlanV::Fail(m),
        BatchOpV::Del { key } => p matches PlanV::Write(o) && o.tag == TAG_DEL && o.key == text::utf8(key),
        BatchOpV::Put { key, value_b64, ttl } => p is Fail || (p matches PlanV::Write(o) && o.tag != TAG_DEL && o.key
            == text::utf8(key)),
    }
}

proof fn lemma_plans(ops: Seq<BatchOpV>, s: StoreV, w: WriterV, clock: u64, i: int)
    requires
        0 <= i < ops.len(),
    ensures
        plan_all(ops, s, w, clock).plans.len() == ops.len(),
        plans_for(ops[i], plan_all(ops, s, w, clock).plans[i]),
    decreases ops.len(),
{
    let front = ops.drop_last();
    lemma_plan_count(front, s, w, clock);
    if i < front.len() {
        lemma_plans(front, s, w, clock, i);
        assert(front[i] == ops[i]);
    }
}

proof fn lemma_charges(plans: Seq<PlanV>, s: StoreV, n: Seq<char>, limit: u64, op: BatchOpV, i: int)
    requires
        0 <= i < plans.len(),
        plans_for(op, plans[i]),
    ensures
        charge_all(plans, s, n, limit).plans.len() == plans.len(),
        plans_for(op, charge_all(plans, s, n, limit).plans[i]),
    decreases plans.len(),
{
    lemma_charge_count(plans, s, n, limit);
    let front = plans.drop_last();
    lemma_charge_count(front, s, n, limit);
    if i < front.len() {
        lemma_charges(front, s, n, limit, op, i);
    }
}

proof fn lemma_charge_count(plans: Seq<PlanV>, s: StoreV, n: Seq<char>, limit: u64)
    ensures
        charge_all(plans, s, n, limit).plans.len() == plans.len(),
    decreases plans.len(),
{
    if plans.len() > 0 {
        lemma_charge_count(plans.drop_last(), s, n, limit);
    }
}

proof fn lemma_result_count(plans: Seq<PlanV>, s: StoreV, n: Seq<char>, seq: u64, now_ms: u64)
    ensures
        results_of(plans, s, n, seq, now_ms).out.len() == plans.len(),
    decreases plans.len(),
{
    if plans.len() > 0 {
        lemma_result_count(plans.drop_last(), s, n, seq, now_ms);
    }
}

/// A read that would give back too much.
pub open spec fn too_much() -> OpOutV {
    OpOutV::Failed("batch_get_response_too_large"@)
}

/// What a read of the key gives back.
pub open spec fn got(s: StoreV, n: Seq<char>, k: Seq<u8>, now_ms: u64) -> OpOutV {
    OpOutV::Got(
        match read_value(s, n, k, now_ms) {
            Some(v) => Some(util::b64_text(false, v)),
            None => None,
        },
    )
}

/// What came of a plan stands in its place: a read gives back what is stored when the
/// whole batch is, or fails as one that would give back too much.
proof fn lemma_result_at(plans: Seq<PlanV>, s: StoreV, n: Seq<char>, seq: u64, now_ms: u64, i: int)
    requires
        0 <= i < plans.len(),
    ensures
        ({
            let out = results_of(plans, s, n, seq, now_ms).out;
            &&& out.len() == plans.len()
            &&& match plans[i] {
                PlanV::Fail(m) => out[i] == OpOutV::Failed(m),
                PlanV::Write(o) => out[i] == if o.tag == TAG_DEL {
                    OpOutV::Deleted
                } else {
                    OpOutV::Put(seq)
                },
                PlanV::Read(k) => if results_of(plans.take(i), s, n, seq, now_ms).over {
                    out[i] == too_much()
                } else {
                    out[i] == too_much() || out[i] == got(s, n, k, now_ms)
                },
            }
        }),
    decreases plans.len(),
{
    let front = plans.drop_last();
    lemma_result_count(plans, s, n, seq, now_ms);
    lemma_result_count(front, s, n, seq, now_ms);
    if i < front.len() {
        lemma_result_at(front, s, n, seq, now_ms, i);
        assert(front.take(i) =~= plans.take(i));
    } else {
        assert(front =~= plans.take(i));
    }
}

/// Is it an answer to the operation? `s` is the store after the whole batch.
pub open spec fn answers(op: BatchOpV, out: OpOutV, s: StoreV, n: Seq<char>, now_ms: u64) -> bool {
    match op {
        BatchOpV::Get { key } => out == too_much() || out == got(s, n, text::utf8(key), now_ms),
        BatchOpV::Bad(m) => out == OpOutV::Failed(m),
        BatchOpV::Del { key } => out == OpOutV::Deleted,
        BatchOpV::Put { key, value_b64, ttl } => out is Failed || out is Put,
    }
}

/// The results of a batch stand in the order of its operations, one for each, and each
/// is an answer to its operation; a failed one stands in its place and stops no other.
/// Reads see the fully applied batch.
pub proof fn law_results_are_aligned(a: ApiV, ops: Seq<BatchOpV>, w: WriterV, i: int)
    requires
        run_batch(a, ops, w).reply is Results,
        0 <= i < ops.len(),
    ensures
        ({
            let after = run_batch(a, ops, w);
            &&& after.reply->Results_0.len() == ops.len()
            &&& answers(ops[i], after.reply->Results_0[i], after.api.store, w.ns, w.now_ms)
        }),
{
    let p = plan_all(ops, a.store, w, a.clock);
    let c = charge_all(p.plans, a.store, w.ns, a.quota);
    lemma_plans(ops, a.store, w, a.clock, i);
    lemma_charges(p.plans, a.store, w.ns, a.quota, ops[i], i);
    let writes = writes_in(c.plans);
    if writes.len() == 0 {
        lemma_result_at(c.plans, c.store, w.ns, 0, w.now_ms, i);
    } else {
        let step = c.store.put_batch(w.ns, writes);
        lemma_result_at(c.plans, step.store, w.ns, step.result->Ok_0, w.now_ms, i);
    }
}

/// A batch that is too large is refused before anything is charged or written.
pub proof fn law_too_large_changes_nothing(a: ApiV, ops: Seq<BatchOpV>, w: WriterV)
    requires
        weight(writes_in(plan_all(ops, a.store, w, a.clock).plans)) > MAX_BATCH_BYTES,
    ensures
        run_batch(a, ops, w).reply == reply::refusal(413, "batch_too_large"@),
        run_batch(a, ops, w).api.store == a.store,
{
}

/// What the reads of a batch give back stays within bounds, and behind the first that
/// would give back too much every read fails.
pub proof fn law_batch_reads_are_bounded(plans: Seq<PlanV>, s: StoreV, n: Seq<char>, seq: u64, now_ms: u64, i: int)
    requires
        0 <= i < plans.len(),
    ensures
        0 <= results_of(plans, s, n, seq, now_ms).total <= MAX_GET_BYTES,
        results_of(plans.take(i), s, n, seq, now_ms).over && plans[i] is Read ==> results_of(
            plans,
            s,
            n,
            seq,
            now_ms,
        ).out[i] == too_much(),
{
    lemma_total(plans, s, n, seq, now_ms);
    lemma_result_at(plans, s, n, seq, now_ms, i);
}

proof fn lemma_total(plans: Seq<PlanV>, s: StoreV, n: Seq<char>, seq: u64, now_ms: u64)
    ensures
        0 <= results_of(plans, s, n, seq, now_ms).total <= MAX_GET_BYTES,
    decreases plans.len(),
{
    if plans.len() > 0 {
        lemma_total(plans.drop_last(), s, n, seq, now_ms);
    }
}

/// Whatever a batch writes is one record more in the log, or none.
pub proof fn law_batch_adds_one_record(a: ApiV, ops: Seq<BatchOpV>, w: WriterV)
    requires
        a.store.has(w.ns),
        run_batch(a, ops, w).reply is Results,
    ensures
        run_batch(a, ops, w).api.store.space(w.ns).log.records.len() <= a.store.space(w.ns).log.records.len() + 1,
{
    let p = plan_all(ops, a.store, w, a.clock);
    let c = charge_all(p.plans, a.store, w.ns, a.quota);
    lemma_charge_keeps_log(p.plans, a.store, w.ns, a.quota);
    let writes = writes_in(c.plans);
    if writes.len() > 0 {
        model::law_batch_is_one_record(c.store, w.ns, writes);
    }
}

proof fn lemma_charge_keeps_log(plans: Seq<PlanV>, s: StoreV, n: Seq<char>, limit: u64)
    ensures
        charge_all(plans, s, n, limit).store.space(n).log == s.space(n).log || !s.has(n),
        charge_all(plans, s, n, limit).store.has(n) == s.has(n),
    decreases plans.len(),
{
    if plans.len() > 0 {
        lemma_charge_keeps_log(plans.drop_last(), s, n, limit);
    }
}

} // verus!
