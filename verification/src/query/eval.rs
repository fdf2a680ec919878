//! Running statements on a store.

use crate::clock;
use crate::hexes;
use crate::json;
use crate::node::hlc;
use crate::node::hlc::Hlc;
use crate::node::ident::PublicKey;
use crate::ordmap;
use crate::query::function;
use crate::query::function::Function;
use crate::query::syntax;
use crate::query::syntax::{Arg, ArgV, Call, CallV};
use crate::query::value;
use crate::query::value::{QueryError, QueryFault, QueryValue, ValueV};
use crate::storage::entry;
use crate::storage::entry::{ConflictPolicy, Entry, EntryV, Version, VersionV};
use crate::storage::error::{StorageError, StorageFault};
use crate::storage::model;
use crate::storage::model::{Step, StoreV};
use crate::storage::record::TAG_INDEX;
use crate::storage::rows;
use crate::storage::store;
use crate::storage::store::Store;
use crate::text;
use vstd::prelude::*;

verus! {

/// The store that statements run against: one that may be changed, or one that is only
/// read.
pub enum StoreRef<'a> {
    Read(&'a Store),
    Write(&'a mut Store),
}

/// What a statement does to the store.
#[derive(Debug, Clone, Copy, PartialEq, Eq, Structural)]
pub enum StmtKind {
    ReadOnly,
    Mutating,
}

/// What statements run in.
pub struct QueryCtx<'a> {
    pub store: StoreRef<'a>,
    /// The namespace that was chosen.
    pub scope: Option<String>,
    pub host_id: PublicKey,
    /// Does a remote caller ask? It may neither leave its namespace nor make one.
    pub remote: bool,
    /// The last clock that was issued.
    pub clock: Hlc,
}

/// The context as a value of the model.
#[verifier::ext_equal]
pub struct CtxV {
    pub store: StoreV,
    pub writable: bool,
    pub scope: Option<Seq<char>>,
    pub host: Seq<u8>,
    pub remote: bool,
    pub clock: u64,
}

/// The store as it stands.
pub open spec fn held(s: StoreRef) -> Store {
    match s {
        StoreRef::Read(r) => *r,
        StoreRef::Write(w) => *w,
    }
}

impl<'a> QueryCtx<'a> {
    pub open spec fn wf(&self) -> bool {
        held(self.store).wf()
    }

    /// The context in the model.
    pub open spec fn value(&self) -> CtxV {
        CtxV {
            store: held(self.store)@,
            writable: self.store is Write,
            scope: match self.scope {
                Some(s) => Some(s@),
                None => None,
            },
            host: self.host_id@,
            remote: self.remote,
            clock: self.clock.value(),
        }
    }

    /// The store, to be read.
    pub fn store_ref(&self) -> (r: &Store)
        ensures
            *r == held(self.store),
    {
        match &self.store {
            StoreRef::Read(s) => *s,
            StoreRef::Write(s) => &**s,
        }
    }

    /// The store, to be changed. A context that is only read has none to give: the
    /// statement fails.
    pub fn store_mut(&mut self) -> (r: Result<&mut Store, QueryError>)
        ensures
            final(self).scope == old(self).scope,
            final(self).host_id == old(self).host_id,
            final(self).remote == old(self).remote,
            final(self).clock == old(self).clock,
            match old(self).store {
                StoreRef::Read(_) => r matches Err(e) && e@ == read_only() && final(self).store == old(self).store,
                StoreRef::Write(w) => {
                    &&& r matches Ok(s) && *s == *w && held(final(self).store) == *final(s)
                    &&& final(self).store is Write
                    &&& *final(final(self).store->Write_0) == *final(w)
                },
            },
    {
        match &mut self.store {
            StoreRef::Write(s) => Ok(s),
            StoreRef::Read(_) => Err(
                QueryError::Type(
                    text::copy_text("store is read-only in this context, but the statement mutates"),
                ),
            ),
        }
    }
}

/// A context that is only read was asked to change its store.
pub open spec fn read_only() -> QueryFault {
    QueryFault::Type("store is read-only in this context, but the statement mutates"@)
}

/// A context after a statement, and what the statement returns.
pub struct Ran<T> {
    pub ctx: CtxV,
    pub result: Result<T, QueryFault>,
}

pub open spec fn fail<T>(c: CtxV, f: QueryFault) -> Ran<T> {
    Ran { ctx: c, result: Err(f) }
}

pub open spec fn done<T>(c: CtxV, v: T) -> Ran<T> {
    Ran { ctx: c, result: Ok(v) }
}

/// The context with one more clock issued.
pub open spec fn ticked(c: CtxV, wall_ms: u64) -> CtxV {
    CtxV { clock: hlc::issued(c.clock, wall_ms), ..c }
}

/// A change of the store, where it may be changed.
pub open spec fn changed<T>(c: CtxV, step: Step<T>) -> Ran<ValueV> {
    if !c.writable {
        fail(c, read_only())
    } else {
        Ran {
            ctx: CtxV { store: step.store, ..c },
            result: match step.result {
                Ok(_) => Ok(ValueV::Bool(true)),
                Err(f) => Err(QueryFault::Eval(f)),
            },
        }
    }
}

/// The visible value of an entry as text.
pub open spec fn latest_text(e: EntryV) -> Seq<char> {
    match e.latest() {
        Some(v) => text::lossy_text(v.value),
        None => Seq::empty(),
    }
}

/// Keys and their visible values, in turn.
pub open spec fn key_values(rows: Seq<(Seq<u8>, EntryV)>) -> Seq<ValueV>
    decreases rows.len(),
{
    if rows.len() == 0 {
        Seq::empty()
    } else {
        key_values(rows.drop_last()).push(ValueV::Str(text::lossy_text(rows.last().0))).push(
            ValueV::Str(latest_text(rows.last().1)),
        )
    }
}

/// Replica, clock and value of some versions, in turn.
pub open spec fn version_parts(vs: Seq<VersionV>) -> Seq<ValueV>
    decreases vs.len(),
{
    if vs.len() == 0 {
        Seq::empty()
    } else {
        version_parts(vs.drop_last()).push(ValueV::Str(hexes::hex_text(vs.last().replica))).push(
            ValueV::Num(vs.last().hlc),
        ).push(ValueV::Str(text::lossy_text(vs.last().value)))
    }
}

/// The versions of an entry.
pub open spec fn versions_of(e: EntryV) -> Seq<VersionV> {
    match e {
        EntryV::Lww(v) => seq![v],
        EntryV::Register(vs) => vs,
    }
}

/// The keys whose value has `want` in an indexed field.
pub open spec fn indexed_keys(s: StoreV, ns: Seq<char>, field: Seq<char>, want: Seq<u8>) -> Set<Seq<u8>> {
    Set::new(
        |k: Seq<u8>|
            s.has(ns) && model::fields_of(s.meta, ns).contains(field) && s.space(ns).cells.rows(field).contains(
                (want, k),
            ),
    )
}

/// Keys as texts.
pub open spec fn key_texts(ks: Seq<Seq<u8>>) -> Seq<ValueV> {
    Seq::new(ks.len(), |i: int| ValueV::Str(text::lossy_text(ks[i])))
}

/// Texts as values.
pub open spec fn text_values(ts: Seq<Seq<char>>) -> Seq<ValueV> {
    Seq::new(ts.len(), |i: int| ValueV::Str(ts[i]))
}

/// How far ahead a clock is, where it is ahead.
pub open spec fn ahead(diff: i64) -> u64 {
    if diff > 0 {
        diff as u64
    } else {
        0
    }
}

/// A definition of the indexed fields of a namespace.
pub open spec fn redefined(c: CtxV, ns: Seq<char>, def: Option<Seq<u8>>) -> Ran<ValueV> {
    changed(
        c,
        c.store.define(
            ns,
            model::index_key(ns),
            model::def_op(TAG_INDEX, def, c.clock, c.host, c.host),
            def,
        ),
    )
}

/// What a function makes of its texts, in the namespace `ns`.
pub open spec fn effect(f: Function, ns: Seq<char>, t: Seq<Seq<char>>, c: CtxV, wall_ms: u64) -> Ran<ValueV> {
    let next = ticked(c, wall_ms);
    match f {
        Function::Now => done(next, ValueV::Num(next.clock / hlc::COUNTER_RANGE)),
        Function::Hlc => done(next, ValueV::Num(next.clock)),
        Function::Before => done(c, ValueV::Null),
        Function::ClockSkew => if c.store.clocks.dom().contains(text::utf8(t[0])) {
            done(c, ValueV::Num(ahead(c.store.clocks[text::utf8(t[0])])))
        } else {
            done(c, ValueV::Null)
        },
        Function::Use => if c.store.has(t[0]) {
            done(CtxV { scope: Some(t[0]), ..c }, ValueV::Bool(true))
        } else {
            fail(c, QueryFault::Eval(StorageFault::NotFound(t[0])))
        },
        Function::CreateNs => changed(c, c.store.create(t[0], ConflictPolicy::Lww)),
        Function::Get => match c.store.get(ns, text::utf8(t[0])) {
            None => done(c, ValueV::Null),
            Some(e) => done(c, ValueV::Str(latest_text(e))),
        },
        Function::Put => changed(
            next,
            next.store.put(
                ns,
                model::put_op(text::utf8(t[0]), text::utf8(t[1]), next.clock, next.host, next.host, 0),
            ),
        ),
        Function::Del => changed(
            next,
            next.store.delete(ns, model::del_op(text::utf8(t[0]), next.clock, next.host, next.host)),
        ),
        Function::Scan => done(c, ValueV::List(key_values(store::scanned(c.store, ns, text::utf8(t[0]))))),
        Function::GetAll => match c.store.get(ns, text::utf8(t[0])) {
            None => done(c, ValueV::Null),
            Some(e) => done(c, ValueV::List(version_parts(versions_of(e)))),
        },
        Function::IndexCreate => redefined(next, ns, Some(json::strings_bytes(t))),
        Function::IndexFields => done(c, ValueV::List(text_values(model::fields_of(c.store.meta, ns)))),
        Function::IndexDrop => redefined(next, ns, None),
        Function::ByIndex => done(
            c,
            ValueV::List(key_texts(ordmap::listed(indexed_keys(c.store, ns, t[0], text::utf8(t[1]))))),
        ),
    }
}

/// A value that is no text where one was expected.
pub open spec fn not_text(name: Seq<char>, v: ValueV) -> QueryFault {
    QueryFault::Type("expected string from "@ + name + ", got "@ + value::shown(v, true))
}

/// A value that is no number where one was expected.
pub open spec fn not_number(name: Seq<char>, v: ValueV) -> QueryFault {
    QueryFault::Type("expected Num from "@ + name + ", got "@ + value::shown(v, true))
}

/// An argument as text.
pub open spec fn text_of(arg: ArgV, c: CtxV, wall_ms: u64) -> Ran<Seq<char>>
    decreases arg, 3nat, 0nat,
{
    match arg {
        ArgV::Str(s) => done(c, s),
        ArgV::Call(k) => {
            let r = run(k, c, wall_ms);
            match r.result {
                Err(f) => fail(r.ctx, f),
                Ok(v) => match v {
                    ValueV::Str(s) => done(r.ctx, s),
                    _ => fail(r.ctx, not_text(k.name, v)),
                },
            }
        },
    }
}

/// An argument as number.
pub open spec fn number_of(arg: ArgV, c: CtxV, wall_ms: u64) -> Ran<u64>
    decreases arg, 3nat, 0nat,
{
    match arg {
        ArgV::Str(s) => match text::u64_of(s) {
            Some(n) => done(c, n),
            None => fail(c, QueryFault::Type("expected number, got string "@ + text::debug_text(s))),
        },
        ArgV::Call(k) => {
            let r = run(k, c, wall_ms);
            match r.result {
                Err(f) => fail(r.ctx, f),
                Ok(v) => match v {
                    ValueV::Num(n) => done(r.ctx, n),
                    _ => fail(r.ctx, not_number(k.name, v)),
                },
            }
        },
    }
}

/// The arguments `i..n` as texts, one after the other, up to the first that is none.
pub open spec fn texts_from(call: CallV, i: int, n: int, c: CtxV, wall_ms: u64) -> Ran<Seq<Seq<char>>>
    decreases call, 1nat, n - i,
{
    if i < 0 || i >= n || i >= call.args.len() {
        done(c, Seq::empty())
    } else {
        let one = text_of(call.args[i], c, wall_ms);
        match one.result {
            Err(f) => fail(one.ctx, f),
            Ok(t) => {
                let rest = texts_from(call, i + 1, n, one.ctx, wall_ms);
                match rest.result {
                    Err(f) => fail(rest.ctx, f),
                    Ok(ts) => done(rest.ctx, seq![t] + ts),
                }
            },
        }
    }
}

/// Is the first argument before the second?
pub open spec fn compared(call: CallV, c: CtxV, wall_ms: u64) -> Ran<ValueV>
    decreases call, 1nat, 0nat,
{
    if call.args.len() != 2 {
        done(c, ValueV::Null)
    } else {
        let a = number_of(call.args[0], c, wall_ms);
        match a.result {
            Err(f) => fail(a.ctx, f),
            Ok(x) => {
                let b = number_of(call.args[1], a.ctx, wall_ms);
                match b.result {
                    Err(f) => fail(b.ctx, f),
                    Ok(y) => done(b.ctx, ValueV::Bool(x < y)),
                }
            },
        }
    }
}

/// The namespace that was chosen.
pub open spec fn chosen(c: CtxV) -> Seq<char> {
    match c.scope {
        Some(s) => s,
        None => Seq::empty(),
    }
}

/// Run a call at a wall time: the function is looked up and what can be refused at once
/// is refused; then the arguments are worked out in order; then the function runs.
pub open spec fn run(call: CallV, c: CtxV, wall_ms: u64) -> Ran<ValueV>
    decreases call, 2nat, 0nat,
{
    let n = call.args.len() as int;
    match function::function_of(call.name) {
        None => fail(c, QueryFault::UnknownFn(call.name)),
        Some(f) => match function::refused(f, call.name, n, c.remote, c.scope) {
            Some(q) => fail(c, q),
            None => if f is Before {
                compared(call, c, wall_ms)
            } else {
                let ts = texts_from(call, 0, f.texts_of(n), c, wall_ms);
                match ts.result {
                    Err(q) => fail(ts.ctx, q),
                    Ok(t) => effect(f, chosen(c), t, ts.ctx, wall_ms),
                }
            },
        },
    }
}

/// Does the call write, itself or in an argument?
pub open spec fn mutates(call: CallV) -> bool
    decreases call, 1nat, 0nat,
{
    (function::function_of(call.name) matches Some(f) && f.is_mutator()) || mutates_from(call, 0)
}

/// Does an argument from place `i` on write?
pub open spec fn mutates_from(call: CallV, i: int) -> bool
    decreases call, 0nat, call.args.len() - i,
{
    if i < 0 || i >= call.args.len() {
        false
    } else {
        (match call.args[i] {
            ArgV::Call(k) => mutates(k),
            ArgV::Str(_) => false,
        }) || mutates_from(call, i + 1)
    }
}

fn contains_mutator(call: &Call) -> (r: bool)
    ensures
        r == mutates(call.value()),
    decreases call,
{
    proof {
        syntax::lemma_call(*call);
    }
    match function::find_function(call.name.as_str()) {
        Some(f) => {
            if f.mutator() {
                return true;
            }
        },
        None => {},
    }
    let ghost cv = call.value();
    let mut i: usize = 0;
    while i < call.args.len()
        invariant
            i <= call.args@.len(),
            cv == call.value(),
            cv.args == syntax::arg_values(call.args@),
            mutates(cv) == mutates_from(cv, i as int),
        decreases call.args@.len() - i,
    {
        proof {
            syntax::lemma_arg_smaller(*call, i as int);
            assert(cv.args[i as int] == call.args@[i as int].value());
        }
        match &call.args[i] {
            Arg::Call(k) => {
                if contains_mutator(k) {
                    return true;
                }
            },
            Arg::Str(_) => {},
        }
        i += 1;
    }
    false
}

/// Does a statement write? A read-only one can run where the store is only read: for a
/// remote caller it never changes the store.
pub fn classify(src: &str) -> (r: Result<StmtKind, QueryError>)
    ensures
        match syntax::statement(text::utf8(src@)) {
            Err(f) => r matches Err(e) && e@ == f,
            Ok(c) => r == Ok::<StmtKind, QueryError>(
                if mutates(c) {
                    StmtKind::Mutating
                } else {
                    StmtKind::ReadOnly
                },
            ),
        },
{
    match syntax::parse(src) {
        Err(e) => Err(e),
        Ok(c) => Ok(
            if contains_mutator(&c) {
                StmtKind::Mutating
            } else {
                StmtKind::ReadOnly
            },
        ),
    }
}


// ---------- running ----------

/// The visible value of an entry as text.
fn shown_text(e: &Entry) -> (r: String)
    ensures
        r@ == latest_text(e@),
{
    match e.latest() {
        Some(v) => text::lossy_string(v.value.as_slice()),
        None => {
            let r = String::new();
            assert(r@ =~= Seq::empty());
            r
        },
    }
}

/// Keys and their visible values, in turn.
fn list_rows(rows: &Vec<(Vec<u8>, Entry)>) -> (r: Vec<QueryValue>)
    ensures
        value::values(r@) == key_values(store::scan_views(rows@)),
{
    let ghost all = store::scan_views(rows@);
    let mut out: Vec<QueryValue> = Vec::new();
    proof {
        assert(value::values(out@) =~= Seq::empty());
        assert(all.take(0) =~= Seq::empty());
    }
    let mut i: usize = 0;
    while i < rows.len()
        invariant
            i <= rows@.len(),
            all == store::scan_views(rows@),
            value::values(out@) == key_values(all.take(i as int)),
        decreases rows@.len() - i,
    {
        let ghost had = value::values(out@);
        let k = text::lossy_string(rows[i].0.as_slice());
        let v = shown_text(&rows[i].1);
        out.push(QueryValue::Str(k));
        out.push(QueryValue::Str(v));
        proof {
            assert(value::values(out@) =~= had.push(ValueV::Str(k@)).push(ValueV::Str(v@)));
            assert(all.take(i + 1).drop_last() =~= all.take(i as int));
            assert(all.take(i + 1).last() == all[i as int]);
        }
        i += 1;
    }
    assert(all.take(i as int) =~= all);
    out
}

/// Replica, clock and value of a version behind what was listed.
fn push_version(v: &Version, out: &mut Vec<QueryValue>)
    ensures
        value::values(final(out)@) == value::values(old(out)@).push(
            ValueV::Str(hexes::hex_text(v@.replica)),
        ).push(ValueV::Num(v@.hlc)).push(ValueV::Str(text::lossy_text(v@.value))),
{
    let ghost had = value::values(out@);
    let replica = hexes::hex_encode(v.replica.as_slice());
    let shown = text::lossy_string(v.value.as_slice());
    out.push(QueryValue::Str(replica));
    out.push(QueryValue::Num(v.hlc));
    out.push(QueryValue::Str(shown));
    assert(value::values(out@) =~= had.push(ValueV::Str(replica@)).push(ValueV::Num(v@.hlc)).push(
        ValueV::Str(shown@),
    ));
}

fn list_versions(e: &Entry) -> (r: Vec<QueryValue>)
    ensures
        value::values(r@) == version_parts(versions_of(e@)),
{
    let mut out: Vec<QueryValue> = Vec::new();
    let ghost all = versions_of(e@);
    proof {
        assert(value::values(out@) =~= Seq::empty());
        assert(all.take(0) =~= Seq::empty());
        assert(version_parts(all.take(0)) =~= Seq::empty());
    }
    match e {
        Entry::Lww(v) => {
            push_version(v, &mut out);
            assert(all.drop_last() =~= all.take(0));
        },
        Entry::Register(vs) => {
            let mut i: usize = 0;
            while i < vs.len()
                invariant
                    i <= vs@.len(),
                    all == entry::version_views(vs@),
                    value::values(out@) == version_parts(all.take(i as int)),
                decreases vs@.len() - i,
            {
                push_version(&vs[i], &mut out);
                proof {
                    assert(all.take(i + 1).drop_last() =~= all.take(i as int));
                    assert(all.take(i + 1).last() == all[i as int]);
                }
                i += 1;
            }
            assert(all.take(i as int) =~= all);
        },
    }
    out
}

/// The keys of the rows whose field value is `want`, which come first.
fn matching_keys(found: &Vec<(Vec<u8>, Vec<u8>)>, want: &[u8], Ghost(d): Ghost<Set<Seq<u8>>>) -> (r: Vec<QueryValue>)
    requires
        rows::rows_ascend(rows::row_views(found@)),
        forall|i: int| 0 <= i < found@.len() ==> !ordmap::lex_lt((#[trigger] found@[i]).0@, want@),
        forall|k: Seq<u8>| #[trigger] d.contains(k) <==> rows::row_views(found@).contains((want@, k)),
    ensures
        value::values(r@) == key_texts(ordmap::listed(d)),
{
    let ghost all = rows::row_views(found@);
    let ghost mut keys: Seq<Seq<u8>> = Seq::empty();
    let mut out: Vec<QueryValue> = Vec::new();
    assert(value::values(out@) =~= key_texts(keys));
    let mut i: usize = 0;
    while i < found.len() && ordmap::same_bytes(found[i].0.as_slice(), want)
        invariant
            i <= found@.len(),
            all == rows::row_views(found@),
            keys.len() == i,
            forall|j: int| 0 <= j < i ==> (#[trigger] keys[j]) == all[j].1 && all[j].0 == want@,
            value::values(out@) == key_texts(keys),
        decreases found@.len() - i,
    {
        let ghost had = value::values(out@);
        let k = text::lossy_string(found[i].1.as_slice());
        out.push(QueryValue::Str(k));
        proof {
            let key = found@[i as int].1@;
            keys = keys.push(key);
            assert(value::values(out@) =~= had.push(ValueV::Str(k@)));
            assert(key_texts(keys) =~= had.push(ValueV::Str(text::lossy_text(key))));
        }
        i += 1;
    }
    proof {
        assert(ordmap::ascending(keys)) by {
            assert forall|a: int, b: int| 0 <= a < b < keys.len() implies ordmap::lex_lt(
                #[trigger] keys[a],
                #[trigger] keys[b],
            ) by {
                assert(rows::row_lt(all[a], all[b]));
                ordmap::lemma_lex_irreflexive(want@);
            }
        }
        assert(ordmap::lists(keys, d)) by {
            assert forall|k: Seq<u8>| keys.contains(k) <==> #[trigger] d.contains(k) by {
                if keys.contains(k) {
                    let j = keys.index_of(k);
                    assert(keys[j] == all[j].1);
                    assert(all[j] == (want@, k));
                    assert(all.contains((want@, k)));
                }
                if d.contains(k) {
                    let j = all.index_of((want@, k));
                    assert(all[j] == (want@, k));
                    if j >= i {
                        assert(all[i as int].0 != want@);
                        assert(!ordmap::lex_lt(found@[i as int].0@, want@));
                        if j > i {
                            assert(rows::row_lt(all[i as int], all[j]));
                        }
                        ordmap::lemma_lex_total(all[i as int].0, want@);
                    }
                    assert(keys[j] == k);
                    assert(keys.contains(k));
                }
            }
        }
        ordmap::lemma_listed(keys, d);
    }
    out
}

/// Texts as values.
fn list_texts(ts: &Vec<String>) -> (r: Vec<QueryValue>)
    ensures
        value::values(r@) == text_values(json::texts(ts@)),
{
    let mut out: Vec<QueryValue> = Vec::new();
    let mut i: usize = 0;
    while i < ts.len()
        invariant
            i <= ts@.len(),
            value::values(out@) =~= text_values(json::texts(ts@)).take(i as int),
        decreases ts@.len() - i,
    {
        let ghost had = value::values(out@);
        let t = text::copy_text(ts[i].as_str());
        out.push(QueryValue::Str(t));
        assert(value::values(out@) =~= had.push(ValueV::Str(t@)));
        i += 1;
    }
    out
}

impl<'a> QueryCtx<'a> {
    /// Issue a clock.
    fn tick(&mut self, wall_ms: u64) -> (h: Hlc)
        requires
            old(self).wf(),
        ensures
            final(self).wf(),
            final(self).value() == ticked(old(self).value(), wall_ms),
            h == final(self).clock,
            final(self).store == old(self).store,
            final(self).scope == old(self).scope,
            final(self).host_id == old(self).host_id,
    {
        self.clock = Hlc::issue(self.clock, wall_ms);
        self.clock
    }
}

/// What the store answered, as the value of a statement.
fn answered<T>(r: Result<T, StorageError>) -> (q: Result<QueryValue, QueryError>)
    ensures
        match r {
            Ok(_) => q matches Ok(v) && v.value() == ValueV::Bool(true),
            Err(e) => q matches Err(x) && x@ == QueryFault::Eval(e@),
        },
{
    match r {
        Ok(_) => Ok(QueryValue::Bool(true)),
        Err(e) => Err(QueryError::Eval(e)),
    }
}

/// Is the answer the one of the model?
pub open spec fn answers(r: Result<QueryValue, QueryError>, want: Result<ValueV, QueryFault>) -> bool {
    match want {
        Ok(v) => r matches Ok(x) && x.value() == v,
        Err(f) => r matches Err(e) && e@ == f,
    }
}

fn run_create(ctx: &mut QueryCtx, ns: &str) -> (r: Result<QueryValue, QueryError>)
    requires
        old(ctx).wf(),
    ensures
        final(ctx).wf(),
        ({
            let c = old(ctx).value();
            let want = changed(c, c.store.create(ns@, ConflictPolicy::Lww));
            final(ctx).value() == want.ctx && answers(r, want.result)
        }),
        old(ctx).store is Read ==> final(ctx).store == old(ctx).store,
        old(ctx).store is Write ==> final(ctx).store is Write && *final(final(ctx).store->Write_0) == *final(old(ctx).store->Write_0),
        held(final(ctx).store).is_durable() == held(old(ctx).store).is_durable(),
{
    match ctx.store_mut() {
        Err(e) => Err(e),
        Ok(s) => answered(s.create_namespace(ns, ConflictPolicy::Lww)),
    }
}

fn run_put(ctx: &mut QueryCtx, ns: &str, key: &str, val: &str, wall_ms: u64) -> (r: Result<QueryValue, QueryError>)
    requires
        old(ctx).wf(),
    ensures
        final(ctx).wf(),
        ({
            let want = effect(Function::Put, ns@, seq![key@, val@], old(ctx).value(), wall_ms);
            final(ctx).value() == want.ctx && answers(r, want.result)
        }),
        old(ctx).store is Read ==> final(ctx).store == old(ctx).store,
        old(ctx).store is Write ==> final(ctx).store is Write && *final(final(ctx).store->Write_0) == *final(old(ctx).store->Write_0),
        held(final(ctx).store).is_durable() == held(old(ctx).store).is_durable(),
{
    let k = text::bytes_of(key);
    let v = text::bytes_of(val);
    let at: u64 = ctx.tick(wall_ms).to_u64();
    let host = ctx.host_id.to_bytes();
    match ctx.store_mut() {
        Err(e) => Err(e),
        Ok(s) => answered(s.put(ns, &k, v.as_slice(), at, host, host, 0)),
    }
}

fn run_del(ctx: &mut QueryCtx, ns: &str, key: &str, wall_ms: u64) -> (r: Result<QueryValue, QueryError>)
    requires
        old(ctx).wf(),
    ensures
        final(ctx).wf(),
        ({
            let want = effect(Function::Del, ns@, seq![key@], old(ctx).value(), wall_ms);
            final(ctx).value() == want.ctx && answers(r, want.result)
        }),
        old(ctx).store is Read ==> final(ctx).store == old(ctx).store,
        old(ctx).store is Write ==> final(ctx).store is Write && *final(final(ctx).store->Write_0) == *final(old(ctx).store->Write_0),
        held(final(ctx).store).is_durable() == held(old(ctx).store).is_durable(),
{
    let k = text::bytes_of(key);
    let at: u64 = ctx.tick(wall_ms).to_u64();
    let host = ctx.host_id.to_bytes();
    match ctx.store_mut() {
        Err(e) => Err(e),
        Ok(s) => answered(s.delete(ns, &k, at, host, host)),
    }
}

fn run_redefine(ctx: &mut QueryCtx, ns: &str, def: Option<&[u8]>, wall_ms: u64) -> (r: Result<QueryValue, QueryError>)
    requires
        old(ctx).wf(),
    ensures
        final(ctx).wf(),
        ({
            let d = match def {
                Some(b) => Some(b@),
                None => None,
            };
            let want = redefined(ticked(old(ctx).value(), wall_ms), ns@, d);
            final(ctx).value() == want.ctx && answers(r, want.result)
        }),
        old(ctx).store is Read ==> final(ctx).store == old(ctx).store,
        old(ctx).store is Write ==> final(ctx).store is Write && *final(final(ctx).store->Write_0) == *final(old(ctx).store->Write_0),
        held(final(ctx).store).is_durable() == held(old(ctx).store).is_durable(),
{
    let at: u64 = ctx.tick(wall_ms).to_u64();
    let host = ctx.host_id.to_bytes();
    match ctx.store_mut() {
        Err(e) => Err(e),
        Ok(s) => answered(s.set_index(ns, def, at, host, host)),
    }
}

/// Choose a namespace.
fn run_use(ctx: &mut QueryCtx, ns: &str) -> (r: Result<QueryValue, QueryError>)
    requires
        old(ctx).wf(),
    ensures
        final(ctx).wf(),
        ({
            let want = effect(Function::Use, Seq::empty(), seq![ns@], old(ctx).value(), 0);
            final(ctx).value() == want.ctx && answers(r, want.result)
        }),
        old(ctx).store is Read ==> final(ctx).store == old(ctx).store,
        old(ctx).store is Write ==> final(ctx).store is Write && *final(final(ctx).store->Write_0) == *final(old(ctx).store->Write_0),
        held(final(ctx).store).is_durable() == held(old(ctx).store).is_durable(),
{
    if ctx.store_ref().policy(ns).is_none() {
        return Err(QueryError::Eval(StorageError::NotFound(text::copy_text(ns))));
    }
    ctx.scope = Some(text::copy_text(ns));
    Ok(QueryValue::Bool(true))
}

/// The functions that only read.
fn run_read(s: &Store, f: Function, ns: &str, t: &Vec<String>, Ghost(c): Ghost<CtxV>) -> (r: QueryValue)
    requires
        s.wf(),
        c.store == s@,
        f is ClockSkew || f is Get || f is Scan || f is GetAll || f is IndexFields || f is ByIndex,
        t@.len() >= f.texts_of(t@.len() as int),
    ensures
        effect(f, ns@, json::texts(t@), c, 0) == done(c, r.value()),
{
    let ghost tv = json::texts(t@);
    match f {
        Function::ClockSkew => {
            match s.peer_clock(t[0].as_str()) {
                Some(d) => if d > 0 {
                    QueryValue::Num(d as u64)
                } else {
                    QueryValue::Num(0)
                },
                None => QueryValue::Null,
            }
        },
        Function::Get => {
            let k = text::bytes_of(t[0].as_str());
            match s.get(ns, &k) {
                Some(e) => QueryValue::Str(shown_text(e)),
                None => QueryValue::Null,
            }
        },
        Function::Scan => {
            let p = text::bytes_of(t[0].as_str());
            let found = s.scan(ns, p.as_slice());
            let out = list_rows(&found);
            proof {
                value::lemma_list(out);
            }
            QueryValue::List(out)
        },
        Function::GetAll => {
            let k = text::bytes_of(t[0].as_str());
            match s.get(ns, &k) {
                Some(e) => {
                    let out = list_versions(e);
                    proof {
                        value::lemma_list(out);
                    }
                    QueryValue::List(out)
                },
                None => QueryValue::Null,
            }
        },
        Function::IndexFields => {
            let fields = s.index_fields(ns);
            let out = list_texts(&fields);
            proof {
                value::lemma_list(out);
            }
            QueryValue::List(out)
        },
        _ => {
            let want = text::bytes_of(t[1].as_str());
            let found = s.index_lookup(ns, t[0].as_str(), want.as_slice());
            let ghost d = indexed_keys(s@, ns@, tv[0], want@);
            proof {
                let all = rows::row_views(found@);
                assert forall|i: int| 0 <= i < found@.len() implies !ordmap::lex_lt(
                    (#[trigger] found@[i]).0@,
                    want@,
                ) by {
                    assert(all[i] == (found@[i].0@, found@[i].1@));
                    assert(all.contains(all[i]));
                }
                assert forall|k: Seq<u8>| #[trigger] d.contains(k) <==> all.contains((want@, k)) by {
                    ordmap::lemma_lex_irreflexive(want@);
                    let p = (want@, k);
                    assert(all.contains(p) <==> s@.has(ns@) && model::fields_of(s@.meta, ns@).contains(tv[0])
                        && s@.space(ns@).cells.rows(tv[0]).contains(p) && !ordmap::lex_lt(p.0, want@));
                }
            }
            let out = matching_keys(&found, want.as_slice(), Ghost(d));
            proof {
                value::lemma_list(out);
            }
            QueryValue::List(out)
        },
    }
}

/// What a function makes of its texts.
fn perform(ctx: &mut QueryCtx, f: Function, ns: &str, t: &Vec<String>, wall_ms: u64) -> (r: Result<QueryValue, QueryError>)
    requires
        old(ctx).wf(),
        f !is Before,
        t@.len() == f.texts_of(t@.len() as int),
    ensures
        final(ctx).wf(),
        ({
            let want = effect(f, ns@, json::texts(t@), old(ctx).value(), wall_ms);
            final(ctx).value() == want.ctx && answers(r, want.result)
        }),
        old(ctx).store is Read ==> final(ctx).store == old(ctx).store,
        old(ctx).store is Write ==> final(ctx).store is Write && *final(final(ctx).store->Write_0) == *final(old(ctx).store->Write_0),
        held(final(ctx).store).is_durable() == held(old(ctx).store).is_durable(),
{
    let ghost tv = json::texts(t@);
    match f {
        Function::Now => {
            let h = ctx.tick(wall_ms);
            Ok(QueryValue::Num(h.ms()))
        },
        Function::Hlc => {
            let h = ctx.tick(wall_ms);
            Ok(QueryValue::Num(h.to_u64()))
        },
        Function::Use => {
            assert(tv =~= seq![t@[0]@]);
            run_use(ctx, t[0].as_str())
        },
        Function::CreateNs => run_create(ctx, t[0].as_str()),
        Function::Put => {
            assert(tv =~= seq![t@[0]@, t@[1]@]);
            run_put(ctx, ns, t[0].as_str(), t[1].as_str(), wall_ms)
        },
        Function::Del => {
            assert(tv =~= seq![t@[0]@]);
            run_del(ctx, ns, t[0].as_str(), wall_ms)
        },
        Function::IndexCreate => {
            let def = json::write_strings(t);
            run_redefine(ctx, ns, Some(def.as_slice()), wall_ms)
        },
        Function::IndexDrop => run_redefine(ctx, ns, None, wall_ms),
        _ => {
            let ghost c = ctx.value();
            Ok(run_read(ctx.store_ref(), f, ns, t, Ghost(c)))
        },
    }
}

/// An argument as text.
fn str_arg(ctx: &mut QueryCtx, arg: &Arg, wall_ms: u64) -> (r: Result<String, QueryError>)
    requires
        old(ctx).wf(),
    ensures
        final(ctx).wf(),
        ({
            let want = text_of(arg.value(), old(ctx).value(), wall_ms);
            &&& final(ctx).value() == want.ctx
            &&& match want.result {
                Ok(t) => r matches Ok(x) && x@ == t,
                Err(f) => r matches Err(e) && e@ == f,
            }
        }),
        old(ctx).store is Read ==> final(ctx).store == old(ctx).store,
        old(ctx).store is Write ==> final(ctx).store is Write && *final(final(ctx).store->Write_0) == *final(old(ctx).store->Write_0),
        held(final(ctx).store).is_durable() == held(old(ctx).store).is_durable(),
    decreases arg, 3nat,
{
    match arg {
        Arg::Str(s) => Ok(text::copy_text(s.as_str())),
        Arg::Call(c) => match exec_call(ctx, c, wall_ms) {
            Err(e) => Err(e),
            Ok(QueryValue::Str(s)) => Ok(s),
            Ok(v) => {
                let mut m = text::join3("expected string from ", c.name.as_str(), ", got ");
                m.push_str(v.debug().as_str());
                Err(QueryError::Type(m))
            },
        },
    }
}

/// An argument as number.
fn num_arg(ctx: &mut QueryCtx, arg: &Arg, wall_ms: u64) -> (r: Result<u64, QueryError>)
    requires
        old(ctx).wf(),
    ensures
        final(ctx).wf(),
        ({
            let want = number_of(arg.value(), old(ctx).value(), wall_ms);
            &&& final(ctx).value() == want.ctx
            &&& match want.result {
                Ok(n) => r matches Ok(x) && x == n,
                Err(f) => r matches Err(e) && e@ == f,
            }
        }),
        old(ctx).store is Read ==> final(ctx).store == old(ctx).store,
        old(ctx).store is Write ==> final(ctx).store is Write && *final(final(ctx).store->Write_0) == *final(old(ctx).store->Write_0),
        held(final(ctx).store).is_durable() == held(old(ctx).store).is_durable(),
    decreases arg, 3nat,
{
    match arg {
        Arg::Str(s) => match text::parse_u64(s.as_str()) {
            Some(n) => Ok(n),
            None => Err(
                QueryError::Type(
                    text::join2("expected number, got string ", text::debug_string(s.as_str()).as_str()),
                ),
            ),
        },
        Arg::Call(c) => match exec_call(ctx, c, wall_ms) {
            Err(e) => Err(e),
            Ok(QueryValue::Num(n)) => Ok(n),
            Ok(v) => {
                let mut m = text::join3("expected Num from ", c.name.as_str(), ", got ");
                m.push_str(v.debug().as_str());
                Err(QueryError::Type(m))
            },
        },
    }
}

/// Is the first argument before the second?
fn exec_before(ctx: &mut QueryCtx, call: &Call, wall_ms: u64) -> (r: Result<QueryValue, QueryError>)
    requires
        old(ctx).wf(),
        call.args@.len() == 2,
    ensures
        final(ctx).wf(),
        ({
            let want = compared(call.value(), old(ctx).value(), wall_ms);
            final(ctx).value() == want.ctx && answers(r, want.result)
        }),
        old(ctx).store is Read ==> final(ctx).store == old(ctx).store,
        old(ctx).store is Write ==> final(ctx).store is Write && *final(final(ctx).store->Write_0) == *final(old(ctx).store->Write_0),
        held(final(ctx).store).is_durable() == held(old(ctx).store).is_durable(),
    decreases call, 1nat,
{
    proof {
        syntax::lemma_call(*call);
        syntax::lemma_arg_smaller(*call, 0);
        syntax::lemma_arg_smaller(*call, 1);
    }
    match num_arg(ctx, &call.args[0], wall_ms) {
        Err(e) => Err(e),
        Ok(a) => match num_arg(ctx, &call.args[1], wall_ms) {
            Err(e) => Err(e),
            Ok(b) => Ok(QueryValue::Bool(a < b)),
        },
    }
}

/// The first `n` arguments as texts.
fn exec_texts(ctx: &mut QueryCtx, call: &Call, n: usize, wall_ms: u64) -> (r: Result<Vec<String>, QueryError>)
    requires
        old(ctx).wf(),
        n <= call.args@.len(),
    ensures
        final(ctx).wf(),
        ({
            let want = texts_from(call.value(), 0, n as int, old(ctx).value(), wall_ms);
            &&& final(ctx).value() == want.ctx
            &&& match want.result {
                Ok(t) => r matches Ok(x) && json::texts(x@) == t && x@.len() == n,
                Err(f) => r matches Err(e) && e@ == f,
            }
        }),
        old(ctx).store is Read ==> final(ctx).store == old(ctx).store,
        old(ctx).store is Write ==> final(ctx).store is Write && *final(final(ctx).store->Write_0) == *final(old(ctx).store->Write_0),
        held(final(ctx).store).is_durable() == held(old(ctx).store).is_durable(),
    decreases call, 1nat,
{
    let ghost cv = call.value();
    let ghost whole = texts_from(cv, 0, n as int, ctx.value(), wall_ms);
    proof {
        syntax::lemma_call(*call);
    }
    let mut out: Vec<String> = Vec::new();
    let mut i: usize = 0;
    proof {
        lemma_behind_none(texts_from(cv, 0, n as int, ctx.value(), wall_ms));
        assert(json::texts(out@) =~= Seq::empty());
    }
    while i < n
        invariant
            i <= n <= call.args@.len(),
            out@.len() == i,
            cv == call.value(),
            cv.args == syntax::arg_values(call.args@),
            ctx.wf(),
            whole == texts_from(cv, 0, n as int, old(ctx).value(), wall_ms),
            whole == behind(json::texts(out@), texts_from(cv, i as int, n as int, ctx.value(), wall_ms)),
            old(ctx).store is Read ==> ctx.store == old(ctx).store,
            old(ctx).store is Write ==> ctx.store is Write && *final(ctx.store->Write_0) == *final(old(ctx).store->Write_0),
            held(ctx.store).is_durable() == held(old(ctx).store).is_durable(),
        decreases n - i,
    {
        let ghost had = json::texts(out@);
        proof {
            syntax::lemma_arg_smaller(*call, i as int);
            assert(cv.args[i as int] == call.args@[i as int].value());
        }
        match str_arg(ctx, &call.args[i], wall_ms) {
            Err(e) => {
                return Err(e);
            },
            Ok(t) => {
                out.push(t);
                proof {
                    assert(json::texts(out@) =~= had.push(t@));
                    lemma_behind_step(had, t@, texts_from(cv, i + 1, n as int, ctx.value(), wall_ms));
                }
            },
        }
        i += 1;
    }
    assert(json::texts(out@) + Seq::<Seq<char>>::empty() =~= json::texts(out@));
    Ok(out)
}

/// Run a call at a wall time.
fn exec_call(ctx: &mut QueryCtx, call: &Call, wall_ms: u64) -> (r: Result<QueryValue, QueryError>)
    requires
        old(ctx).wf(),
    ensures
        final(ctx).wf(),
        ({
            let want = run(call.value(), old(ctx).value(), wall_ms);
            final(ctx).value() == want.ctx && answers(r, want.result)
        }),
        old(ctx).store is Read ==> final(ctx).store == old(ctx).store,
        old(ctx).store is Write ==> final(ctx).store is Write && *final(final(ctx).store->Write_0) == *final(old(ctx).store->Write_0),
        held(final(ctx).store).is_durable() == held(old(ctx).store).is_durable(),
    decreases call, 2nat,
{
    proof {
        syntax::lemma_call(*call);
    }
    let f = match function::find_function(call.name.as_str()) {
        None => {
            return Err(QueryError::UnknownFn(text::copy_text(call.name.as_str())));
        },
        Some(f) => f,
    };
    let ghost c = ctx.value();
    let ghost n = call.args@.len() as int;
    match function::refuse(f, call.name.as_str(), call.args.len(), ctx.remote, ctx.scope.is_some()) {
        Some(e) => {
            assert(function::refused(f, call.name@, n, c.remote, c.scope) is Some);
            return Err(e);
        },
        None => {},
    }
    assert(function::refused(f, call.name@, n, c.remote, c.scope) is None);
    if matches!(f, Function::Before) {
        return exec_before(ctx, call, wall_ms);
    }
    let ns = match &ctx.scope {
        Some(s) => text::copy_text(s.as_str()),
        None => String::new(),
    };
    assert(ns@ =~= chosen(c));
    let k: usize = f.texts(call.args.len());
    match exec_texts(ctx, call, k, wall_ms) {
        Err(e) => Err(e),
        Ok(t) => perform(ctx, f, ns.as_str(), &t, wall_ms),
    }
}

/// Texts in front of those that follow.
spec fn behind(ts: Seq<Seq<char>>, rest: Ran<Seq<Seq<char>>>) -> Ran<Seq<Seq<char>>> {
    match rest.result {
        Ok(us) => done(rest.ctx, ts + us),
        Err(f) => rest,
    }
}

proof fn lemma_behind_none(rest: Ran<Seq<Seq<char>>>)
    ensures
        behind(Seq::empty(), rest) == rest,
{
    match rest.result {
        Ok(us) => {
            assert(Seq::<Seq<char>>::empty() + us =~= us);
        },
        _ => {},
    }
}

proof fn lemma_behind_step(ts: Seq<Seq<char>>, t: Seq<char>, rest: Ran<Seq<Seq<char>>>)
    ensures
        behind(ts.push(t), rest) == behind(
            ts,
            match rest.result {
                Err(f) => fail(rest.ctx, f),
                Ok(us) => done(rest.ctx, seq![t] + us),
            },
        ),
{
    match rest.result {
        Ok(us) => {
            assert(ts.push(t) + us =~= ts + (seq![t] + us));
        },
        _ => {},
    }
}

/// The model's account of a statement.
pub open spec fn outcome(src: Seq<char>, c: CtxV, wall_ms: u64) -> Ran<ValueV> {
    match syntax::statement(text::utf8(src)) {
        Err(f) => fail(c, f),
        Ok(call) => run(call, c, wall_ms),
    }
}

/// Run a statement at a wall time.
pub fn eval_at(ctx: &mut QueryCtx, src: &str, wall_ms: u64) -> (r: Result<QueryValue, QueryError>)
    requires
        old(ctx).wf(),
    ensures
        final(ctx).wf(),
        final(ctx).value() == outcome(src@, old(ctx).value(), wall_ms).ctx,
        answers(r, outcome(src@, old(ctx).value(), wall_ms).result),
        old(ctx).store is Read ==> final(ctx).store == old(ctx).store,
        old(ctx).store is Write ==> final(ctx).store is Write && *final(final(ctx).store->Write_0) == *final(old(ctx).store->Write_0),
        held(final(ctx).store).is_durable() == held(old(ctx).store).is_durable(),
{
    match syntax::parse(src) {
        Err(e) => Err(e),
        Ok(call) => exec_call(ctx, &call, wall_ms),
    }
}

/// Run a statement at the present wall time.
pub fn eval(ctx: &mut QueryCtx, src: &str) -> (r: Result<QueryValue, QueryError>)
    requires
        old(ctx).wf(),
    ensures
        final(ctx).wf(),
        exists|wall_ms: u64|
            final(ctx).value() == (#[trigger] outcome(src@, old(ctx).value(), wall_ms)).ctx && answers(
                r,
                outcome(src@, old(ctx).value(), wall_ms).result,
            ),
        old(ctx).store is Read ==> final(ctx).store == old(ctx).store,
        old(ctx).store is Write ==> final(ctx).store is Write && *final(final(ctx).store->Write_0) == *final(old(ctx).store->Write_0),
        held(final(ctx).store).is_durable() == held(old(ctx).store).is_durable(),
{
    let now: u64 = clock::wall_ms();
    eval_at(ctx, src, now)
}

} // verus!
