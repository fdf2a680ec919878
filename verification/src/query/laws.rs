//! What holds of every statement.

use crate::node::hlc;
use crate::query::eval;
use crate::query::eval::CtxV;
use crate::query::function;
use crate::query::function::Function;
use crate::query::syntax::{ArgV, CallV};
use crate::query::value::{QueryFault, ValueV};
use crate::storage::model;
use crate::text;
use vstd::prelude::*;

verus! {

/// What a statement leaves as it was, whatever it does.
pub open spec fn stays(before: CtxV, after: CtxV, writes: bool) -> bool {
    &&& after.writable == before.writable
    &&& after.remote == before.remote
    &&& after.host == before.host
    &&& after.clock >= before.clock
    &&& before.remote ==> after.scope == before.scope
    &&& !before.writable || (before.remote && !writes) ==> after.store == before.store
}

proof fn lemma_effect(f: Function, ns: Seq<char>, t: Seq<Seq<char>>, c: CtxV, wall_ms: u64, writes: bool)
    requires
        c.remote ==> f !is Use && f !is CreateNs,
        f.is_mutator() ==> writes,
    ensures
        stays(c, eval::effect(f, ns, t, c, wall_ms).ctx, writes),
{
    assert(hlc::issued(c.clock, wall_ms) >= c.clock);
}

proof fn lemma_args_read_only(call: CallV, from: int, i: int)
    requires
        0 <= from <= i < call.args.len(),
        !eval::mutates_from(call, from),
        call.args[i] is Call,
    ensures
        !eval::mutates(call.args[i]->Call_0),
    decreases i - from,
{
    if from < i {
        lemma_args_read_only(call, from + 1, i);
    }
}

proof fn lemma_arg(arg: ArgV, c: CtxV, wall_ms: u64, writes: bool)
    requires
        arg is Call && eval::mutates(arg->Call_0) ==> writes,
    ensures
        stays(c, eval::text_of(arg, c, wall_ms).ctx, writes),
        stays(c, eval::number_of(arg, c, wall_ms).ctx, writes),
    decreases arg, 3nat, 0nat,
{
    match arg {
        ArgV::Call(k) => {
            lemma_run(k, c, wall_ms);
        },
        _ => {},
    }
}

proof fn lemma_texts(call: CallV, i: int, n: int, c: CtxV, wall_ms: u64, writes: bool)
    requires
        0 <= i,
        eval::mutates(call) ==> writes,
    ensures
        stays(c, eval::texts_from(call, i, n, c, wall_ms).ctx, writes),
    decreases call, 1nat, n - i,
{
    if i < n && i < call.args.len() {
        if !eval::mutates(call) && call.args[i] is Call {
            lemma_args_read_only(call, 0, i);
        }
        lemma_arg(call.args[i], c, wall_ms, writes);
        let one = eval::text_of(call.args[i], c, wall_ms);
        lemma_texts(call, i + 1, n, one.ctx, wall_ms, writes);
    }
}

proof fn lemma_run(call: CallV, c: CtxV, wall_ms: u64)
    ensures
        stays(c, eval::run(call, c, wall_ms).ctx, eval::mutates(call)),
    decreases call, 2nat, 0nat,
{
    let n = call.args.len() as int;
    let w = eval::mutates(call);
    match function::function_of(call.name) {
        None => {},
        Some(f) => {
            if function::refused(f, call.name, n, c.remote, c.scope) is None {
                if f is Before {
                    if !w && call.args[0] is Call {
                        lemma_args_read_only(call, 0, 0);
                    }
                    if !w && call.args[1] is Call {
                        lemma_args_read_only(call, 0, 1);
                    }
                    lemma_arg(call.args[0], c, wall_ms, w);
                    let a = eval::number_of(call.args[0], c, wall_ms);
                    lemma_arg(call.args[1], a.ctx, wall_ms, w);
                } else {
                    lemma_texts(call, 0, f.texts_of(n), c, wall_ms, w);
                    let ts = eval::texts_from(call, 0, f.texts_of(n), c, wall_ms);
                    if ts.result is Ok {
                        lemma_effect(f, eval::chosen(c), ts.result->Ok_0, ts.ctx, wall_ms, w);
                    }
                }
            }
        },
    }
}

/// What `classify` calls read-only never changes the store for a remote caller, however
/// its calls are nested.
pub proof fn law_read_only_statement_changes_nothing(call: CallV, c: CtxV, wall_ms: u64)
    requires
        c.remote,
        !eval::mutates(call),
    ensures
        eval::run(call, c, wall_ms).ctx.store == c.store,
{
    lemma_run(call, c, wall_ms);
}

/// Where the store is only read, no statement changes it.
pub proof fn law_read_context_fails_closed(call: CallV, c: CtxV, wall_ms: u64)
    requires
        !c.writable,
    ensures
        eval::run(call, c, wall_ms).ctx.store == c.store,
{
    lemma_run(call, c, wall_ms);
}

/// A remote caller stays in the namespace it was let into.
pub proof fn law_remote_caller_keeps_its_scope(call: CallV, c: CtxV, wall_ms: u64)
    requires
        c.remote,
    ensures
        eval::run(call, c, wall_ms).ctx.scope == c.scope,
        eval::run(call, c, wall_ms).ctx.remote,
{
    lemma_run(call, c, wall_ms);
}

/// A remote caller is refused `use` and `create_ns`, and the context stays as it was.
pub proof fn law_remote_caller_is_refused(call: CallV, c: CtxV, wall_ms: u64)
    requires
        c.remote,
        call.name == "use"@ || call.name == "create_ns"@,
    ensures
        eval::run(call, c, wall_ms).result matches Err(QueryFault::Type(_)),
        eval::run(call, c, wall_ms).ctx == c,
{
    reveal_strlit("use");
    reveal_strlit("create_ns");
    reveal_strlit("now");
    reveal_strlit("hlc");
    reveal_strlit("before");
    reveal_strlit("clock_skew");
    assert("use"@.len() == 3 && "now"@.len() == 3 && "hlc"@.len() == 3 && "before"@.len() == 6);
    assert("create_ns"@.len() == 9 && "clock_skew"@.len() == 10);
    assert("use"@[0] == 'u' && "now"@[0] == 'n' && "hlc"@[0] == 'h');
}

/// The clock of a context never goes back.
pub proof fn law_clock_never_goes_back(call: CallV, c: CtxV, wall_ms: u64)
    ensures
        eval::run(call, c, wall_ms).ctx.clock >= c.clock,
{
    lemma_run(call, c, wall_ms);
}

/// The names of the functions that read and write one key are told apart.
proof fn lemma_names()
    ensures
        function::function_of("get"@) == Some(Function::Get),
        function::function_of("put"@) == Some(Function::Put),
        function::function_of("del"@) == Some(Function::Del),
{
    reveal_strlit("now");
    reveal_strlit("hlc");
    reveal_strlit("before");
    reveal_strlit("clock_skew");
    reveal_strlit("use");
    reveal_strlit("create_ns");
    reveal_strlit("get");
    reveal_strlit("put");
    reveal_strlit("del");
    assert("use"@.len() == 3 && "now"@.len() == 3 && "hlc"@.len() == 3 && "before"@.len() == 6);
    assert("create_ns"@.len() == 9 && "clock_skew"@.len() == 10);
    assert("get"@.len() == 3 && "put"@.len() == 3 && "del"@.len() == 3);
    assert("use"@[0] == 'u' && "now"@[0] == 'n' && "hlc"@[0] == 'h');
    assert("get"@[0] == 'g' && "put"@[0] == 'p' && "del"@[0] == 'd');
}

/// A call with texts for arguments.
pub open spec fn on_texts(name: Seq<char>, t: Seq<Seq<char>>) -> CallV {
    CallV { name, args: Seq::new(t.len(), |i: int| ArgV::Str(t[i])) }
}

/// Texts are handed on as they stand.
pub proof fn lemma_plain_texts(name: Seq<char>, t: Seq<Seq<char>>, i: int, c: CtxV, wall_ms: u64)
    requires
        0 <= i <= t.len(),
    ensures
        eval::texts_from(on_texts(name, t), i, t.len() as int, c, wall_ms) == eval::done(c, t.skip(i)),
    decreases t.len() - i,
{
    let call = on_texts(name, t);
    if i < t.len() {
        lemma_plain_texts(name, t, i + 1, c, wall_ms);
        assert(call.args[i] == ArgV::Str(t[i]));
        assert(eval::text_of(call.args[i], c, wall_ms) == eval::done(c, t[i]));
        assert(seq![t[i]] + t.skip(i + 1) =~= t.skip(i));
    } else {
        assert(t.skip(i) =~= Seq::empty());
    }
}

/// What was put is read back, in a namespace where the last writer wins.
pub proof fn law_put_is_read_back(key: Seq<char>, val: Seq<char>, c: CtxV, wall_ms: u64, later_ms: u64)
    requires
        c.scope is Some,
        c.store.has(c.scope->0),
        c.store.space(c.scope->0).policy is Lww,
        eval::run(on_texts("put"@, seq![key, val]), c, wall_ms).result is Ok,
    ensures
        ({
            let after = eval::run(on_texts("put"@, seq![key, val]), c, wall_ms).ctx;
            let read = eval::run(on_texts("get"@, seq![key]), after, later_ms);
            &&& read.result == Ok::<ValueV, QueryFault>(ValueV::Str(val))
            &&& read.ctx == after
        }),
{
    lemma_names();
    let ns = c.scope->0;
    let put = on_texts("put"@, seq![key, val]);
    let get = on_texts("get"@, seq![key]);
    lemma_plain_texts("put"@, seq![key, val], 0, c, wall_ms);
    assert(seq![key, val].skip(0) =~= seq![key, val]);
    let ran = eval::run(put, c, wall_ms);
    let next = eval::ticked(c, wall_ms);
    let o = model::put_op(text::utf8(key), text::utf8(val), next.clock, next.host, next.host, 0);
    assert(ran == eval::changed(next, next.store.put(ns, o)));
    let after = ran.ctx;
    lemma_plain_texts("get"@, seq![key], 0, after, later_ms);
    assert(seq![key].skip(0) =~= seq![key]);
    text::lemma_utf8_decodes(val);
    assert(after.store.get(ns, text::utf8(key)) is Some);
}

/// What was deleted is read as null.
pub proof fn law_deleted_reads_null(key: Seq<char>, c: CtxV, wall_ms: u64, later_ms: u64)
    requires
        c.scope is Some,
        eval::run(on_texts("del"@, seq![key]), c, wall_ms).result is Ok,
    ensures
        ({
            let after = eval::run(on_texts("del"@, seq![key]), c, wall_ms).ctx;
            eval::run(on_texts("get"@, seq![key]), after, later_ms).result == Ok::<ValueV, QueryFault>(
                ValueV::Null,
            )
        }),
{
    lemma_names();
    let del = on_texts("del"@, seq![key]);
    lemma_plain_texts("del"@, seq![key], 0, c, wall_ms);
    assert(seq![key].skip(0) =~= seq![key]);
    let after = eval::run(del, c, wall_ms).ctx;
    lemma_plain_texts("get"@, seq![key], 0, after, later_ms);
}

} // verus!
