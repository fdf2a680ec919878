//! What the functions of the query language answer.

use crate::hexes;
use crate::json;
use crate::node::hlc;
use crate::ordmap;
use crate::query::eval;
use crate::query::eval::CtxV;
use crate::query::function;
use crate::query::function::Function;
use crate::query::laws;
use crate::query::syntax::{ArgV, CallV};
use crate::query::value::{QueryFault, ValueV};
use crate::storage::entry;
use crate::storage::entry::{EntryV, VersionV};
use crate::storage::error::StorageFault;
use crate::storage::model;
use crate::storage::store;
use crate::storage::store::Store;
use crate::text;
use vstd::prelude::*;

verus! {

/// The names of the functions are told apart.
proof fn lemma_function_names()
    ensures
        function::function_of("now"@) == Some(Function::Now),
        function::function_of("hlc"@) == Some(Function::Hlc),
        function::function_of("before"@) == Some(Function::Before),
        function::function_of("clock_skew"@) == Some(Function::ClockSkew),
        function::function_of("use"@) == Some(Function::Use),
        function::function_of("create_ns"@) == Some(Function::CreateNs),
        function::function_of("get"@) == Some(Function::Get),
        function::function_of("put"@) == Some(Function::Put),
        function::function_of("del"@) == Some(Function::Del),
        function::function_of("scan"@) == Some(Function::Scan),
        function::function_of("get_all"@) == Some(Function::GetAll),
        function::function_of("index_create"@) == Some(Function::IndexCreate),
        function::function_of("index_fields"@) == Some(Function::IndexFields),
        function::function_of("index_drop"@) == Some(Function::IndexDrop),
        function::function_of("by_index"@) == Some(Function::ByIndex),
{
    reveal_strlit("now");
    reveal_strlit("hlc");
    reveal_strlit("before");
    reveal_strlit("clock_skew");
    reveal_strlit("use");
    reveal_strlit("create_ns");
    reveal_strlit("get");
    reveal_strlit("put");
    reveal_strlit("del");
    reveal_strlit("scan");
    reveal_strlit("get_all");
    reveal_strlit("index_create");
    reveal_strlit("index_fields");
    reveal_strlit("index_drop");
    reveal_strlit("by_index");
    assert("now"@.len() == 3);
    assert("hlc"@.len() == 3);
    assert("before"@.len() == 6);
    assert("clock_skew"@.len() == 10);
    assert("use"@.len() == 3);
    assert("create_ns"@.len() == 9);
    assert("get"@.len() == 3);
    assert("put"@.len() == 3);
    assert("del"@.len() == 3);
    assert("scan"@.len() == 4);
    assert("get_all"@.len() == 7);
    assert("index_create"@.len() == 12);
    assert("index_fields"@.len() == 12);
    assert("index_drop"@.len() == 10);
    assert("by_index"@.len() == 8);
    assert("now"@[0] == 'n');
    assert("hlc"@[0] == 'h');
    assert("before"@[0] == 'b');
    assert("clock_skew"@[0] == 'c');
    assert("use"@[0] == 'u');
    assert("create_ns"@[0] == 'c');
    assert("get"@[0] == 'g');
    assert("put"@[0] == 'p');
    assert("del"@[0] == 'd');
    assert("scan"@[0] == 's');
    assert("get_all"@[0] == 'g');
    assert("index_create"@[0] == 'i');
    assert("index_fields"@[0] == 'i');
    assert("index_drop"@[0] == 'i');
    assert("by_index"@[0] == 'b');
    assert("index_create"@[6] == 'c');
    assert("index_fields"@[6] == 'f');
}

/// A call on texts hands them to its function as they stand.
proof fn lemma_on_texts(name: Seq<char>, t: Seq<Seq<char>>, c: CtxV, wall_ms: u64)
    requires
        function::function_of(name) matches Some(f) && f !is Before && f.texts_of(t.len() as int) == t.len()
            && function::refused(f, name, t.len() as int, c.remote, c.scope) is None,
    ensures
        eval::run(laws::on_texts(name, t), c, wall_ms) == eval::effect(
            function::function_of(name)->0,
            eval::chosen(c),
            t,
            c,
            wall_ms,
        ),
{
    laws::lemma_plain_texts(name, t, 0, c, wall_ms);
    assert(t.skip(0) =~= t);
}

proof fn lemma_key_values(rows: Seq<(Seq<u8>, EntryV)>)
    ensures
        eval::key_values(rows).len() == 2 * rows.len(),
        forall|i: int|
            #![trigger rows[i]]
            0 <= i < rows.len() ==> eval::key_values(rows)[2 * i] == ValueV::Str(text::lossy_text(rows[i].0))
                && eval::key_values(rows)[2 * i + 1] == ValueV::Str(eval::latest_text(rows[i].1)),
    decreases rows.len(),
{
    if rows.len() > 0 {
        let front = rows.drop_last();
        lemma_key_values(front);
        assert forall|i: int| #![trigger rows[i]] 0 <= i < rows.len() implies eval::key_values(rows)[2 * i]
            == ValueV::Str(text::lossy_text(rows[i].0)) && eval::key_values(rows)[2 * i + 1] == ValueV::Str(
            eval::latest_text(rows[i].1),
        ) by {
            if i < front.len() {
                assert(front[i] == rows[i]);
            }
        }
    }
}

/// `scan` answers with the keys under a prefix that a read finds, each once and in
/// ascending order, and behind each key what `get` answers for it. The law gives the keys.
pub proof fn law_scan_pairs_keys_with_their_values(
    s: Store,
    c: CtxV,
    prefix: Seq<char>,
    wall_ms: u64,
    get_ms: u64,
) -> (keys: Seq<Seq<u8>>)
    requires
        s.wf(),
        c.store == s@,
        c.scope is Some,
    ensures
        forall|i: int, j: int| 0 <= i < j < keys.len() ==> ordmap::lex_lt(#[trigger] keys[i], #[trigger] keys[j]),
        forall|k: Seq<u8>| #[trigger]
            keys.contains(k) <==> text::utf8(prefix).is_prefix_of(k) && c.store.get(c.scope->0, k) is Some,
        ({
            let ran = eval::run(laws::on_texts("scan"@, seq![prefix]), c, wall_ms);
            &&& ran.ctx == c
            &&& ran.result matches Ok(ValueV::List(l)) && l.len() == 2 * keys.len() && forall|i: int, t: Seq<char>|
                #![trigger keys[i], text::utf8(t)]
                0 <= i < keys.len() && text::utf8(t) == keys[i] ==> l[2 * i] == ValueV::Str(t) && eval::run(
                    laws::on_texts("get"@, seq![t]),
                    c,
                    get_ms,
                ).result == Ok::<ValueV, QueryFault>(l[2 * i + 1])
        }),
        ({
            let ran = eval::run(laws::on_texts("scan"@, seq![prefix]), c, wall_ms);
            forall|i: int|
                #![trigger keys[i]]
                0 <= i < keys.len() ==> ran.result->Ok_0->List_0[2 * i] == ValueV::Str(text::lossy_text(keys[i])) && (
                c.store.get(c.scope->0, keys[i])->0 matches EntryV::Lww(v)
                    ==> ran.result->Ok_0->List_0[2 * i + 1] == ValueV::Str(text::lossy_text(v.value)))
        }),
{
    lemma_function_names();
    let ns = c.scope->0;
    let p = text::utf8(prefix);
    lemma_on_texts("scan"@, seq![prefix], c, wall_ms);
    store::laws::law_scan_lists_what_reads_see(s, ns, p);
    let rows = store::scanned(s@, ns, p);
    lemma_key_values(rows);
    let keys = Seq::new(rows.len(), |i: int| rows[i].0);
    assert forall|i: int, j: int| 0 <= i < j < keys.len() implies ordmap::lex_lt(
        #[trigger] keys[i],
        #[trigger] keys[j],
    ) by {
        assert(keys[i] == rows[i].0 && keys[j] == rows[j].0);
    }
    assert forall|k: Seq<u8>| #[trigger] keys.contains(k) <==> p.is_prefix_of(k) && c.store.get(ns, k) is Some by {
        assert(p.is_prefix_of(k) == store::has_prefix(k, p)) by {
            if p.len() <= k.len() {
                assert(k.take(p.len() as int) =~= k.subrange(0, p.len() as int));
            }
        }
        if keys.contains(k) {
            let i = keys.index_of(k);
            assert(rows[i] == (k, rows[i].1));
            assert(rows.contains((k, rows[i].1)));
        }
        if p.is_prefix_of(k) && c.store.get(ns, k) is Some {
            let e = c.store.get(ns, k)->0;
            assert(rows.contains((k, e)));
            let i = rows.index_of((k, e));
            assert(keys[i] == k);
        }
    }
    assert forall|i: int| 0 <= i < keys.len() implies c.store.get(ns, #[trigger] keys[i]) == Some(rows[i].1) by {
        assert(rows[i] == (keys[i], rows[i].1));
        assert(rows.contains((keys[i], rows[i].1)));
    }
    let l = eval::key_values(rows);
    assert forall|i: int, t: Seq<char>|
        #![trigger keys[i], text::utf8(t)]
        0 <= i < keys.len() && text::utf8(t) == keys[i] implies l[2 * i] == ValueV::Str(t) && eval::run(
        laws::on_texts("get"@, seq![t]),
        c,
        get_ms,
    ).result == Ok::<ValueV, QueryFault>(l[2 * i + 1]) by {
        lemma_on_texts("get"@, seq![t], c, get_ms);
        text::lemma_utf8_decodes(t);
        assert(rows[i].0 == keys[i]);
        assert(c.store.get(ns, keys[i]) == Some(rows[i].1));
    }
    assert forall|i: int| #![trigger keys[i]] 0 <= i < keys.len() implies l[2 * i] == ValueV::Str(
        text::lossy_text(keys[i]),
    ) && (c.store.get(ns, keys[i])->0 matches EntryV::Lww(v) ==> l[2 * i + 1] == ValueV::Str(
        text::lossy_text(v.value),
    )) by {
        assert(rows[i].0 == keys[i]);
    }
    keys
}

/// `get` answers with the value that is seen under a key, and with null where there is
/// none.
pub proof fn law_get_answers_with_the_value(c: CtxV, key: Seq<char>, wall_ms: u64)
    requires
        c.scope is Some,
    ensures
        ({
            let ran = eval::run(laws::on_texts("get"@, seq![key]), c, wall_ms);
            let held = c.store.get(c.scope->0, text::utf8(key));
            &&& ran.ctx == c
            &&& held is None <==> ran.result == Ok::<ValueV, QueryFault>(ValueV::Null)
            &&& held matches Some(EntryV::Lww(v)) ==> ran.result == Ok::<ValueV, QueryFault>(
                ValueV::Str(text::lossy_text(v.value)),
            )
            &&& held matches Some(EntryV::Register(vs)) ==> forall|i: int|
                #![trigger vs[i]]
                0 <= i < vs.len() && (forall|j: int|
                    #![trigger vs[j]]
                    0 <= j < vs.len() && j != i ==> vs[j].hlc < vs[i].hlc) ==> ran.result == Ok::<ValueV, QueryFault>(
                    ValueV::Str(text::lossy_text(vs[i].value)),
                )
        }),
{
    lemma_function_names();
    lemma_on_texts("get"@, seq![key], c, wall_ms);
    let held = c.store.get(c.scope->0, text::utf8(key));
    if held is Some && held->0 is Register {
        let vs = held->0->Register_0;
        assert forall|i: int|
            #![trigger vs[i]]
            0 <= i < vs.len() && (forall|j: int|
                #![trigger vs[j]]
                0 <= j < vs.len() && j != i ==> vs[j].hlc < vs[i].hlc) implies entry::latest_of(vs) == Some(vs[i]) by {
            entry::law_latest_is_the_greatest(vs);
            let k = choose|k: int|
                0 <= k < vs.len() && entry::latest_of(vs) == Some(#[trigger] vs[k]) && forall|j: int|
                    0 <= j < vs.len() ==> !entry::later((#[trigger] vs[j]), vs[k]);
            if k != i {
                assert(entry::later(vs[i], vs[k]));
            }
        }
    }
}

proof fn lemma_version_parts(vs: Seq<VersionV>)
    ensures
        eval::version_parts(vs).len() == 3 * vs.len(),
        forall|i: int|
            #![trigger vs[i]]
            0 <= i < vs.len() ==> eval::version_parts(vs)[3 * i] == ValueV::Str(hexes::hex_text(vs[i].replica))
                && eval::version_parts(vs)[3 * i + 1] == ValueV::Num(vs[i].hlc) && eval::version_parts(vs)[3 * i + 2]
                == ValueV::Str(text::lossy_text(vs[i].value)),
    decreases vs.len(),
{
    if vs.len() > 0 {
        let front = vs.drop_last();
        lemma_version_parts(front);
        assert forall|i: int| #![trigger vs[i]] 0 <= i < vs.len() implies eval::version_parts(vs)[3 * i] == ValueV::Str(
            hexes::hex_text(vs[i].replica),
        ) && eval::version_parts(vs)[3 * i + 1] == ValueV::Num(vs[i].hlc) && eval::version_parts(vs)[3 * i + 2]
            == ValueV::Str(text::lossy_text(vs[i].value)) by {
            if i < front.len() {
                assert(front[i] == vs[i]);
            }
        }
    }
}

/// `get_all` answers with every version under a key, in order: its replica, its clock
/// and its value.
pub proof fn law_get_all_shows_every_version(c: CtxV, key: Seq<char>, wall_ms: u64)
    requires
        c.scope is Some,
    ensures
        ({
            let ran = eval::run(laws::on_texts("get_all"@, seq![key]), c, wall_ms);
            let held = c.store.get(c.scope->0, text::utf8(key));
            &&& ran.ctx == c
            &&& held is None <==> ran.result == Ok::<ValueV, QueryFault>(ValueV::Null)
            &&& held matches Some(EntryV::Lww(v)) ==> ran.result == Ok::<ValueV, QueryFault>(
                ValueV::List(
                    seq![
                        ValueV::Str(hexes::hex_text(v.replica)),
                        ValueV::Num(v.hlc),
                        ValueV::Str(text::lossy_text(v.value)),
                    ],
                ),
            )
            &&& held matches Some(EntryV::Register(vs)) ==> ran.result matches Ok(ValueV::List(l)) && l.len() == 3
                * vs.len() && forall|i: int|
                #![trigger vs[i]]
                0 <= i < vs.len() ==> l[3 * i] == ValueV::Str(hexes::hex_text(vs[i].replica)) && l[3 * i + 1]
                    == ValueV::Num(vs[i].hlc) && l[3 * i + 2] == ValueV::Str(text::lossy_text(vs[i].value))
        }),
{
    lemma_function_names();
    lemma_on_texts("get_all"@, seq![key], c, wall_ms);
    match c.store.get(c.scope->0, text::utf8(key)) {
        Some(EntryV::Lww(v)) => {
            let one = seq![v];
            lemma_version_parts(one);
            assert(one[0] == v);
            let l = eval::version_parts(one);
            assert(l =~= seq![
                ValueV::Str(hexes::hex_text(v.replica)),
                ValueV::Num(v.hlc),
                ValueV::Str(text::lossy_text(v.value)),
            ]) by {
                assert(l[0] == ValueV::Str(hexes::hex_text(v.replica)));
                assert(l[1] == ValueV::Num(v.hlc));
                assert(l[2] == ValueV::Str(text::lossy_text(v.value)));
            }
        },
        Some(EntryV::Register(vs)) => {
            lemma_version_parts(vs);
        },
        None => {},
    }
}

/// `by_index` answers with the keys, in ascending order and each once, whose seen value
/// has the wanted text under an indexed field. The law gives the keys.
pub proof fn law_by_index_finds_the_keys(s: Store, c: CtxV, field: Seq<char>, want: Seq<char>, wall_ms: u64) -> (keys: Seq<
    Seq<u8>,
>)
    requires
        s.wf(),
        c.store == s@,
        c.scope is Some,
        s@.has(c.scope->0),
    ensures
        forall|i: int, j: int| 0 <= i < j < keys.len() ==> ordmap::lex_lt(#[trigger] keys[i], #[trigger] keys[j]),
        forall|k: Seq<u8>| #[trigger]
            keys.contains(k) <==> model::fields_of(s@.meta, c.scope->0).contains(field) && store::laws::is_row(
                s@,
                c.scope->0,
                field,
                (text::utf8(want), k),
            ),
        ({
            let ran = eval::run(laws::on_texts("by_index"@, seq![field, want]), c, wall_ms);
            &&& ran.ctx == c
            &&& ran.result matches Ok(ValueV::List(l)) && l.len() == keys.len() && forall|i: int|
                #![trigger keys[i]]
                0 <= i < keys.len() ==> l[i] == ValueV::Str(text::lossy_text(keys[i]))
        }),
{
    lemma_function_names();
    let ns = c.scope->0;
    lemma_on_texts("by_index"@, seq![field, want], c, wall_ms);
    let d = eval::indexed_keys(s@, ns, field, text::utf8(want));
    s.lemma_index_listed(ns);
    let dom = s@.space(ns).cells.index.dom();
    let all = ordmap::listed(dom);
    vstd::seq_lib::seq_to_set_is_finite(all);
    assert forall|k: Seq<u8>| #[trigger] d.contains(k) <==> model::fields_of(s@.meta, ns).contains(field)
        && store::laws::is_row(s@, ns, field, (text::utf8(want), k)) by {}
    assert(d.subset_of(all.to_set())) by {
        assert forall|k: Seq<u8>| #[trigger] d.contains(k) implies all.to_set().contains(k) by {
            assert(dom.contains(k));
            assert(all.contains(k));
        }
    }
    vstd::set_lib::lemma_set_subset_finite(all.to_set(), d);
    ordmap::lemma_has_list(d);
    let keys = ordmap::listed(d);
    assert forall|k: Seq<u8>| #[trigger] keys.contains(k) <==> model::fields_of(s@.meta, ns).contains(field)
        && store::laws::is_row(s@, ns, field, (text::utf8(want), k)) by {
        assert(keys.contains(k) <==> d.contains(k));
    }
    keys
}

/// `before` compares two numbers, in digits or from other calls: it is true exactly
/// where the first is less.
pub proof fn law_before_compares(a: u64, b: u64, c: CtxV, wall_ms: u64)
    ensures
        eval::run(
            laws::on_texts("before"@, seq![text::decimal(a as int), text::decimal(b as int)]),
            c,
            wall_ms,
        ) == eval::done(c, ValueV::Bool(a < b)),
{
    lemma_function_names();
    text::law_decimal_reads_back(a);
    text::law_decimal_reads_back(b);
    let call = laws::on_texts("before"@, seq![text::decimal(a as int), text::decimal(b as int)]);
    assert(call.args[0] == ArgV::Str(text::decimal(a as int)));
    assert(call.args[1] == ArgV::Str(text::decimal(b as int)));
    assert(eval::number_of(call.args[0], c, wall_ms) == eval::done(c, a));
    assert(eval::number_of(call.args[1], c, wall_ms) == eval::done(c, b));
}

/// `clock_skew` answers by how many milliseconds a peer's clock is ahead, 0 where it is
/// behind, and null for a peer that is not known.
pub proof fn law_clock_skew_is_never_negative(name: Seq<char>, c: CtxV, wall_ms: u64)
    ensures
        ({
            let ran = eval::run(laws::on_texts("clock_skew"@, seq![name]), c, wall_ms);
            let m = c.store.clocks;
            let k = text::utf8(name);
            &&& ran.ctx == c
            &&& !m.dom().contains(k) ==> ran.result == Ok::<ValueV, QueryFault>(ValueV::Null)
            &&& m.dom().contains(k) && m[k] >= 0 ==> (ran.result matches Ok(ValueV::Num(n)) && n == m[k])
            &&& m.dom().contains(k) && m[k] < 0 ==> ran.result == Ok::<ValueV, QueryFault>(ValueV::Num(0))
        }),
{
    lemma_function_names();
    lemma_on_texts("clock_skew"@, seq![name], c, wall_ms);
}

/// `hlc` issues a clock that no call before it got, and `now` answers with its
/// milliseconds: those of the wall clock, or later ones.
pub proof fn law_clocks_are_fresh(c: CtxV, wall_ms: u64)
    requires
        c.clock < u64::MAX,
        wall_ms < 0x1_0000_0000_0000,
    ensures
        ({
            let none = Seq::<Seq<char>>::empty();
            let h = eval::run(laws::on_texts("hlc"@, none), c, wall_ms);
            let n = eval::run(laws::on_texts("now"@, none), c, wall_ms);
            &&& h.result matches Ok(ValueV::Num(x)) && x == h.ctx.clock && x > c.clock && x >= wall_ms * 65536 && (x
                == wall_ms * 65536 || x == c.clock + 1)
            &&& n.ctx == h.ctx
            &&& n.result matches Ok(ValueV::Num(y)) && y as int == h.ctx.clock as int / 65536 && y >= wall_ms
            &&& h.ctx.store == c.store
        }),
{
    lemma_function_names();
    let none = Seq::<Seq<char>>::empty();
    lemma_on_texts("hlc"@, none, c, wall_ms);
    lemma_on_texts("now"@, none, c, wall_ms);
    assert(wall_ms % 0x1_0000_0000_0000 == wall_ms);
    let x = hlc::issued(c.clock, wall_ms);
    assert(x >= wall_ms * 65536);
    assert(x as int / 65536 >= wall_ms);
}

/// `use` chooses a namespace that is there, and refuses one that is not.
pub proof fn law_use_chooses_a_namespace(name: Seq<char>, c: CtxV, wall_ms: u64)
    requires
        !c.remote,
    ensures
        ({
            let ran = eval::run(laws::on_texts("use"@, seq![name]), c, wall_ms);
            if c.store.has(name) {
                ran.result == Ok::<ValueV, QueryFault>(ValueV::Bool(true)) && ran.ctx == (CtxV {
                    scope: Some(name),
                    ..c
                })
            } else {
                ran.result == Err::<ValueV, QueryFault>(QueryFault::Eval(StorageFault::NotFound(name))) && ran.ctx == c
            }
        }),
{
    lemma_function_names();
    lemma_on_texts("use"@, seq![name], c, wall_ms);
}

/// `create_ns` makes an empty namespace in which the last writer wins, and leaves every
/// other one as it was; one that is there already, or whose name is none, is refused.
pub proof fn law_create_ns_makes_an_empty_namespace(name: Seq<char>, other: Seq<char>, key: Seq<u8>, c: CtxV, wall_ms: u64)
    requires
        !c.remote,
        c.writable,
    ensures
        ({
            let ran = eval::run(laws::on_texts("create_ns"@, seq![name]), c, wall_ms);
            let t = ran.ctx.store;
            &&& c.store.has(name) ==> ran.result is Err && t == c.store
            &&& ran.result is Ok ==> !c.store.has(name) && t.has(name) && t.space(name).policy is Lww && t.get(name, key)
                is None && t.space(name).log.records.len() == 0
            &&& ran.result is Err ==> t == c.store
            &&& other != name ==> t.has(other) == c.store.has(other) && t.get(other, key) == c.store.get(other, key)
            &&& ran.ctx.scope == c.scope
        }),
{
    lemma_function_names();
    lemma_on_texts("create_ns"@, seq![name], c, wall_ms);
    if other != name {
        text::lemma_utf8_injective(name, other);
    }
}

/// `put` and `del` touch no other key, and no other namespace; what `put` writes never
/// expires, and is stamped with a fresh clock and the host's key.
pub proof fn law_writes_touch_one_key(
    key: Seq<char>,
    val: Seq<char>,
    ns: Seq<char>,
    other: Seq<u8>,
    c: CtxV,
    wall_ms: u64,
)
    requires
        c.scope is Some,
        c.writable,
        ns != c.scope->0 || other != text::utf8(key),
    ensures
        eval::run(laws::on_texts("put"@, seq![key, val]), c, wall_ms).ctx.store.get(ns, other) == c.store.get(ns, other),
        eval::run(laws::on_texts("del"@, seq![key]), c, wall_ms).ctx.store.get(ns, other) == c.store.get(ns, other),
        ({
            let ran = eval::run(laws::on_texts("put"@, seq![key, val]), c, wall_ms);
            let held = ran.ctx.store.get(c.scope->0, text::utf8(key));
            ran.result is Ok && c.store.space(c.scope->0).policy is Lww ==> (held matches Some(EntryV::Lww(v)) && v.value
                == text::utf8(val) && v.expires_at == 0 && v.hlc == ran.ctx.clock && v.replica == c.host && v.author
                == c.host && (c.clock < u64::MAX ==> v.hlc > c.clock))
        }),
{
    lemma_function_names();
    lemma_on_texts("put"@, seq![key, val], c, wall_ms);
    lemma_on_texts("del"@, seq![key], c, wall_ms);
    if ns != c.scope->0 {
        text::lemma_utf8_injective(ns, c.scope->0);
    }
}

/// `index_create` makes its fields those that are indexed, `index_drop` leaves none, and
/// `index_fields` answers with them. (That a list of texts reads back from its JSON form
/// as it was is a matter of that form.)
pub proof fn law_index_fields_are_those_created(fields: Seq<Seq<char>>, c: CtxV, wall_ms: u64, later_ms: u64)
    requires
        c.scope is Some,
        c.writable,
        fields.len() > 0,
        json::strings_read(text::lossy_text(json::strings_bytes(fields))) == Some(fields),
    ensures
        ({
            let none = Seq::<Seq<char>>::empty();
            let made = eval::run(laws::on_texts("index_create"@, fields), c, wall_ms);
            let shown = eval::run(laws::on_texts("index_fields"@, none), made.ctx, later_ms);
            let dropped = eval::run(laws::on_texts("index_drop"@, none), c, wall_ms);
            let gone = eval::run(laws::on_texts("index_fields"@, none), dropped.ctx, later_ms);
            &&& made.result is Ok ==> (shown.result matches Ok(ValueV::List(l)) && l.len() == fields.len() && forall|i: int|
                #![trigger fields[i]]
                0 <= i < fields.len() ==> l[i] == ValueV::Str(fields[i]))
            &&& dropped.result is Ok ==> gone.result == Ok::<ValueV, QueryFault>(ValueV::List(Seq::empty()))
        }),
{
    lemma_function_names();
    let none = Seq::<Seq<char>>::empty();
    lemma_on_texts("index_create"@, fields, c, wall_ms);
    lemma_on_texts("index_drop"@, none, c, wall_ms);
    let made = eval::run(laws::on_texts("index_create"@, fields), c, wall_ms);
    let dropped = eval::run(laws::on_texts("index_drop"@, none), c, wall_ms);
    lemma_on_texts("index_fields"@, none, made.ctx, later_ms);
    lemma_on_texts("index_fields"@, none, dropped.ctx, later_ms);
    if dropped.result is Ok {
        assert(eval::text_values(model::fields_of(dropped.ctx.store.meta, c.scope->0)) =~= Seq::<ValueV>::empty());
    }
}

// ---------- what is refused ----------

/// May a function be called with so many arguments?
pub open spec fn takes(name: Seq<char>, n: int) -> bool {
    ||| (name == "now"@ || name == "hlc"@) && n == 0
    ||| (name == "get"@ || name == "del"@ || name == "scan"@ || name == "get_all"@ || name == "use"@ || name
        == "create_ns"@ || name == "clock_skew"@) && n == 1
    ||| (name == "put"@ || name == "before"@) && n == 2
    ||| name == "by_index"@ && (n == 2 || n == 3)
    ||| name == "index_create"@ && n >= 1
    ||| name == "index_fields"@ || name == "index_drop"@
}

/// Is the name that of a function?
pub open spec fn is_function(name: Seq<char>) -> bool {
    name == "now"@ || name == "hlc"@ || name == "before"@ || name == "clock_skew"@ || name == "use"@ || name
        == "create_ns"@ || name == "get"@ || name == "put"@ || name == "del"@ || name == "scan"@ || name == "get_all"@
        || name == "index_create"@ || name == "index_fields"@ || name == "index_drop"@ || name == "by_index"@
}

/// Does the function work in the namespace that was chosen?
pub open spec fn needs_namespace(name: Seq<char>) -> bool {
    name == "get"@ || name == "put"@ || name == "del"@ || name == "scan"@ || name == "get_all"@ || name
        == "index_create"@ || name == "index_fields"@ || name == "index_drop"@ || name == "by_index"@
}

/// A call of what is no function fails by its name, one with too few or too many
/// arguments by its type, and one that needs a namespace where none was chosen; nothing
/// changes, and no argument is looked at.
pub proof fn law_misuse_is_refused(call: CallV, c: CtxV, wall_ms: u64)
    ensures
        !is_function(call.name) ==> eval::run(call, c, wall_ms) == eval::fail::<ValueV>(
            c,
            QueryFault::UnknownFn(call.name),
        ),
        is_function(call.name) && !takes(call.name, call.args.len() as int) ==> eval::run(call, c, wall_ms).ctx == c
            && eval::run(call, c, wall_ms).result matches Err(QueryFault::Type(_)),
        needs_namespace(call.name) && takes(call.name, call.args.len() as int) && c.scope is None ==> eval::run(
            call,
            c,
            wall_ms,
        ) == eval::fail::<ValueV>(c, QueryFault::Eval(StorageFault::NoScope)),
{
    lemma_function_names();
}

/// A call as an argument is run first, and its text stands in its place; where it fails,
/// so does the whole, and where it gives no text, that is a fault of type.
pub proof fn law_inner_call_runs_first(name: Seq<char>, k: CallV, c: CtxV, wall_ms: u64)
    requires
        name == "get"@ || name == "del"@ || name == "scan"@ || name == "get_all"@,
        c.scope is Some,
        eval::run(k, c, wall_ms).ctx.scope == c.scope,
    ensures
        ({
            let outer = CallV { name, args: seq![ArgV::Call(k)] };
            let r = eval::run(k, c, wall_ms);
            let ran = eval::run(outer, c, wall_ms);
            &&& r.result matches Err(f) ==> ran == eval::fail::<ValueV>(r.ctx, f)
            &&& r.result matches Ok(ValueV::Str(s)) ==> ran == eval::run(laws::on_texts(name, seq![s]), r.ctx, wall_ms)
            &&& r.result is Ok && !(r.result->Ok_0 is Str) ==> ran.ctx == r.ctx && ran.result matches Err(QueryFault::Type(_))
        }),
{
    lemma_function_names();
    let outer = CallV { name, args: seq![ArgV::Call(k)] };
    let r = eval::run(k, c, wall_ms);
    assert(outer.args[0] == ArgV::Call(k));
    assert(outer.args.len() == 1);
    let rest = eval::texts_from(outer, 1, 1, r.ctx, wall_ms);
    assert(rest == eval::done(r.ctx, Seq::<Seq<char>>::empty()));
    let ts = eval::texts_from(outer, 0, 1, c, wall_ms);
    if r.result is Ok && r.result->Ok_0 is Str {
        let s = r.result->Ok_0->Str_0;
        assert(seq![s] + Seq::<Seq<char>>::empty() =~= seq![s]);
        assert(ts == eval::done(r.ctx, seq![s]));
        lemma_on_texts(name, seq![s], r.ctx, wall_ms);
    }
}

/// What writes: `put`, `del`, `index_create` and `index_drop`, and a call with one of them
/// among its arguments; no other call does.
pub proof fn law_writing_calls_are_told_apart(name: Seq<char>, t: Seq<Seq<char>>, outer: CallV, i: int)
    ensures
        is_function(name) ==> (eval::mutates(laws::on_texts(name, t)) <==> name == "put"@ || name == "del"@ || name
            == "index_create"@ || name == "index_drop"@),
        !is_function(name) ==> !eval::mutates(laws::on_texts(name, t)),
        0 <= i < outer.args.len() && (outer.args[i] matches ArgV::Call(k) && eval::mutates(k)) ==> eval::mutates(outer),
{
    lemma_function_names();
    lemma_no_inner(laws::on_texts(name, t), 0);
    if 0 <= i < outer.args.len() {
        lemma_inner(outer, i, 0);
    }
}

proof fn lemma_no_inner(call: CallV, i: int)
    requires
        0 <= i,
        forall|j: int| 0 <= j < call.args.len() ==> (#[trigger] call.args[j]) is Str,
    ensures
        !eval::mutates_from(call, i),
    decreases call.args.len() - i,
{
    if i < call.args.len() {
        lemma_no_inner(call, i + 1);
        assert(call.args[i] is Str);
    }
}

proof fn lemma_inner(call: CallV, i: int, from: int)
    requires
        0 <= from <= i < call.args.len(),
    ensures
        (call.args[i] matches ArgV::Call(k) && eval::mutates(k)) ==> eval::mutates_from(call, from),
    decreases i - from,
{
    if from < i {
        lemma_inner(call, i, from + 1);
    }
}

} // verus!
