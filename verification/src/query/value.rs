//! Values of the query language and what can go wrong with a query.

use crate::storage::error::{StorageError, StorageFault};
use crate::text;
use vstd::prelude::*;
use vstd::std_specs::convert::FromSpecImpl;

verus! {

#[derive(Debug, PartialEq)]
pub enum QueryValue {
    Null,
    Bool(bool),
    Num(u64),
    Str(String),
    List(Vec<QueryValue>),
}

/// A value of the model.
#[verifier::ext_equal]
pub enum ValueV {
    Null,
    Bool(bool),
    Num(u64),
    Str(Seq<char>),
    List(Seq<ValueV>),
}

impl QueryValue {
    /// The value in the model.
    pub open spec fn value(self) -> ValueV
        decreases self,
    {
        match self {
            QueryValue::Null => ValueV::Null,
            QueryValue::Bool(b) => ValueV::Bool(b),
            QueryValue::Num(n) => ValueV::Num(n),
            QueryValue::Str(s) => ValueV::Str(s@),
            QueryValue::List(l) => ValueV::List(
                Seq::new(
                    l@.len(),
                    |i: int|
                        if 0 <= i < l@.len() {
                            l@[i].value()
                        } else {
                            ValueV::Null
                        },
                ),
            ),
        }
    }
}

/// The values of the model, one for one.
pub open spec fn values(l: Seq<QueryValue>) -> Seq<ValueV> {
    Seq::new(l.len(), |i: int| l[i].value())
}

pub proof fn lemma_list(l: Vec<QueryValue>)
    ensures
        QueryValue::List(l).value() == ValueV::List(values(l@)),
{
    assert(QueryValue::List(l).value()->List_0 =~= values(l@));
}

/// `true` or `false`.
pub open spec fn bool_text(b: bool) -> Seq<char> {
    if b {
        "true"@
    } else {
        "false"@
    }
}

/// How a value is written: as JSON, or with the names of its variants.
pub open spec fn shown(v: ValueV, named: bool) -> Seq<char>
    decreases v, 1nat, 0nat,
{
    match v {
        ValueV::Null => if named {
            "Null"@
        } else {
            "null"@
        },
        ValueV::Bool(b) => wrapped("Bool("@, bool_text(b), named),
        ValueV::Num(n) => wrapped("Num("@, text::decimal(n as int), named),
        ValueV::Str(s) => if named {
            wrapped("Str("@, text::debug_text(s), named)
        } else {
            text::json_quoted(s)
        },
        ValueV::List(l) => wrapped("List("@, "["@ + shown_from(v, 0, named) + "]"@, named),
    }
}

/// A text, inside the name of a variant where one is asked for.
pub open spec fn wrapped(open: Seq<char>, inner: Seq<char>, named: bool) -> Seq<char> {
    if named {
        open + inner + ")"@
    } else {
        inner
    }
}

/// What stands between the elements of a list.
pub open spec fn separator(named: bool) -> Seq<char> {
    if named {
        ", "@
    } else {
        ","@
    }
}

/// The elements of a list from place `i` on.
pub open spec fn shown_from(v: ValueV, i: int, named: bool) -> Seq<char>
    decreases v, 0nat, left(v, i),
{
    match v {
        ValueV::List(l) => if 0 <= i < l.len() {
            if i + 1 == l.len() {
                shown(l[i], named)
            } else {
                shown(l[i], named) + separator(named) + shown_from(v, i + 1, named)
            }
        } else {
            Seq::empty()
        },
        _ => Seq::empty(),
    }
}

/// The elements of a list from place `i` on, counted.
pub open spec fn left(v: ValueV, i: int) -> nat {
    match v {
        ValueV::List(l) => if 0 <= i < l.len() {
            (l.len() - i) as nat
        } else {
            0
        },
        _ => 0,
    }
}

fn wrap(open: &str, inner: &str, named: bool) -> (r: String)
    ensures
        r@ == wrapped(open@, inner@, named),
{
    if named {
        text::join3(open, inner, ")")
    } else {
        text::copy_text(inner)
    }
}

fn show(v: &QueryValue, named: bool) -> (r: String)
    ensures
        r@ == shown(v.value(), named),
    decreases v,
{
    match v {
        QueryValue::Null => if named {
            text::copy_text("Null")
        } else {
            text::copy_text("null")
        },
        QueryValue::Bool(b) => if *b {
            wrap("Bool(", "true", named)
        } else {
            wrap("Bool(", "false", named)
        },
        QueryValue::Num(n) => wrap("Num(", text::dec(*n).as_str(), named),
        QueryValue::Str(s) => if named {
            wrap("Str(", text::debug_string(s.as_str()).as_str(), named)
        } else {
            text::json_string(s.as_str())
        },
        QueryValue::List(l) => {
            let ghost vv = v.value();
            let ghost all = values(l@);
            proof {
                lemma_list(*l);
            }
            let mut out = text::copy_text("[");
            let mut i: usize = 0;
            while i < l.len()
                invariant
                    i <= l@.len(),
                    *v == QueryValue::List(*l),
                    all == values(l@),
                    vv == ValueV::List(all),
                    "["@ + shown_from(vv, 0, named) == out@ + shown_from(vv, i as int, named),
                decreases l@.len() - i,
            {
                let ghost had = out@;
                proof {
                    lemma_element_smaller(*v, *l, i as int);
                    assert(all[i as int] == l@[i as int].value());
                }
                let one = show(&l[i], named);
                out.push_str(one.as_str());
                i += 1;
                if i < l.len() {
                    if named {
                        out.push_str(", ");
                    } else {
                        out.push_str(",");
                    }
                }
                proof {
                    if i < l@.len() {
                        assert(had + (one@ + separator(named) + shown_from(vv, i as int, named)) =~= had + one@
                            + separator(named) + shown_from(vv, i as int, named));
                    } else {
                        assert(shown_from(vv, i as int, named) =~= Seq::empty());
                        assert(out@ + shown_from(vv, i as int, named) =~= had + one@);
                    }
                }
            }
            assert(out@ + shown_from(vv, i as int, named) =~= out@);
            out.push_str("]");
            wrap("List(", out.as_str(), named)
        },
    }
}

proof fn lemma_element_smaller(v: QueryValue, l: Vec<QueryValue>, i: int)
    requires
        v == QueryValue::List(l),
        0 <= i < l@.len(),
    ensures
        decreases_to!(v => l@[i]),
{
    assert(decreases_to!(v => v->List_0));
    assert(decreases_to!(l => l@));
    assert(decreases_to!(l@ => l@[i]));
}

impl QueryValue {
    /// The value as JSON: `null`, `true`, `N`, `"s"`, `[...]`.
    pub fn json(&self) -> (r: String)
        ensures
            r@ == shown(self.value(), false),
    {
        show(self, false)
    }

    /// The value with the names of its variants, for messages.
    pub(crate) fn debug(&self) -> (r: String)
        ensures
            r@ == shown(self.value(), true),
    {
        show(self, true)
    }
}

#[derive(Debug)]
pub enum QueryError {
    Parse { line: usize, col: usize, msg: String },
    UnknownFn(String),
    Type(String),
    Eval(StorageError),
}

/// A query error as a value of the model.
pub enum QueryFault {
    Parse { line: usize, col: usize, msg: Seq<char> },
    UnknownFn(Seq<char>),
    Type(Seq<char>),
    Eval(StorageFault),
}

impl View for QueryError {
    type V = QueryFault;

    open spec fn view(&self) -> QueryFault {
        match self {
            QueryError::Parse { line, col, msg } => QueryFault::Parse { line: *line, col: *col, msg: msg@ },
            QueryError::UnknownFn(n) => QueryFault::UnknownFn(n@),
            QueryError::Type(m) => QueryFault::Type(m@),
            QueryError::Eval(e) => QueryFault::Eval(e@),
        }
    }
}

impl QueryFault {
    /// The message for a person.
    pub open spec fn message(self) -> Seq<char> {
        match self {
            QueryFault::Parse { line, col, msg } => "parse error at "@ + text::decimal(line as int) + ":"@
                + text::decimal(col as int) + ": "@ + msg,
            QueryFault::UnknownFn(n) => "unknown function: "@ + n,
            QueryFault::Type(m) => "type error: "@ + m,
            QueryFault::Eval(e) => "eval error: "@ + e.message(),
        }
    }
}

impl QueryError {
    /// The message for a person.
    pub fn message(&self) -> (r: String)
        ensures
            r@ == self@.message(),
    {
        match self {
            QueryError::Parse { line, col, msg } => {
                let mut r = text::join3("parse error at ", text::dec(*line as u64).as_str(), ":");
                r.push_str(text::dec(*col as u64).as_str());
                r.push_str(": ");
                r.push_str(msg.as_str());
                r
            },
            QueryError::UnknownFn(n) => text::join2("unknown function: ", n.as_str()),
            QueryError::Type(m) => text::join2("type error: ", m.as_str()),
            QueryError::Eval(e) => text::join2("eval error: ", e.message().as_str()),
        }
    }
}

impl FromSpecImpl<StorageError> for QueryError {
    open spec fn obeys_from_spec() -> bool {
        true
    }

    open spec fn from_spec(e: StorageError) -> QueryError {
        QueryError::Eval(e)
    }
}

impl From<StorageError> for QueryError {
    fn from(e: StorageError) -> (q: QueryError) {
        QueryError::Eval(e)
    }
}

/// A value is answered as JSON: null, true or false, a number in decimal, a text in
/// quotes, and a list in brackets with commas between its elements.
pub proof fn law_values_are_shown_as_json(b: bool, n: u64, s: Seq<char>, x: ValueV, l: Seq<ValueV>)
    ensures
        shown(ValueV::Null, false) == seq!['n', 'u', 'l', 'l'],
        shown(ValueV::Bool(b), false) == if b {
            seq!['t', 'r', 'u', 'e']
        } else {
            seq!['f', 'a', 'l', 's', 'e']
        },
        shown(ValueV::Num(n), false) == text::decimal(n as int),
        shown(ValueV::Str(s), false) == text::json_quoted(s),
        shown(ValueV::List(Seq::empty()), false) == seq!['[', ']'],
        shown(ValueV::List(seq![x]), false) == seq!['['] + shown(x, false) + seq![']'],
        l.len() > 0 ==> shown(ValueV::List(l.push(x)), false) == shown(ValueV::List(l), false).drop_last() + seq![',']
            + shown(x, false) + seq![']'],
{
    reveal_strlit("null");
    reveal_strlit("true");
    reveal_strlit("false");
    reveal_strlit("[");
    reveal_strlit("]");
    reveal_strlit(",");
    assert("null"@ =~= seq!['n', 'u', 'l', 'l']);
    assert("true"@ =~= seq!['t', 'r', 'u', 'e']);
    assert("false"@ =~= seq!['f', 'a', 'l', 's', 'e']);
    assert("["@ =~= seq!['[']);
    assert("]"@ =~= seq![']']);
    assert(","@ =~= seq![',']);
    let none = ValueV::List(Seq::empty());
    assert(shown_from(none, 0, false) =~= Seq::empty());
    assert(shown(none, false) =~= seq!['[', ']']);
    let one = ValueV::List(seq![x]);
    assert(seq![x][0] == x);
    assert(shown_from(one, 0, false) == shown(x, false));
    if l.len() > 0 {
        lemma_shown_push(l, x, 0);
        let (p, q) = (ValueV::List(l), ValueV::List(l.push(x)));
        assert(shown(q, false) =~= shown(p, false).drop_last() + seq![','] + shown(x, false) + seq![']']);
    }
}

proof fn lemma_shown_push(l: Seq<ValueV>, x: ValueV, i: int)
    requires
        0 <= i < l.len(),
    ensures
        shown_from(ValueV::List(l.push(x)), i, false) == shown_from(ValueV::List(l), i, false) + ","@ + shown(x, false),
    decreases l.len() - i,
{
    let q = ValueV::List(l.push(x));
    let p = ValueV::List(l);
    let m = l.push(x);
    assert(m[i] == l[i]);
    if i + 1 == l.len() {
        assert(m[i + 1] == x);
        assert(shown_from(q, i + 1, false) == shown(x, false));
        assert(shown_from(p, i, false) == shown(l[i], false));
        assert(shown_from(q, i, false) =~= shown_from(p, i, false) + ","@ + shown(x, false));
    } else {
        lemma_shown_push(l, x, i + 1);
        assert(shown_from(q, i, false) =~= shown_from(p, i, false) + ","@ + shown(x, false));
    }
}

} // verus!
