//! The functions of the query language.

use crate::query::value::{QueryError, QueryFault};
use crate::storage::error::{StorageError, StorageFault};
use crate::text;
use vstd::prelude::*;

verus! {

#[derive(Debug, Clone, Copy, PartialEq, Eq, Structural)]
pub enum Function {
    Now,
    Hlc,
    Before,
    ClockSkew,
    Use,
    CreateNs,
    Get,
    Put,
    Del,
    Scan,
    GetAll,
    IndexCreate,
    IndexFields,
    IndexDrop,
    ByIndex,
}

/// The function of a name.
pub open spec fn function_of(name: Seq<char>) -> Option<Function> {
    if name == "now"@ {
        Some(Function::Now)
    } else if name == "hlc"@ {
        Some(Function::Hlc)
    } else if name == "before"@ {
        Some(Function::Before)
    } else if name == "clock_skew"@ {
        Some(Function::ClockSkew)
    } else if name == "use"@ {
        Some(Function::Use)
    } else if name == "create_ns"@ {
        Some(Function::CreateNs)
    } else if name == "get"@ {
        Some(Function::Get)
    } else if name == "put"@ {
        Some(Function::Put)
    } else if name == "del"@ {
        Some(Function::Del)
    } else if name == "scan"@ {
        Some(Function::Scan)
    } else if name == "get_all"@ {
        Some(Function::GetAll)
    } else if name == "index_create"@ {
        Some(Function::IndexCreate)
    } else if name == "index_fields"@ {
        Some(Function::IndexFields)
    } else if name == "index_drop"@ {
        Some(Function::IndexDrop)
    } else if name == "by_index"@ {
        Some(Function::ByIndex)
    } else {
        None
    }
}

/// The function of a name.
pub fn find_function(name: &str) -> (r: Option<Function>)
    ensures
        r == function_of(name@),
{
    if text::same_text(name, "now") {
        Some(Function::Now)
    } else if text::same_text(name, "hlc") {
        Some(Function::Hlc)
    } else if text::same_text(name, "before") {
        Some(Function::Before)
    } else if text::same_text(name, "clock_skew") {
        Some(Function::ClockSkew)
    } else if text::same_text(name, "use") {
        Some(Function::Use)
    } else if text::same_text(name, "create_ns") {
        Some(Function::CreateNs)
    } else if text::same_text(name, "get") {
        Some(Function::Get)
    } else if text::same_text(name, "put") {
        Some(Function::Put)
    } else if text::same_text(name, "del") {
        Some(Function::Del)
    } else if text::same_text(name, "scan") {
        Some(Function::Scan)
    } else if text::same_text(name, "get_all") {
        Some(Function::GetAll)
    } else if text::same_text(name, "index_create") {
        Some(Function::IndexCreate)
    } else if text::same_text(name, "index_fields") {
        Some(Function::IndexFields)
    } else if text::same_text(name, "index_drop") {
        Some(Function::IndexDrop)
    } else if text::same_text(name, "by_index") {
        Some(Function::ByIndex)
    } else {
        None
    }
}

impl Function {
    /// How many arguments the function takes, where that is fixed.
    pub open spec fn arity(self) -> Option<int> {
        match self {
            Function::Now | Function::Hlc => Some(0),
            Function::Before | Function::Put => Some(2),
            Function::IndexCreate | Function::IndexFields | Function::IndexDrop | Function::ByIndex => None,
            _ => Some(1),
        }
    }

    /// How many of `n` arguments are taken as texts.
    pub open spec fn texts_of(self, n: int) -> int {
        match self {
            Function::Now | Function::Hlc | Function::Before | Function::IndexFields | Function::IndexDrop => 0,
            Function::IndexCreate => n,
            Function::Put | Function::ByIndex => 2,
            _ => 1,
        }
    }

    /// Does the function work in the namespace that was chosen?
    pub open spec fn is_scoped(self) -> bool {
        match self {
            Function::Now
            | Function::Hlc
            | Function::Before
            | Function::ClockSkew
            | Function::Use
            | Function::CreateNs => false,
            _ => true,
        }
    }

    /// Does the function write data or a definition?
    pub open spec fn is_mutator(self) -> bool {
        match self {
            Function::Put | Function::Del | Function::IndexCreate | Function::IndexDrop => true,
            _ => false,
        }
    }

    pub fn mutator(self) -> (r: bool)
        ensures
            r == self.is_mutator(),
    {
        match self {
            Function::Put | Function::Del | Function::IndexCreate | Function::IndexDrop => true,
            _ => false,
        }
    }

    pub fn texts(self, n: usize) -> (r: usize)
        ensures
            r == self.texts_of(n as int),
    {
        match self {
            Function::Now | Function::Hlc | Function::Before | Function::IndexFields | Function::IndexDrop => 0,
            Function::IndexCreate => n,
            Function::Put | Function::ByIndex => 2,
            _ => 1,
        }
    }
}

/// Why a call with `n` arguments is refused for their number.
pub open spec fn arity_fault(f: Function, name: Seq<char>, n: int) -> Option<QueryFault> {
    match f.arity() {
        Some(k) => if n == k {
            None
        } else {
            Some(
                QueryFault::Type(
                    name + "() takes "@ + text::decimal(k) + " argument(s), got "@ + text::decimal(n),
                ),
            )
        },
        None => if f is IndexCreate && n == 0 {
            Some(QueryFault::Type("index_create(field[, field...])"@))
        } else if f is ByIndex && (n < 2 || n > 3) {
            Some(QueryFault::Type("by_index(field, value[, ns])"@))
        } else {
            None
        },
    }
}

/// Why a call is refused before its arguments are looked at: the number of arguments,
/// a function that remote callers have no right to, or no namespace.
pub open spec fn refused(f: Function, name: Seq<char>, n: int, remote: bool, scope: Option<Seq<char>>) -> Option<
    QueryFault,
> {
    if arity_fault(f, name, n) is Some {
        arity_fault(f, name, n)
    } else if remote && f is Use {
        Some(QueryFault::Type("use() is not available over the HTTP ql API"@))
    } else if remote && f is CreateNs {
        Some(QueryFault::Type("create_ns() is not available over the HTTP ql API"@))
    } else if f.is_scoped() && scope is None {
        Some(QueryFault::Eval(StorageFault::NoScope))
    } else {
        None
    }
}

fn wrong_count(name: &str, k: u64, n: usize) -> (e: QueryError)
    ensures
        e@ == QueryFault::Type(
            name@ + "() takes "@ + text::decimal(k as int) + " argument(s), got "@ + text::decimal(n as int),
        ),
{
    let mut m = text::join3(name, "() takes ", text::dec(k).as_str());
    m.push_str(" argument(s), got ");
    m.push_str(text::dec(n as u64).as_str());
    QueryError::Type(m)
}

/// Why a call is refused before its arguments are looked at.
pub fn refuse(f: Function, name: &str, n: usize, remote: bool, scoped: bool) -> (r: Option<QueryError>)
    ensures
        forall|scope: Option<Seq<char>>|
            scope is Some == scoped ==> match #[trigger] refused(f, name@, n as int, remote, scope) {
                Some(q) => r matches Some(e) && e@ == q,
                None => r is None,
            },
{
    let needs = match f {
        Function::Now
        | Function::Hlc
        | Function::Before
        | Function::ClockSkew
        | Function::Use
        | Function::CreateNs => false,
        _ => true,
    };
    match f {
        Function::Now | Function::Hlc => {
            if n != 0 {
                return Some(wrong_count(name, 0, n));
            }
        },
        Function::Before | Function::Put => {
            if n != 2 {
                return Some(wrong_count(name, 2, n));
            }
        },
        Function::IndexCreate => {
            if n == 0 {
                return Some(QueryError::Type(text::copy_text("index_create(field[, field...])")));
            }
        },
        Function::ByIndex => {
            if n < 2 || n > 3 {
                return Some(QueryError::Type(text::copy_text("by_index(field, value[, ns])")));
            }
        },
        Function::IndexFields | Function::IndexDrop => {},
        _ => {
            if n != 1 {
                return Some(wrong_count(name, 1, n));
            }
        },
    }
    if remote {
        match f {
            Function::Use => {
                return Some(
                    QueryError::Type(text::copy_text("use() is not available over the HTTP ql API")),
                );
            },
            Function::CreateNs => {
                return Some(
                    QueryError::Type(text::copy_text("create_ns() is not available over the HTTP ql API")),
                );
            },
            _ => {},
        }
    }
    if needs && !scoped {
        return Some(QueryError::Eval(StorageError::NoScope));
    }
    None
}

} // verus!
