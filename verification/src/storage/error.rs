//! What can go wrong in the store.

use crate::text;
use vstd::prelude::*;

verus! {

#[allow(inconsistent_fields)]
#[derive(Debug)]
pub enum StorageError {
    Corrupt { ns: Option<String>, detail: String },
    Io(String),
    NotFound(String),
    NoScope,
    NamespaceExists(String),
    BadName(String),
    QuotaExceeded { ns: String, limit: u64 },
}

/// A storage error as a value of the model.
#[allow(inconsistent_fields)]
pub enum StorageFault {
    Corrupt { ns: Option<Seq<char>>, detail: Seq<char> },
    Io(Seq<char>),
    NotFound(Seq<char>),
    NoScope,
    NamespaceExists(Seq<char>),
    BadName(Seq<char>),
    QuotaExceeded { ns: Seq<char>, limit: u64 },
}

impl View for StorageError {
    type V = StorageFault;

    open spec fn view(&self) -> StorageFault {
        match self {
            StorageError::Corrupt { ns, detail } => StorageFault::Corrupt {
                ns: match ns {
                    Some(n) => Some(n@),
                    None => None,
                },
                detail: detail@,
            },
            StorageError::Io(m) => StorageFault::Io(m@),
            StorageError::NotFound(m) => StorageFault::NotFound(m@),
            StorageError::NoScope => StorageFault::NoScope,
            StorageError::NamespaceExists(n) => StorageFault::NamespaceExists(n@),
            StorageError::BadName(n) => StorageFault::BadName(n@),
            StorageError::QuotaExceeded { ns, limit } => StorageFault::QuotaExceeded {
                ns: ns@,
                limit: *limit,
            },
        }
    }
}

impl StorageFault {
    /// The message for a person.
    pub open spec fn message(self) -> Seq<char> {
        match self {
            StorageFault::Corrupt { ns, detail } => match ns {
                Some(n) => "corrupt storage (ns "@ + n + "): "@ + detail,
                None => "corrupt storage: "@ + detail,
            },
            StorageFault::Io(e) => "io error: "@ + e,
            StorageFault::NotFound(x) => "not found: "@ + x,
            StorageFault::NoScope => "no namespace selected: call use() first"@,
            StorageFault::NamespaceExists(n) => "namespace exists: "@ + n,
            StorageFault::BadName(n) => "bad namespace name: "@ + n,
            StorageFault::QuotaExceeded { ns, limit } => "quota exceeded for "@ + ns + " (limit "@
                + text::decimal(limit as int) + " bytes)"@,
        }
    }
}

impl StorageError {
    /// The message for a person.
    pub fn message(&self) -> (r: String)
        ensures
            r@ == self@.message(),
    {
        match self {
            StorageError::Corrupt { ns, detail } => match ns {
                Some(n) => {
                    let mut r = text::join3("corrupt storage (ns ", n.as_str(), "): ");
                    r.push_str(detail.as_str());
                    r
                },
                None => text::join2("corrupt storage: ", detail.as_str()),
            },
            StorageError::Io(e) => text::join2("io error: ", e.as_str()),
            StorageError::NotFound(x) => text::join2("not found: ", x.as_str()),
            StorageError::NoScope => text::copy_text("no namespace selected: call use() first"),
            StorageError::NamespaceExists(n) => text::join2("namespace exists: ", n.as_str()),
            StorageError::BadName(n) => text::join2("bad namespace name: ", n.as_str()),
            StorageError::QuotaExceeded { ns, limit } => {
                let mut r = text::join3("quota exceeded for ", ns.as_str(), " (limit ");
                r.push_str(text::dec(*limit).as_str());
                r.push_str(" bytes)");
                r
            },
        }
    }
}

/// Corruption without a namespace.
pub(crate) fn corrupt(detail: String) -> (e: StorageError)
    ensures
        e@ == (StorageFault::Corrupt { ns: None, detail: detail@ }),
{
    StorageError::Corrupt { ns: None, detail }
}

/// Corruption found in a namespace.
pub(crate) fn corrupt_in(ns: &str, detail: String) -> (e: StorageError)
    ensures
        e@ == (StorageFault::Corrupt { ns: Some(ns@), detail: detail@ }),
{
    StorageError::Corrupt { ns: Some(text::copy_text(ns)), detail }
}

} // verus!
