//! What is answered to a request.

use crate::hexes;
use crate::json;
use crate::server::config;
use crate::server::config::{Peer, PeerV};
use crate::storage::entry::{ConflictPolicy, Version, VersionV};
use crate::text;
use crate::util;
use vstd::prelude::*;

verus! {

/// One version of a key.
#[derive(Debug)]
pub struct VersionOut {
    pub hlc: u64,
    pub replica: String,
    pub seq: u64,
    pub expires_at: u64,
    pub value_b64: String,
}

/// A key with its value.
#[derive(Debug)]
pub struct EntryOut {
    pub key: String,
    pub value_b64: String,
    pub expires_at: u64,
}

/// What a record of the log says; a batch says how many operations it holds.
#[derive(Debug)]
pub struct RecordOut {
    pub key_b64: String,
    pub value_b64: String,
    pub del: bool,
    pub ttl: bool,
    pub expires_at: u64,
    pub hlc: u64,
    pub batch: bool,
    pub ops: u64,
}

/// A record of the log by its number; none where it cannot be read.
#[derive(Debug)]
pub struct ChangeOut {
    pub seq: u64,
    pub record: Option<RecordOut>,
}

/// A key with more than one version.
#[derive(Debug)]
pub struct ConflictOut {
    pub key: String,
    pub versions: Vec<VersionOut>,
}

/// What came of one operation of a batch.
#[derive(Debug)]
pub enum OpOut {
    /// A value, or none under the key.
    Got(Option<String>),
    /// The number of the record that wrote it.
    Put(u64),
    Deleted,
    Failed(String),
}

/// An answer.
#[derive(Debug)]
pub enum Reply {
    Done,
    Error { status: u16, code: String },
    Namespaces(Vec<(String, ConflictPolicy)>),
    Written(u64),
    Stored { seq: u64, expires_at: u64 },
    Value(Vec<u8>),
    Versions { key: String, versions: Vec<VersionOut> },
    Entries(Vec<EntryOut>),
    Head { seq: u64, hash: String },
    Changes { since: u64, seq: u64, hash: String, changes: Vec<ChangeOut> },
    Conflicts(Vec<ConflictOut>),
    /// A JSON text.
    Json(String),
    Fields(Vec<String>),
    /// JSON texts, one for each capability.
    Ledger(Vec<String>),
    Results(Vec<OpOut>),
    Peers(Vec<Peer>),
}

#[verifier::ext_equal]
pub struct VersionOutV {
    pub hlc: u64,
    pub replica: Seq<char>,
    pub seq: u64,
    pub expires_at: u64,
    pub value_b64: Seq<char>,
}

#[verifier::ext_equal]
pub struct EntryOutV {
    pub key: Seq<char>,
    pub value_b64: Seq<char>,
    pub expires_at: u64,
}

#[verifier::ext_equal]
pub struct RecordOutV {
    pub key_b64: Seq<char>,
    pub value_b64: Seq<char>,
    pub del: bool,
    pub ttl: bool,
    pub expires_at: u64,
    pub hlc: u64,
    pub batch: bool,
    pub ops: int,
}

#[verifier::ext_equal]
pub struct ChangeOutV {
    pub seq: u64,
    pub record: Option<RecordOutV>,
}

#[verifier::ext_equal]
pub struct ConflictOutV {
    pub key: Seq<char>,
    pub versions: Seq<VersionOutV>,
}

#[verifier::ext_equal]
pub enum OpOutV {
    Got(Option<Seq<char>>),
    Put(u64),
    Deleted,
    Failed(Seq<char>),
}

/// An answer as a value of the model.
#[verifier::ext_equal]
pub enum ReplyV {
    Done,
    Error { status: u16, code: Seq<char> },
    Namespaces(Seq<(Seq<char>, ConflictPolicy)>),
    Written(u64),
    Stored { seq: u64, expires_at: u64 },
    Value(Seq<u8>),
    Versions { key: Seq<char>, versions: Seq<VersionOutV> },
    Entries(Seq<EntryOutV>),
    Head { seq: u64, hash: Seq<char> },
    Changes { since: u64, seq: u64, hash: Seq<char>, changes: Seq<ChangeOutV> },
    Conflicts(Seq<ConflictOutV>),
    Json(Seq<char>),
    Fields(Seq<Seq<char>>),
    Ledger(Seq<Seq<char>>),
    Results(Seq<OpOutV>),
    Peers(Seq<PeerV>),
}

impl View for VersionOut {
    type V = VersionOutV;

    open spec fn view(&self) -> VersionOutV {
        VersionOutV {
            hlc: self.hlc,
            replica: self.replica@,
            seq: self.seq,
            expires_at: self.expires_at,
            value_b64: self.value_b64@,
        }
    }
}

impl View for EntryOut {
    type V = EntryOutV;

    open spec fn view(&self) -> EntryOutV {
        EntryOutV { key: self.key@, value_b64: self.value_b64@, expires_at: self.expires_at }
    }
}

impl View for RecordOut {
    type V = RecordOutV;

    open spec fn view(&self) -> RecordOutV {
        RecordOutV {
            key_b64: self.key_b64@,
            value_b64: self.value_b64@,
            del: self.del,
            ttl: self.ttl,
            expires_at: self.expires_at,
            hlc: self.hlc,
            batch: self.batch,
            ops: self.ops as int,
        }
    }
}

impl View for ChangeOut {
    type V = ChangeOutV;

    open spec fn view(&self) -> ChangeOutV {
        ChangeOutV {
            seq: self.seq,
            record: match self.record {
                Some(r) => Some(r@),
                None => None,
            },
        }
    }
}

/// The views of some versions.
pub open spec fn version_outs(vs: Seq<VersionOut>) -> Seq<VersionOutV> {
    Seq::new(vs.len(), |i: int| vs[i]@)
}

impl View for ConflictOut {
    type V = ConflictOutV;

    open spec fn view(&self) -> ConflictOutV {
        ConflictOutV { key: self.key@, versions: version_outs(self.versions@) }
    }
}

impl View for OpOut {
    type V = OpOutV;

    open spec fn view(&self) -> OpOutV {
        match self {
            OpOut::Got(v) => OpOutV::Got(
                match v {
                    Some(s) => Some(s@),
                    None => None,
                },
            ),
            OpOut::Put(n) => OpOutV::Put(*n),
            OpOut::Deleted => OpOutV::Deleted,
            OpOut::Failed(m) => OpOutV::Failed(m@),
        }
    }
}

impl View for Reply {
    type V = ReplyV;

    open spec fn view(&self) -> ReplyV {
        match self {
            Reply::Done => ReplyV::Done,
            Reply::Error { status, code } => ReplyV::Error { status: *status, code: code@ },
            Reply::Namespaces(l) => ReplyV::Namespaces(Seq::new(l@.len(), |i: int| (l@[i].0@, l@[i].1))),
            Reply::Written(n) => ReplyV::Written(*n),
            Reply::Stored { seq, expires_at } => ReplyV::Stored { seq: *seq, expires_at: *expires_at },
            Reply::Value(b) => ReplyV::Value(b@),
            Reply::Versions { key, versions } => ReplyV::Versions { key: key@, versions: version_outs(versions@) },
            Reply::Entries(l) => ReplyV::Entries(Seq::new(l@.len(), |i: int| l@[i]@)),
            Reply::Head { seq, hash } => ReplyV::Head { seq: *seq, hash: hash@ },
            Reply::Changes { since, seq, hash, changes } => ReplyV::Changes {
                since: *since,
                seq: *seq,
                hash: hash@,
                changes: Seq::new(changes@.len(), |i: int| changes@[i]@),
            },
            Reply::Conflicts(l) => ReplyV::Conflicts(Seq::new(l@.len(), |i: int| l@[i]@)),
            Reply::Json(s) => ReplyV::Json(s@),
            Reply::Fields(l) => ReplyV::Fields(json::texts(l@)),
            Reply::Ledger(l) => ReplyV::Ledger(json::texts(l@)),
            Reply::Results(l) => ReplyV::Results(Seq::new(l@.len(), |i: int| l@[i]@)),
            Reply::Peers(l) => ReplyV::Peers(config::peer_views(l@)),
        }
    }
}

/// An error answer.
pub fn refuse(status: u16, code: &str) -> (r: Reply)
    ensures
        r@ == (ReplyV::Error { status, code: code@ }),
{
    Reply::Error { status, code: text::copy_text(code) }
}

/// An error answer of the model.
pub open spec fn refusal(status: u16, code: Seq<char>) -> ReplyV {
    ReplyV::Error { status, code }
}

impl Reply {
    /// The status code.
    pub fn status(&self) -> (r: u16)
        ensures
            r == (match self@ {
                ReplyV::Error { status, code } => status,
                _ => 200,
            }),
    {
        match self {
            Reply::Error { status, code: _ } => *status,
            _ => 200,
        }
    }
}

/// A version for an answer.
pub open spec fn version_out(v: VersionV) -> VersionOutV {
    VersionOutV {
        hlc: v.hlc,
        replica: hexes::hex_text(v.replica),
        seq: v.seq,
        expires_at: v.expires_at,
        value_b64: util::b64_text(false, v.value),
    }
}

/// A version for an answer: every replica's own value.
pub fn version_json(v: &Version) -> (r: VersionOut)
    ensures
        r@ == version_out(v@),
{
    VersionOut {
        hlc: v.hlc,
        replica: hexes::hex_encode(v.replica.as_slice()),
        seq: v.seq,
        expires_at: v.expires_at,
        value_b64: util::b64_encode(v.value.as_slice()),
    }
}

/// Some versions for an answer.
pub fn list_versions(vs: &Vec<Version>) -> (r: Vec<VersionOut>)
    ensures
        version_outs(r@) == Seq::new(vs@.len(), |i: int| version_out(vs@[i]@)),
{
    let mut out: Vec<VersionOut> = Vec::new();
    let mut i: usize = 0;
    while i < vs.len()
        invariant
            i <= vs@.len(),
            out@.len() == i,
            forall|j: int| 0 <= j < i ==> (#[trigger] out@[j])@ == version_out(vs@[j]@),
        decreases vs@.len() - i,
    {
        out.push(version_json(&vs[i]));
        i += 1;
    }
    assert(version_outs(out@) =~= Seq::new(vs@.len(), |j: int| version_out(vs@[j]@)));
    out
}

} // verus!
