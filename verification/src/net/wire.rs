//! What peers say to each other.

use vstd::prelude::*;

verus! {

#[derive(Debug)]
pub enum SyncRequest {
    Hello,
    Pull { ns: String, from_seq: u64 },
}

#[derive(Debug)]
pub enum SyncResponse {
    Hello(HelloResponse),
    Records(Records),
    /// The one who asks is no peer with a pin that its connection proves: nothing was
    /// read for it.
    Denied,
}

/// Who answers, its clock, and how far its namespaces are.
#[derive(Debug)]
pub struct HelloResponse {
    pub host_id: String,
    pub hlc: u64,
    pub namespaces: Vec<NsHead>,
}

#[derive(Debug)]
pub struct NsHead {
    pub ns: String,
    pub seq: u64,
    pub hash: String,
}

#[derive(Debug)]
pub struct Records {
    pub ns: String,
    pub records: Vec<Rec>,
}

#[derive(Debug)]
pub struct Rec {
    pub seq: u64,
    pub payload_b64: String,
}

pub enum SyncRequestV {
    Hello,
    Pull { ns: Seq<char>, from_seq: u64 },
}

#[verifier::ext_equal]
pub enum SyncResponseV {
    Hello(HelloV),
    Records(RecordsV),
    Denied,
}

#[verifier::ext_equal]
pub struct HelloV {
    pub host_id: Seq<char>,
    pub hlc: u64,
    pub namespaces: Seq<NsHeadV>,
}

#[verifier::ext_equal]
pub struct NsHeadV {
    pub ns: Seq<char>,
    pub seq: u64,
    pub hash: Seq<char>,
}

#[verifier::ext_equal]
pub struct RecordsV {
    pub ns: Seq<char>,
    pub records: Seq<RecV>,
}

#[verifier::ext_equal]
pub struct RecV {
    pub seq: u64,
    pub payload_b64: Seq<char>,
}

impl View for SyncRequest {
    type V = SyncRequestV;

    open spec fn view(&self) -> SyncRequestV {
        match self {
            SyncRequest::Hello => SyncRequestV::Hello,
            SyncRequest::Pull { ns, from_seq } => SyncRequestV::Pull { ns: ns@, from_seq: *from_seq },
        }
    }
}

impl View for NsHead {
    type V = NsHeadV;

    open spec fn view(&self) -> NsHeadV {
        NsHeadV { ns: self.ns@, seq: self.seq, hash: self.hash@ }
    }
}

impl View for Rec {
    type V = RecV;

    open spec fn view(&self) -> RecV {
        RecV { seq: self.seq, payload_b64: self.payload_b64@ }
    }
}

/// The views of some heads.
pub open spec fn head_views(l: Seq<NsHead>) -> Seq<NsHeadV> {
    Seq::new(l.len(), |i: int| l[i]@)
}

/// The views of some records.
pub open spec fn rec_views(l: Seq<Rec>) -> Seq<RecV> {
    Seq::new(l.len(), |i: int| l[i]@)
}

impl View for HelloResponse {
    type V = HelloV;

    open spec fn view(&self) -> HelloV {
        HelloV { host_id: self.host_id@, hlc: self.hlc, namespaces: head_views(self.namespaces@) }
    }
}

impl View for Records {
    type V = RecordsV;

    open spec fn view(&self) -> RecordsV {
        RecordsV { ns: self.ns@, records: rec_views(self.records@) }
    }
}

impl View for SyncResponse {
    type V = SyncResponseV;

    open spec fn view(&self) -> SyncResponseV {
        match self {
            SyncResponse::Hello(h) => SyncResponseV::Hello(h@),
            SyncResponse::Records(r) => SyncResponseV::Records(r@),
            SyncResponse::Denied => SyncResponseV::Denied,
        }
    }
}

} // verus!
