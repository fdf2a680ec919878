//! Checking what a peer sent, before it is taken in.
//!
//! Every record of a batch has to parse, and to chain to the one before it. The first
//! one's link points into the peer's own history and is taken as it is: each node's log
//! is its own. Clocks may go back within a batch, as records of third nodes come in
//! between.

use crate::storage::error::StorageFault;
use crate::storage::log;
use crate::storage::record;
use crate::storage::record::{Record, RecordV};
use crate::text;
use vstd::prelude::*;

verus! {

#[derive(Debug)]
pub enum MergeError {
    /// A record that does not parse or does not chain.
    Corrupt(String),
    /// A clock that goes back; no batch is refused for it.
    NonMonotonicHlc { seq: u64 },
    UnknownNamespace(String),
}

/// A merge error as a value of the model.
pub enum MergeFault {
    Corrupt(Seq<char>),
    NonMonotonicHlc { seq: u64 },
    UnknownNamespace(Seq<char>),
}

impl View for MergeError {
    type V = MergeFault;

    open spec fn view(&self) -> MergeFault {
        match self {
            MergeError::Corrupt(m) => MergeFault::Corrupt(m@),
            MergeError::NonMonotonicHlc { seq } => MergeFault::NonMonotonicHlc { seq: *seq },
            MergeError::UnknownNamespace(n) => MergeFault::UnknownNamespace(n@),
        }
    }
}

impl MergeFault {
    /// The message for a person.
    pub open spec fn message(self) -> Seq<char> {
        match self {
            MergeFault::Corrupt(m) => "corrupt batch: "@ + m,
            MergeFault::NonMonotonicHlc { seq } => "non-monotonic hlc at seq "@ + text::decimal(seq as int),
            MergeFault::UnknownNamespace(n) => "unknown namespace "@ + text::debug_text(n),
        }
    }
}

impl MergeError {
    /// The message for a person.
    pub fn message(&self) -> (r: String)
        ensures
            r@ == self@.message(),
    {
        match self {
            MergeError::Corrupt(m) => text::join2("corrupt batch: ", m.as_str()),
            MergeError::NonMonotonicHlc { seq } => text::join2(
                "non-monotonic hlc at seq ",
                text::dec(*seq).as_str(),
            ),
            MergeError::UnknownNamespace(n) => text::join2(
                "unknown namespace ",
                text::debug_string(n.as_str()).as_str(),
            ),
        }
    }
}

/// Numbered records in bytes.
pub open spec fn numbered(l: Seq<(u64, Vec<u8>)>) -> Seq<(u64, Seq<u8>)> {
    Seq::new(l.len(), |i: int| (l[i].0, l[i].1@))
}

/// The records of a batch as far as they are sound, the hash of the last one, and what
/// is wrong behind it.
pub struct CheckedV {
    pub records: Seq<RecordV>,
    pub head: Option<Seq<u8>>,
    pub fault: Option<MergeFault>,
}

/// What is wrong with a record of a batch.
pub open spec fn record_fault(seq: u64, f: StorageFault) -> MergeFault {
    MergeFault::Corrupt("record "@ + text::decimal(seq as int) + ": "@ + f.message())
}

/// Check a batch in order, each record against the hash of the one before.
pub open spec fn checked(batch: Seq<(u64, Seq<u8>)>) -> CheckedV
    decreases batch.len(),
{
    if batch.len() == 0 {
        CheckedV { records: Seq::empty(), head: None, fault: None }
    } else {
        let before = checked(batch.drop_last());
        let bytes = batch.last().1;
        if before.fault is Some {
            before
        } else {
            match record::parse_record(bytes, before.head) {
                Err(f) => CheckedV { fault: Some(record_fault(batch.last().0, f.error())), ..before },
                Ok(r) => CheckedV {
                    records: before.records.push(r),
                    head: Some(record::hash_of(record::prev_of(bytes), bytes)),
                    fault: None,
                },
            }
        }
    }
}

/// Check a batch that was pulled; its records come back in order. The local head plays
/// no part: the chains of two nodes differ.
pub fn verify_batch(local_head: [u8; 32], records: &Vec<(u64, Vec<u8>)>) -> (r: Result<Vec<Record>, MergeError>)
    ensures
        ({
            let c = checked(numbered(records@));
            match c.fault {
                None => r matches Ok(l) && log::record_views(l@) == c.records,
                Some(f) => r matches Err(e) && e@ == f,
            }
        }),
{
    let ghost all = numbered(records@);
    let mut head: Option<[u8; 32]> = None;
    let mut out: Vec<Record> = Vec::new();
    let mut i: usize = 0;
    proof {
        assert(all.take(0) =~= Seq::empty());
        assert(log::record_views(out@) =~= Seq::empty());
    }
    while i < records.len()
        invariant
            i <= records@.len(),
            all == numbered(records@),
            ({
                let c = checked(all.take(i as int));
                &&& c.fault is None
                &&& log::record_views(out@) == c.records
                &&& match head {
                    Some(h) => c.head == Some(h@),
                    None => c.head is None,
                }
            }),
        decreases records@.len() - i,
    {
        let ghost had = log::record_views(out@);
        proof {
            assert(all.take(i + 1).drop_last() =~= all.take(i as int));
            assert(all.take(i + 1).last() == all[i as int]);
        }
        let (seq, bytes) = (&records[i].0, &records[i].1);
        let parsed = match &head {
            Some(h) => Record::parse_chain(bytes.as_slice(), Some(h)),
            None => Record::parse_chain(bytes.as_slice(), None),
        };
        match parsed {
            Err(e) => {
                let mut m = text::join3("record ", text::dec(*seq).as_str(), ": ");
                m.push_str(e.message().as_str());
                proof {
                    lemma_fault_stays(all, i + 1);
                }
                return Err(MergeError::Corrupt(m));
            },
            Ok((rec, prev)) => {
                head = Some(Record::record_hash(&prev, bytes.as_slice()));
                let ghost rv = rec@;
                out.push(rec);
                assert(log::record_views(out@) =~= had.push(rv));
            },
        }
        i += 1;
    }
    assert(all.take(i as int) =~= all);
    Ok(out)
}

/// What is wrong with the front of a batch is wrong with the batch.
proof fn lemma_fault_stays(batch: Seq<(u64, Seq<u8>)>, n: int)
    requires
        0 <= n <= batch.len(),
        checked(batch.take(n)).fault is Some,
    ensures
        checked(batch) == checked(batch.take(n)),
    decreases batch.len() - n,
{
    if n == batch.len() {
        assert(batch.take(n) =~= batch);
    } else {
        assert(batch.take(n + 1).drop_last() =~= batch.take(n));
        lemma_fault_stays(batch, n + 1);
    }
}

// ---------- laws ----------

/// A batch with a record that does not parse is refused as a whole: nothing of it is
/// taken in.
pub proof fn law_broken_record_refuses_batch(batch: Seq<(u64, Seq<u8>)>, i: int)
    requires
        0 <= i < batch.len(),
        record::parse_record(batch[i].1, None) is Err,
    ensures
        checked(batch).fault is Some,
{
    let t = batch.take(i + 1);
    assert(t.last() == batch[i]);
    let before = checked(t.drop_last());
    if before.fault is None {
        assert(record::parse_record(batch[i].1, before.head) is Err);
    }
    lemma_fault_stays(batch, i + 1);
}

/// A record whose link is not the hash of the one before it refuses the batch.
pub proof fn law_broken_link_refuses_batch(batch: Seq<(u64, Seq<u8>)>, i: int)
    requires
        0 < i < batch.len(),
        record::prev_of(batch[i].1) != record::hash_of(record::prev_of(batch[i - 1].1), batch[i - 1].1),
    ensures
        checked(batch).fault is Some,
{
    let t = batch.take(i + 1);
    let u = batch.take(i);
    assert(t.drop_last() =~= u);
    assert(t.last() == batch[i]);
    assert(u.last() == batch[i - 1]);
    if checked(u).fault is None {
        assert(checked(u).head == Some(record::hash_of(record::prev_of(batch[i - 1].1), batch[i - 1].1)));
        assert(record::parse_record(batch[i].1, checked(u).head) is Err);
    }
    lemma_fault_stays(batch, i + 1);
}

} // verus!
