//! The append-only merkle log of one namespace.
//!
//! A log is a row of segments, each a run of records; a new segment starts where the
//! next record would pass 64 MiB. The hash of a record is the chain link of the next
//! one. A crash can tear the record that was being written and no other, so recovery
//! cuts the tail of the last segment and nothing else: any other damage is refused.

pub use crate::storage::crc::crc32;
pub use crate::storage::record::{
    Record, HEADER_LEN, TAG_BATCH, TAG_DEL, TAG_INDEX, TAG_PUT, TAG_PUT_TTL, TAG_SCHEMA,
};

use crate::storage::error::{StorageError, StorageFault};
use crate::storage::record;
use crate::text;
use vstd::bytes::*;
use vstd::prelude::*;
use vstd::slice::*;

verus! {

/// Segment roll threshold.
pub const SEGMENT_BYTES: u64 = 67_108_864;

/// What recovery had to do.
#[derive(Debug, Clone, Copy, PartialEq, Eq, Structural)]
pub enum RecoverWarning {
    /// The last segment ended in a torn or damaged record, which was cut off.
    TruncatedTail { records_dropped: u64 },
}

/// The chain link of the first record.
pub open spec fn zero_head() -> Seq<u8> {
    Seq::new(32, |i: int| 0u8)
}

/// A count that stops at the largest `u64`.
pub open spec fn cap64(n: int) -> int {
    if n > u64::MAX {
        u64::MAX as int
    } else {
        n
    }
}

/// How reading a run of records ended.
pub enum Scan {
    /// At the end of the bytes.
    Clean { records: Seq<Seq<u8>>, head: Seq<u8> },
    /// In a torn record at the end of the last segment; `at` bytes of it stand.
    Torn { records: Seq<Seq<u8>>, head: Seq<u8>, at: int },
    /// In damage that no torn write explains.
    Corrupt { detail: Seq<char> },
}

/// Where a segment stands in its log.
pub struct Site {
    pub seg: int,
    pub base: int,
    pub last: bool,
}

impl Scan {
    /// The scan with records in front of it.
    pub open spec fn after(self, front: Seq<Seq<u8>>) -> Scan {
        match self {
            Scan::Clean { records, head } => Scan::Clean { records: front + records, head },
            Scan::Torn { records, head, at } => Scan::Torn { records: front + records, head, at },
            Scan::Corrupt { detail } => self,
        }
    }
}

/// Read the records of a segment from `pos` on; `seq` records came before.
pub open spec fn scan(site: Site, buf: Seq<u8>, pos: int, head: Seq<u8>, seq: int) -> Scan
    decreases buf.len() - pos,
{
    let left = buf.len() - pos;
    let len = HEADER_LEN + record::declared_len(buf.skip(pos));
    let bytes = buf.subrange(pos, pos + len);
    let torn = Scan::Torn { records: Seq::empty(), head, at: pos };
    if left <= 0 {
        Scan::Clean { records: Seq::empty(), head }
    } else if left < HEADER_LEN {
        if site.last {
            torn
        } else {
            Scan::Corrupt {
                detail: "partial record header in non-final segment "@ + text::decimal(site.seg)
                    + " at offset "@ + text::decimal(pos),
            }
        }
    } else if !record::is_tag(buf[pos]) {
        Scan::Corrupt {
            detail: "bad record tag 0x"@ + text::numeral(buf[pos] as nat, 16)
                + " at logical offset "@ + text::decimal(cap64(site.base + pos)),
        }
    } else if len > left {
        if site.last {
            torn
        } else {
            Scan::Corrupt {
                detail: "record length "@ + text::decimal(len) + " exceeds non-final segment "@
                    + text::decimal(site.seg) + " remainder"@,
            }
        }
    } else {
        match record::parse_record(bytes, Some(head)) {
            Ok(_) => scan(
                site,
                buf,
                pos + len,
                record::hash_of(record::prev_of(bytes), bytes),
                seq + 1,
            ).after(seq![bytes]),
            Err(f) => if site.last && len >= left {
                torn
            } else {
                Scan::Corrupt {
                    detail: "record "@ + text::decimal(seq) + " (logical offset "@ + text::decimal(
                        cap64(site.base + pos),
                    ) + "): "@ + f.error().message(),
                }
            },
        }
    }
}

/// Read the segments from number `i` on.
pub open spec fn scan_all(segs: Seq<Seq<u8>>, i: int, base: int, head: Seq<u8>, seq: int) -> Scan
    decreases segs.len() - i,
{
    if i >= segs.len() {
        Scan::Clean { records: Seq::empty(), head }
    } else {
        let site = Site { seg: i, base, last: i + 1 == segs.len() };
        match scan(site, segs[i], 0, head, seq) {
            Scan::Clean { records, head: next } => scan_all(
                segs,
                i + 1,
                cap64(base + segs[i].len()),
                next,
                seq + records.len(),
            ).after(records),
            other => other,
        }
    }
}

/// What a row of segments holds.
pub open spec fn scan_log(segs: Seq<Seq<u8>>) -> Scan {
    scan_all(segs, 0, 0, zero_head(), 0)
}

// ---------- what scanning keeps ----------

proof fn lemma_after_after(s: Scan, a: Seq<Seq<u8>>, b: Seq<Seq<u8>>)
    ensures
        s.after(b).after(a) == s.after(a + b),
{
    match s {
        Scan::Clean { records, head } => assert(a + (b + records) =~= a + b + records),
        Scan::Torn { records, head, at } => assert(a + (b + records) =~= a + b + records),
        Scan::Corrupt { detail } => {},
    }
}

proof fn lemma_after_none(s: Scan)
    ensures
        s.after(Seq::empty()) == s,
{
    match s {
        Scan::Clean { records, head } => assert(Seq::empty() + records =~= records),
        Scan::Torn { records, head, at } => assert(Seq::empty() + records =~= records),
        Scan::Corrupt { detail } => {},
    }
}

/// A clean segment stays clean, whatever stands around it.
proof fn lemma_clean_anywhere(site: Site, other: Site, buf: Seq<u8>, pos: int, head: Seq<u8>, seq: int, seq2: int)
    requires
        scan(site, buf, pos, head, seq) is Clean,
    ensures
        scan(other, buf, pos, head, seq2) == scan(site, buf, pos, head, seq),
    decreases buf.len() - pos,
{
    let left = buf.len() - pos;
    if left > 0 {
        let len = HEADER_LEN + record::declared_len(buf.skip(pos));
        let bytes = buf.subrange(pos, pos + len);
        lemma_clean_anywhere(
            site,
            other,
            buf,
            pos + len,
            record::hash_of(record::prev_of(bytes), bytes),
            seq + 1,
            seq2 + 1,
        );
    }
}

/// A record that chains to the head may stand behind a clean segment.
proof fn lemma_scan_append(site: Site, buf: Seq<u8>, pos: int, head: Seq<u8>, seq: int, more: Seq<u8>)
    requires
        0 <= pos <= buf.len(),
        scan(site, buf, pos, head, seq) is Clean,
        record::framed(more),
        record::parse_record(more, Some(scan(site, buf, pos, head, seq)->Clean_head)) is Ok,
    ensures
        scan(site, buf + more, pos, head, seq) == (Scan::Clean {
            records: scan(site, buf, pos, head, seq)->Clean_records.push(more),
            head: record::hash_of(record::prev_of(more), more),
        }),
    decreases buf.len() - pos,
{
    let all = buf + more;
    if pos == buf.len() {
        assert(all.skip(pos) =~= more);
        assert(all.subrange(pos, pos + more.len()) =~= more);
        let next = record::hash_of(record::prev_of(more), more);
        assert(scan(site, all, pos + more.len(), next, seq + 1) == (Scan::Clean {
            records: Seq::empty(),
            head: next,
        }));
        assert(seq![more] + Seq::<Seq<u8>>::empty() =~= Seq::<Seq<u8>>::empty().push(more));
    } else {
        let len = HEADER_LEN + record::declared_len(buf.skip(pos));
        let bytes = buf.subrange(pos, pos + len);
        assert(buf.skip(pos).subrange(1, 5) =~= all.skip(pos).subrange(1, 5));
        assert(all.subrange(pos, pos + len) =~= bytes);
        let next = record::hash_of(record::prev_of(bytes), bytes);
        lemma_scan_append(site, buf, pos + len, next, seq + 1, more);
        let rest = scan(site, buf, pos + len, next, seq + 1)->Clean_records;
        assert(seq![bytes] + rest.push(more) =~= (seq![bytes] + rest).push(more));
    }
}

/// A record that is cut short is torn off at the end of the last segment.
proof fn lemma_scan_torn(site: Site, buf: Seq<u8>, pos: int, head: Seq<u8>, seq: int, whole: Seq<u8>, n: int)
    requires
        0 <= pos <= buf.len(),
        site.last,
        scan(site, buf, pos, head, seq) is Clean,
        record::framed(whole),
        record::is_tag(whole[0]),
        0 < n < whole.len(),
    ensures
        scan(site, buf + whole.take(n), pos, head, seq) == (Scan::Torn {
            records: scan(site, buf, pos, head, seq)->Clean_records,
            head: scan(site, buf, pos, head, seq)->Clean_head,
            at: buf.len() as int,
        }),
    decreases buf.len() - pos,
{
    let cut = whole.take(n);
    let all = buf + cut;
    if pos == buf.len() {
        if n >= HEADER_LEN {
            assert(all.skip(pos).subrange(1, 5) =~= whole.subrange(1, 5));
        }
    } else {
        let len = HEADER_LEN + record::declared_len(buf.skip(pos));
        let bytes = buf.subrange(pos, pos + len);
        assert(buf.skip(pos).subrange(1, 5) =~= all.skip(pos).subrange(1, 5));
        assert(all.subrange(pos, pos + len) =~= bytes);
        let next = record::hash_of(record::prev_of(bytes), bytes);
        lemma_scan_torn(site, buf, pos + len, next, seq + 1, whole, n);
    }
}

/// Cutting a torn tail leaves a clean segment with the records before it.
proof fn lemma_scan_cut(site: Site, buf: Seq<u8>, pos: int, head: Seq<u8>, seq: int)
    requires
        0 <= pos <= buf.len(),
        scan(site, buf, pos, head, seq) is Torn,
    ensures
        ({
            let t = scan(site, buf, pos, head, seq);
            &&& pos <= t->at < buf.len()
            &&& scan(site, buf.take(t->at), pos, head, seq) == (Scan::Clean {
                records: t->Torn_records,
                head: t->Torn_head,
            })
        }),
    decreases buf.len() - pos,
{
    let t = scan(site, buf, pos, head, seq);
    let left = buf.len() - pos;
    let len = HEADER_LEN + record::declared_len(buf.skip(pos));
    let bytes = buf.subrange(pos, pos + len);
    if left >= HEADER_LEN && record::is_tag(buf[pos]) && len <= left && record::parse_record(
        bytes,
        Some(head),
    ) is Ok {
        let next = record::hash_of(record::prev_of(bytes), bytes);
        lemma_scan_cut(site, buf, pos + len, next, seq + 1);
        let kept = buf.take(t->at);
        assert(kept.skip(pos).subrange(1, 5) =~= buf.skip(pos).subrange(1, 5));
        assert(kept.subrange(pos, pos + len) =~= bytes);
    } else {
        assert(t->at == pos);
        assert(buf.take(pos).len() == pos);
    }
}

/// The segments with one more record, as [`Log::append`] places it.
pub open spec fn segs_append(segs: Seq<Seq<u8>>, more: Seq<u8>) -> Seq<Seq<u8>> {
    let cur = segs.last();
    if cur.len() > 0 && cur.len() + more.len() > SEGMENT_BYTES {
        segs.push(more)
    } else {
        segs.update(segs.len() - 1, cur + more)
    }
}

proof fn lemma_all_append(segs: Seq<Seq<u8>>, i: int, base: int, head: Seq<u8>, seq: int, more: Seq<u8>)
    requires
        0 <= i < segs.len(),
        scan_all(segs, i, base, head, seq) is Clean,
        record::framed(more),
        record::parse_record(more, Some(scan_all(segs, i, base, head, seq)->Clean_head)) is Ok,
    ensures
        scan_all(segs_append(segs, more), i, base, head, seq) == (Scan::Clean {
            records: scan_all(segs, i, base, head, seq)->Clean_records.push(more),
            head: record::hash_of(record::prev_of(more), more),
        }),
    decreases segs.len() - i,
{
    let out = segs_append(segs, more);
    let n = segs.len() as int;
    let site = Site { seg: i, base, last: i + 1 == n };
    let site2 = Site { seg: i, base, last: i + 1 == out.len() };
    let first = scan(site, segs[i], 0, head, seq);
    let records = first->Clean_records;
    let next = first->Clean_head;
    if i + 1 < n {
        lemma_clean_anywhere(site, site2, segs[i], 0, head, seq, seq);
        lemma_all_append(segs, i + 1, cap64(base + segs[i].len()), next, seq + records.len(), more);
        let rest = scan_all(segs, i + 1, cap64(base + segs[i].len()), next, seq + records.len())->Clean_records;
        assert(records + rest.push(more) =~= (records + rest).push(more));
        assert(out[i] == segs[i]);
        assert(scan(site2, out[i], 0, head, seq) == first);
    } else {
        let tail = scan_all(segs, i + 1, cap64(base + segs[i].len()), next, seq + records.len());
        assert(tail == (Scan::Clean { records: Seq::empty(), head: next }));
        assert(records + Seq::<Seq<u8>>::empty() =~= records);
        let h2 = record::hash_of(record::prev_of(more), more);
        if out.len() == n {
            lemma_scan_append(site, segs[i], 0, head, seq, more);
            let rs = records.push(more);
            assert(rs + Seq::<Seq<u8>>::empty() =~= rs);
            assert(scan_all(out, i + 1, cap64(base + out[i].len()), h2, seq + rs.len()) == (Scan::Clean {
                records: Seq::empty(),
                head: h2,
            }));
        } else {
            lemma_clean_anywhere(site, site2, segs[i], 0, head, seq, seq);
            let b2 = cap64(base + segs[i].len());
            let s2 = seq + records.len();
            let last = Site { seg: i + 1, base: b2, last: true };
            let none = Seq::<u8>::empty();
            assert(scan(last, none, 0, next, s2) == (Scan::Clean { records: Seq::empty(), head: next }));
            lemma_scan_append(last, none, 0, next, s2, more);
            assert(none + more =~= more);
            let one = Seq::<Seq<u8>>::empty().push(more);
            assert(scan(last, out[i + 1], 0, next, s2) == (Scan::Clean { records: one, head: h2 }));
            assert(scan_all(out, i + 2, cap64(b2 + more.len()), h2, s2 + 1) == (Scan::Clean {
                records: Seq::empty(),
                head: h2,
            }));
            assert(one + Seq::<Seq<u8>>::empty() =~= one);
            assert(scan_all(out, i + 1, b2, next, s2) == (Scan::Clean { records: one, head: h2 }));
            assert(records + one =~= records.push(more));
        }
    }
}

/// What a log holds, as a value of the model.
#[verifier::ext_equal]
pub struct LogV {
    pub segs: Seq<Seq<u8>>,
    pub records: Seq<Seq<u8>>,
    pub head: Seq<u8>,
}

impl LogV {
    /// Scanning the segments finds exactly the records, chained up to the head.
    pub open spec fn chained(self) -> bool {
        &&& self.segs.len() > 0
        &&& self.head.len() == 32
        &&& scan_log(self.segs) == (Scan::Clean { records: self.records, head: self.head })
    }

    /// The log with one more record.
    pub open spec fn append(self, bytes: Seq<u8>) -> LogV {
        LogV {
            segs: segs_append(self.segs, bytes),
            records: self.records.push(bytes),
            head: record::hash_of(record::prev_of(bytes), bytes),
        }
    }

    /// An empty log.
    pub open spec fn empty() -> LogV {
        LogV { segs: seq![Seq::<u8>::empty()], records: Seq::empty(), head: zero_head() }
    }
}

/// Appending a record that chains to the head keeps the log chained: it recovers to
/// the same records with the new one behind them.
pub proof fn law_append_keeps_chain(log: LogV, bytes: Seq<u8>)
    requires
        log.chained(),
        record::framed(bytes),
        record::parse_record(bytes, Some(log.head)) is Ok,
    ensures
        scan_log(log.append(bytes).segs) == (Scan::Clean {
            records: log.records.push(bytes),
            head: record::hash_of(record::prev_of(bytes), bytes),
        }),
{
    lemma_all_append(log.segs, 0, 0, zero_head(), 0, bytes);
}

proof fn lemma_all_torn(segs: Seq<Seq<u8>>, i: int, base: int, head: Seq<u8>, seq: int, whole: Seq<u8>, n: int)
    requires
        0 <= i < segs.len(),
        scan_all(segs, i, base, head, seq) is Clean,
        record::framed(whole),
        record::is_tag(whole[0]),
        0 < n < whole.len(),
    ensures
        scan_all(segs.update(segs.len() - 1, segs.last() + whole.take(n)), i, base, head, seq) == (Scan::Torn {
            records: scan_all(segs, i, base, head, seq)->Clean_records,
            head: scan_all(segs, i, base, head, seq)->Clean_head,
            at: segs.last().len() as int,
        }),
    decreases segs.len() - i,
{
    let site = Site { seg: i, base, last: i + 1 == segs.len() };
    let first = scan(site, segs[i], 0, head, seq);
    let records = first->Clean_records;
    let next = first->Clean_head;
    if i + 1 < segs.len() {
        lemma_all_torn(segs, i + 1, cap64(base + segs[i].len()), next, seq + records.len(), whole, n);
    } else {
        lemma_scan_torn(site, segs[i], 0, head, seq, whole, n);
        assert(scan_all(segs, i + 1, cap64(base + segs[i].len()), next, seq + records.len()) == (Scan::Clean {
            records: Seq::empty(),
            head: next,
        }));
        assert(records + Seq::<Seq<u8>>::empty() =~= records);
    }
}

/// A crash in the middle of an append costs that record alone: the segments with any
/// part of it behind them recover to the log before the append.
pub proof fn law_torn_append_recovers(log: LogV, bytes: Seq<u8>, n: int)
    requires
        log.chained(),
        record::framed(bytes),
        record::is_tag(bytes[0]),
        0 < n < bytes.len(),
    ensures
        scan_log(log.segs.update(log.segs.len() - 1, log.segs.last() + bytes.take(n))) == (Scan::Torn {
            records: log.records,
            head: log.head,
            at: log.segs.last().len() as int,
        }),
{
    lemma_all_torn(log.segs, 0, 0, zero_head(), 0, bytes, n);
}

proof fn lemma_all_cut(segs: Seq<Seq<u8>>, i: int, base: int, head: Seq<u8>, seq: int)
    requires
        0 <= i < segs.len(),
        scan_all(segs, i, base, head, seq) is Torn,
    ensures
        ({
            let t = scan_all(segs, i, base, head, seq);
            &&& 0 <= t->at < segs.last().len()
            &&& scan_all(segs.update(segs.len() - 1, segs.last().take(t->at)), i, base, head, seq) == (Scan::Clean {
                records: t->Torn_records,
                head: t->Torn_head,
            })
        }),
    decreases segs.len() - i,
{
    let t = scan_all(segs, i, base, head, seq);
    let site = Site { seg: i, base, last: i + 1 == segs.len() };
    let first = scan(site, segs[i], 0, head, seq);
    if i + 1 < segs.len() {
        lemma_torn_is_last(site, segs[i], 0, head, seq);
        let records = first->Clean_records;
        lemma_all_cut(segs, i + 1, cap64(base + segs[i].len()), first->Clean_head, seq + records.len());
    } else {
        let cut = segs.update(segs.len() - 1, segs.last().take(t->at));
        if first is Clean {
            assert(scan_all(segs, i + 1, cap64(base + segs[i].len()), first->Clean_head, seq
                + first->Clean_records.len()) is Clean);
        }
        lemma_scan_cut(site, segs[i], 0, head, seq);
        let rs = t->Torn_records;
        assert(rs + Seq::<Seq<u8>>::empty() =~= rs);
        assert(scan_all(cut, i + 1, cap64(base + cut[i].len()), t->Torn_head, seq + rs.len()) == (Scan::Clean {
            records: Seq::empty(),
            head: t->Torn_head,
        }));
    }
}

/// Recovery cuts nothing but the tail of the last segment: what is left scans as clean,
/// with the records that were read before the tail.
pub proof fn law_recovery_cuts_the_tail_alone(segs: Seq<Seq<u8>>)
    requires
        segs.len() > 0,
        scan_log(segs) is Torn,
    ensures
        ({
            let t = scan_log(segs);
            &&& 0 <= t->at < segs.last().len()
            &&& scan_log(segs.update(segs.len() - 1, segs.last().take(t->at))) == (Scan::Clean {
                records: t->Torn_records,
                head: t->Torn_head,
            })
        }),
{
    lemma_all_cut(segs, 0, 0, zero_head(), 0);
}

/// Does a place of a segment stand in the length field of a record? The records are
/// walked from `pos` on.
pub open spec fn in_length(buf: Seq<u8>, pos: int, at: int) -> bool
    decreases buf.len() - pos,
{
    let len = HEADER_LEN + record::declared_len(buf.skip(pos));
    if pos + len > buf.len() {
        false
    } else if at < pos + len {
        1 <= at - pos < 5
    } else {
        in_length(buf, pos + len, at)
    }
}

/// Is the second scan not clean, and torn only where the last record is lost? That is
/// where no more than `left` bytes are behind the change, up to the end of the record.
spec fn notices(site: Site, clean: Scan, other: Scan, left: int) -> bool {
    match other {
        Scan::Clean { .. } => false,
        Scan::Torn { records, .. } => site.last && clean is Clean && clean->Clean_records.len() > 0 && records
            == clean->Clean_records.drop_last() && left <= clean->Clean_records.last().len(),
        Scan::Corrupt { .. } => true,
    }
}

proof fn lemma_notices_after(site: Site, clean: Scan, other: Scan, left: int, front: Seq<Seq<u8>>)
    requires
        notices(site, clean, other, left),
    ensures
        notices(site, clean.after(front), other.after(front), left),
{
    if let Scan::Torn { records, .. } = other {
        let all = clean->Clean_records;
        assert(front + all.drop_last() =~= (front + all).drop_last());
        assert((front + all).last() == all.last());
    }
}

proof fn lemma_scan_changed(site: Site, buf: Seq<u8>, pos: int, head: Seq<u8>, seq: int, at: int, b: u8)
    requires
        0 <= pos <= at < buf.len(),
        scan(site, buf, pos, head, seq) is Clean,
        b != buf[at],
        !in_length(buf, pos, at),
    ensures
        notices(
            site,
            scan(site, buf, pos, head, seq),
            scan(site, buf.update(at, b), pos, head, seq),
            buf.len() - at,
        ),
    decreases buf.len() - pos,
{
    let bad = buf.update(at, b);
    let len = HEADER_LEN + record::declared_len(buf.skip(pos));
    let bytes = buf.subrange(pos, pos + len);
    assert(buf.skip(pos).subrange(1, 5) =~= bad.skip(pos).subrange(1, 5));
    let next = record::hash_of(record::prev_of(bytes), bytes);
    let rest = scan(site, buf, pos + len, next, seq + 1);
    if at < pos + len {
        assert(bad.subrange(pos, pos + len) =~= bytes.update(at - pos, b));
        record::law_changed_byte_is_refused(bytes, Some(head), at - pos, b, Some(head));
        if pos + len == buf.len() {
            let one = seq![bytes] + Seq::<Seq<u8>>::empty();
            assert(one =~= seq![bytes]);
            assert(one.drop_last() =~= Seq::empty());
            assert(one.last() == bytes);
        }
    } else {
        assert(bad.subrange(pos, pos + len) =~= bytes);
        lemma_scan_changed(site, buf, pos + len, next, seq + 1, at, b);
        lemma_notices_after(site, rest, scan(site, bad, pos + len, next, seq + 1), buf.len() - at, seq![bytes]);
    }
}

proof fn lemma_all_changed(segs: Seq<Seq<u8>>, i: int, base: int, head: Seq<u8>, seq: int, j: int, at: int, b: u8)
    requires
        0 <= i <= j < segs.len(),
        scan_all(segs, i, base, head, seq) is Clean,
        0 <= at < segs[j].len(),
        b != segs[j][at],
        !in_length(segs[j], 0, at),
    ensures
        notices(
            Site { seg: j, base, last: j + 1 == segs.len() },
            scan_all(segs, i, base, head, seq),
            scan_all(segs.update(j, segs[j].update(at, b)), i, base, head, seq),
            segs[j].len() - at,
        ),
    decreases segs.len() - i,
{
    let bad = segs.update(j, segs[j].update(at, b));
    let left = segs[j].len() - at;
    let site = Site { seg: i, base, last: i + 1 == segs.len() };
    let first = scan(site, segs[i], 0, head, seq);
    let records = first->Clean_records;
    let next = first->Clean_head;
    let b2 = cap64(base + segs[i].len());
    let rest = scan_all(segs, i + 1, b2, next, seq + records.len());
    if i == j {
        lemma_scan_changed(site, segs[i], 0, head, seq, at, b);
        if i + 1 == segs.len() {
            assert(records + Seq::<Seq<u8>>::empty() =~= records);
        }
    } else {
        lemma_all_changed(segs, i + 1, b2, next, seq + records.len(), j, at, b);
        let last = Site { seg: j, base: b2, last: j + 1 == segs.len() };
        lemma_notices_after(last, rest, scan_all(bad, i + 1, b2, next, seq + records.len()), left, records);
    }
}

/// Does a place of a log's segments stand in its last record?
pub open spec fn in_last_record(log: LogV, j: int, at: int) -> bool {
    j + 1 == log.segs.len() && log.records.len() > 0 && log.segs[j].len() - at <= log.records.last().len()
}

/// A change inside a log is noticed: with one byte changed, other than in a length field,
/// the segments no longer scan as clean. A change before the last record is refused as
/// corrupt; one in the last record costs at most that record, as a torn write does.
pub proof fn law_changed_log_is_noticed(log: LogV, j: int, at: int, b: u8)
    requires
        log.chained(),
        0 <= j < log.segs.len(),
        0 <= at < log.segs[j].len(),
        b != log.segs[j][at],
        !in_length(log.segs[j], 0, at),
    ensures
        ({
            let got = scan_log(log.segs.update(j, log.segs[j].update(at, b)));
            &&& !(got is Clean)
            &&& !in_last_record(log, j, at) ==> got is Corrupt
            &&& got is Torn ==> got->Torn_records == log.records.drop_last()
        }),
{
    lemma_all_changed(log.segs, 0, 0, zero_head(), 0, j, at, b);
}

proof fn lemma_torn_is_last(site: Site, buf: Seq<u8>, pos: int, head: Seq<u8>, seq: int)
    ensures
        scan(site, buf, pos, head, seq) is Torn ==> site.last,
    decreases buf.len() - pos,
{
    let left = buf.len() - pos;
    let len = HEADER_LEN + record::declared_len(buf.skip(pos));
    let bytes = buf.subrange(pos, pos + len);
    if left >= HEADER_LEN && record::is_tag(buf[pos]) && len <= left && record::parse_record(
        bytes,
        Some(head),
    ) is Ok {
        lemma_torn_is_last(site, buf, pos + len, record::hash_of(record::prev_of(bytes), bytes), seq + 1);
    }
}

/// Where a record lies.
#[derive(Debug, Clone, Copy)]
struct Spot {
    seg: usize,
    start: usize,
    end: usize,
}

/// The append-only log of one namespace.
#[derive(Debug)]
pub struct Log {
    segs: Vec<Vec<u8>>,
    spots: Vec<Spot>,
    head: [u8; 32],
}

/// The bytes of some segments.
pub open spec fn seg_views(segs: Seq<Vec<u8>>) -> Seq<Seq<u8>> {
    Seq::new(segs.len(), |i: int| segs[i]@)
}

impl View for Log {
    type V = LogV;

    closed spec fn view(&self) -> LogV {
        LogV {
            segs: seg_views(self.segs@),
            records: Seq::new(
                self.spots@.len(),
                |i: int|
                    self.segs@[self.spots@[i].seg as int]@.subrange(
                        self.spots@[i].start as int,
                        self.spots@[i].end as int,
                    ),
            ),
            head: self.head@,
        }
    }
}

impl Log {
    /// Every record lies inside its segment.
    pub closed spec fn wf(&self) -> bool {
        &&& self.segs@.len() > 0
        &&& forall|i: int|
            0 <= i < self.spots@.len() ==> {
                let p = #[trigger] self.spots@[i];
                p.seg < self.segs@.len() && p.start <= p.end <= self.segs@[p.seg as int]@.len()
            }
    }

    /// What holds of every well-formed log.
    pub proof fn lemma_wf(&self)
        requires
            self.wf(),
        ensures
            self@.segs.len() > 0,
            self@.head.len() == 32,
            self@.records.len() <= usize::MAX,
    {
        assert(self.spots@.len() == self.spots.len());
    }

    /// A log without records.
    pub fn empty() -> (log: Log)
        ensures
            log.wf(),
            log@ == LogV::empty(),
            log@.chained(),
    {
        let mut segs: Vec<Vec<u8>> = Vec::new();
        segs.push(Vec::new());
        let log = Log { segs, spots: Vec::new(), head: [0u8; 32] };
        proof {
            assert(log@.segs =~= seq![Seq::<u8>::empty()]);
            assert(log@.records =~= Seq::empty());
            assert(log@.head =~= zero_head());
            lemma_empty_chained();
        }
        log
    }

    /// Recover the log of the directory `dir` from its segments, without the warning.
    pub fn open(dir: &str, segs: Vec<Vec<u8>>) -> (r: Result<Log, StorageError>)
        ensures
            match scan_log(seg_views(segs@)) {
                Scan::Corrupt { detail } => r matches Err(e) && e@ == (StorageFault::Corrupt {
                    ns: Some(dir@),
                    detail,
                }),
                Scan::Clean { records, head } => r matches Ok(log) && log.wf() && log@.chained()
                    && log@.records == records && log@.head == head,
                Scan::Torn { records, head, at } => r matches Ok(log) && log.wf() && log@.chained()
                    && log@.records == records && log@.head == head,
            },
    {
        match Log::recover(dir, segs) {
            Ok((log, _)) => Ok(log),
            Err(e) => Err(e),
        }
    }

    /// Read the segments of the directory `dir`, checking every record and its link.
    ///
    /// A torn record at the end of the last segment is cut off, with a warning; any
    /// other damage is refused.
    pub fn recover(dir: &str, segs: Vec<Vec<u8>>) -> (r: Result<
        (Log, Option<RecoverWarning>),
        StorageError,
    >)
        ensures
            match scan_log(seg_views(segs@)) {
                Scan::Corrupt { detail } => r matches Err(e) && e@ == (StorageFault::Corrupt {
                    ns: Some(dir@),
                    detail,
                }),
                Scan::Clean { records, head } => {
                    &&& r matches Ok((log, warn))
                    &&& warn is None
                    &&& log.wf()
                    &&& log@.chained()
                    &&& log@.records == records
                    &&& log@.head == head
                    &&& log@.segs == (if segs@.len() == 0 {
                        LogV::empty().segs
                    } else {
                        seg_views(segs@)
                    })
                },
                Scan::Torn { records, head, at } => {
                    &&& r matches Ok((log, warn))
                    &&& warn == Some(RecoverWarning::TruncatedTail { records_dropped: 1 })
                    &&& log.wf()
                    &&& log@.chained()
                    &&& log@.records == records
                    &&& log@.head == head
                    &&& log@.segs == seg_views(segs@).update(
                        segs@.len() - 1,
                        segs@.last()@.take(at),
                    )
                },
            },
    {
        if segs.len() == 0 {
            let log = Log::empty();
            assert(scan_log(seg_views(segs@)) == (Scan::Clean {
                records: Seq::empty(),
                head: zero_head(),
            }));
            return Ok((log, None));
        }
        let mut log = Log { segs, spots: Vec::new(), head: [0u8; 32] };
        let ghost views = seg_views(log.segs@);
        let ghost whole = scan_log(views);
        assert(log@.head =~= zero_head());
        assert(log@.records =~= Seq::empty());
        proof {
            lemma_after_none(whole);
        }
        let mut i: usize = 0;
        let mut base: u64 = 0;
        while i < log.segs.len()
            invariant
                log.wf(),
                i <= log.segs.len(),
                log.segs@ == segs@,
                forall|j: int| 0 <= j < log.spots@.len() ==> (#[trigger] log.spots@[j]).seg < i,
                views == seg_views(log.segs@),
                whole == scan_log(views),
                whole == scan_all(views, i as int, base as int, log@.head, log@.records.len() as int).after(
                    log@.records,
                ),
            decreases log.segs.len() - i,
        {
            let last: bool = i + 1 == log.segs.len();
            let ghost site = Site { seg: i as int, base: base as int, last };
            let ghost seg = log.segs@[i as int]@;
            let ghost head0 = log@.head;
            let ghost recs0 = log@.records;
            let ghost part = scan(site, seg, 0, head0, recs0.len() as int);
            let len: usize = log.segs[i].len();
            let mut pos: usize = 0;
            proof {
                lemma_after_none(part);
                assert(recs0 + Seq::<Seq<u8>>::empty() =~= recs0);
            }
            let ghost mut got: Seq<Seq<u8>> = Seq::empty();
            while pos < len
                invariant
                    log.wf(),
                    i < log.segs.len(),
                    last == (i + 1 == log.segs.len()),
                    log.segs@ == segs@,
                    forall|j: int|
                        0 <= j < log.spots@.len() ==> {
                            let p = #[trigger] log.spots@[j];
                            p.seg <= i && (p.seg == i ==> p.end <= pos)
                        },
                    views == seg_views(log.segs@),
                    whole == scan_log(views),
                    seg == log.segs@[i as int]@,
                    len == seg.len(),
                    pos <= len,
                    site == (Site { seg: i as int, base: base as int, last }),
                    log@.records == recs0 + got,
                    part == scan(site, seg, 0, head0, recs0.len() as int),
                    part == scan(site, seg, pos as int, log@.head, log@.records.len() as int).after(got),
                    whole == scan_all(views, i as int, base as int, head0, recs0.len() as int).after(recs0),
                decreases len - pos,
            {
                let left: usize = len - pos;
                let seg_bytes: &[u8] = log.segs[i].as_slice();
                if left < HEADER_LEN {
                    if !last {
                        let mut d = text::join3(
                            "partial record header in non-final segment ",
                            text::dec(i as u64).as_str(),
                            " at offset ",
                        );
                        d.push_str(text::dec(pos as u64).as_str());
                        return Err(crate::storage::error::corrupt_in(dir, d));
                    }
                    return Ok(log.cut_tail(pos, Ghost(views), Ghost(got), Ghost(recs0), Ghost(base as int), Ghost(head0)));
                }
                let tag: u8 = seg_bytes[pos];
                let off: u64 = base.saturating_add(pos as u64);
                if !record::known_tag(tag) {
                    let mut d = text::join3(
                        "bad record tag 0x",
                        text::hex_numeral(tag as u64).as_str(),
                        " at logical offset ",
                    );
                    d.push_str(text::dec(off).as_str());
                    return Err(crate::storage::error::corrupt_in(dir, d));
                }
                let declared: u32 = u32_from_le_bytes(slice_subrange(seg_bytes, pos + 1, pos + 5));
                assert(seg.skip(pos as int).subrange(1, 5) =~= seg.subrange(pos + 1, pos + 5));
                let rec_len: u64 = HEADER_LEN as u64 + declared as u64;
                if rec_len > left as u64 {
                    if !last {
                        let mut d = text::join3(
                            "record length ",
                            text::dec(rec_len).as_str(),
                            " exceeds non-final segment ",
                        );
                        d.push_str(text::dec(i as u64).as_str());
                        d.push_str(" remainder");
                        return Err(crate::storage::error::corrupt_in(dir, d));
                    }
                    return Ok(log.cut_tail(pos, Ghost(views), Ghost(got), Ghost(recs0), Ghost(base as int), Ghost(head0)));
                }
                let end: usize = pos + rec_len as usize;
                let bytes: &[u8] = slice_subrange(seg_bytes, pos, end);
                match Record::parse(bytes, &log.head) {
                    Ok((_rec, prev)) => {
                        let next = Record::record_hash(&prev, bytes);
                        let ghost before = log;
                        let ghost b = bytes@;
                        log.head = next;
                        log.spots.push(Spot { seg: i, start: pos, end });
                        proof {
                            assert(log@.records =~= before@.records.push(b));
                            assert(log@.records =~= recs0 + got.push(b));
                            lemma_after_after(
                                scan(site, seg, end as int, log@.head, log@.records.len() as int),
                                got,
                                seq![b],
                            );
                            assert(got + seq![b] =~= got.push(b));
                            got = got.push(b);
                        }
                        pos = end;
                    },
                    Err(e) => {
                        if last && rec_len >= left as u64 {
                            return Ok(log.cut_tail(pos, Ghost(views), Ghost(got), Ghost(recs0), Ghost(base as int), Ghost(head0)));
                        }
                        let mut d = text::join3(
                            "record ",
                            text::dec(log.spots.len() as u64).as_str(),
                            " (logical offset ",
                        );
                        d.push_str(text::dec(off).as_str());
                        d.push_str("): ");
                        d.push_str(e.message().as_str());
                        return Err(crate::storage::error::corrupt_in(dir, d));
                    },
                }
            }
            proof {
                let b2 = cap64(base as int + seg.len());
                assert(part == (Scan::Clean { records: got, head: log@.head })) by {
                    assert(got + Seq::<Seq<u8>>::empty() =~= got);
                }
                lemma_after_after(
                    scan_all(views, i + 1, b2, log@.head, log@.records.len() as int),
                    recs0,
                    got,
                );
            }
            base = base.saturating_add(len as u64);
            i += 1;
        }
        assert(log@.records + Seq::<Seq<u8>>::empty() =~= log@.records);
        Ok((log, None))
    }

    /// Cut the last segment to `pos` bytes.
    fn cut_tail(
        self,
        pos: usize,
        Ghost(views): Ghost<Seq<Seq<u8>>>,
        Ghost(got): Ghost<Seq<Seq<u8>>>,
        Ghost(recs0): Ghost<Seq<Seq<u8>>>,
        Ghost(base): Ghost<int>,
        Ghost(head0): Ghost<Seq<u8>>,
    ) -> (r: (Log, Option<RecoverWarning>))
        requires
            self.wf(),
            views == self@.segs,
            pos <= views.last().len(),
            forall|i: int| 0 <= i < self.spots_len() ==> self.spot_before(i, pos as int),
            self@.records == recs0 + got,
            ({
                let n = views.len() as int;
                let part = scan(
                    Site { seg: n - 1, base, last: true },
                    views.last(),
                    0,
                    head0,
                    recs0.len() as int,
                );
                &&& part == (Scan::Torn { records: got, head: self@.head, at: pos as int })
                &&& scan_log(views) == scan_all(views, n - 1, base, head0, recs0.len() as int).after(recs0)
            }),
        ensures
            r.1 == Some(RecoverWarning::TruncatedTail { records_dropped: 1 }),
            r.0.wf(),
            r.0@.chained(),
            r.0@.records == self@.records,
            r.0@.head == self@.head,
            r.0@.segs == views.update(views.len() - 1, views.last().take(pos as int)),
            scan_log(views) == (Scan::Torn { records: self@.records, head: self@.head, at: pos as int }),
    {
        let mut log = self;
        let n: usize = log.segs.len();
        let mut last: Vec<u8> = Vec::new();
        record::push_bytes(&mut last, slice_subrange(log.segs[n - 1].as_slice(), 0, pos));
        assert(last@ =~= views.last().take(pos as int));
        log.segs.set(n - 1, last);
        proof {
            assert(log@.segs =~= views.update(views.len() - 1, views.last().take(pos as int)));
            assert forall|i: int| 0 <= i < log.spots@.len() implies {
                let p = #[trigger] log.spots@[i];
                p.seg < log.segs@.len() && p.start <= p.end <= log.segs@[p.seg as int]@.len()
            } by {
                assert(self.spot_before(i, pos as int));
            }
            assert forall|i: int| 0 <= i < log.spots@.len() implies #[trigger] log@.records[i]
                == self@.records[i] by {
                assert(self.spot_before(i, pos as int));
                assert(log@.records[i] =~= self@.records[i]);
            }
            assert(log@.records =~= self@.records);
            lemma_all_cut(views, 0, 0, zero_head(), 0);
        }
        (log, Some(RecoverWarning::TruncatedTail { records_dropped: 1 }))
    }

    /// Put a record's bytes behind the log; its number comes back.
    pub fn append(&mut self, bytes: &[u8]) -> (r: Result<u64, StorageError>)
        requires
            old(self).wf(),
            record::framed(bytes@),
        ensures
            r matches Ok(seq) && seq == final(self)@.records.len(),
            final(self).wf(),
            final(self)@ == old(self)@.append(bytes@),
            old(self)@.chained() && record::parse_record(bytes@, Some(old(self)@.head)) is Ok
                ==> final(self)@.chained(),
    {
        let ghost before = *self;
        let n: usize = self.segs.len() - 1;
        let cur_len: usize = self.segs[n].len();
        if cur_len > 0 && cur_len as u128 + bytes.len() as u128 > SEGMENT_BYTES as u128 {
            let fresh = slice_to_vec(bytes);
            self.segs.push(fresh);
            self.spots.push(Spot { seg: n + 1, start: 0, end: bytes.len() });
            proof {
                assert(self@.segs =~= before@.segs.push(bytes@));
                assert(bytes@.subrange(0, bytes@.len() as int) =~= bytes@);
            }
        } else {
            let cur = &mut self.segs[n];
            record::push_bytes(cur, bytes);
            let end: usize = self.segs[n].len();
            self.spots.push(Spot { seg: n, start: cur_len, end });
            proof {
                let joined = before.segs@[n as int]@ + bytes@;
                assert(self@.segs =~= before@.segs.update(n as int, joined));
                assert(joined.subrange(cur_len as int, end as int) =~= bytes@);
            }
        }
        proof {
            assert forall|i: int| 0 <= i < before@.records.len() implies #[trigger] self@.records[i]
                == before@.records[i] by {
                assert(self.spots@[i] == before.spots@[i]);
                assert(self@.records[i] =~= before@.records[i]);
            }
            assert(self@.records =~= before@.records.push(bytes@));
        }
        let prev = record::read_32(bytes, 9);
        self.head = Record::record_hash(&prev, bytes);
        proof {
            if before@.chained() && record::parse_record(bytes@, Some(before@.head)) is Ok {
                law_append_keeps_chain(before@, bytes@);
            }
        }
        Ok(self.spots.len() as u64)
    }

    /// The number of records.
    pub fn seq(&self) -> (n: u64)
        ensures
            n == self@.records.len(),
    {
        self.spots.len() as u64
    }

    /// The hash of the last record; zeros where there is none.
    pub fn head(&self) -> (h: [u8; 32])
        ensures
            h@ == self@.head,
    {
        self.head
    }

    /// The segments.
    pub fn segments(&self) -> (s: &Vec<Vec<u8>>)
        ensures
            seg_views(s@) == self@.segs,
    {
        &self.segs
    }

    /// Records from number `from_seq` on, with their numbers; at most `max`, or all of
    /// them where `max` is 0.
    pub fn read_records(&self, from_seq: u64, max: u64) -> (r: Result<Vec<(u64, Vec<u8>)>, StorageError>)
        requires
            self.wf(),
        ensures
            r matches Ok(out) && numbered(
                out@,
                self@.records,
                from_seq as int,
                window_end(self@.records.len() as int, from_seq as int, max as int),
            ),
    {
        let mut out: Vec<(u64, Vec<u8>)> = Vec::new();
        let n: usize = self.spots.len();
        if from_seq == 0 || from_seq > n as u64 {
            return Ok(out);
        }
        let start: usize = (from_seq - 1) as usize;
        let left: usize = n - start;
        let end: usize = if max == 0 || max >= left as u64 { n } else { start + max as usize };
        let mut i: usize = start;
        while i < end
            invariant
                self.wf(),
                start <= i <= end <= self.spots@.len(),
                out@.len() == i - start,
                forall|j: int|
                    0 <= j < out@.len() ==> (#[trigger] out@[j]).0 == start + j + 1 && out@[j].1@
                        == self@.records[start + j],
            decreases end - i,
        {
            let p = self.spots[i];
            let bytes = slice_to_vec(slice_subrange(self.segs[p.seg].as_slice(), p.start, p.end));
            out.push((i as u64 + 1, bytes));
            i += 1;
        }
        Ok(out)
    }

    /// The bytes of record `i`, counted from zero.
    pub fn record_at(&self, i: usize) -> (b: &[u8])
        requires
            self.wf(),
            i < self@.records.len(),
        ensures
            b@ == self@.records[i as int],
    {
        let p = self.spots[i];
        slice_subrange(self.segs[p.seg].as_slice(), p.start, p.end)
    }

    /// The bytes that the segments take, up to the largest count.
    pub fn size(&self) -> (n: u64)
        ensures
            n == cap64(total_len(self@.segs)),
    {
        let mut total: u64 = 0;
        let mut i: usize = 0;
        while i < self.segs.len()
            invariant
                i <= self.segs.len(),
                total == cap64(total_len(self@.segs.take(i as int))),
                0 <= total_len(self@.segs.take(i as int)),
            decreases self.segs.len() - i,
        {
            proof {
                let t = self@.segs.take(i + 1);
                assert(t.drop_last() =~= self@.segs.take(i as int));
            }
            total = total.saturating_add(self.segs[i].len() as u64);
            i += 1;
        }
        assert(self@.segs.take(i as int) =~= self@.segs);
        total
    }

    /// A fresh log that holds the given records, chained from the start.
    pub fn write_fresh(records: &Vec<Record>) -> (log: Log)
        requires
            forall|i: int| 0 <= i < records@.len() ==> (#[trigger] records@[i])@.fits() && records@[i]@.canonical(),
        ensures
            log.wf(),
            log@.chained(),
            log@ == fresh_log(record_views(records@)),
    {
        let mut log = Log::empty();
        let mut i: usize = 0;
        assert(record_views(records@).take(0) =~= Seq::empty());
        while i < records.len()
            invariant
                i <= records.len(),
                log.wf(),
                log@.chained(),
                log@ == fresh_log(record_views(records@).take(i as int)),
                forall|j: int|
                    0 <= j < records@.len() ==> (#[trigger] records@[j])@.fits() && records@[j]@.canonical(),
            decreases records.len() - i,
        {
            let bytes = records[i].to_bytes(log.head());
            proof {
                record::law_record_round_trip(records@[i as int]@, log@.head);
                let t = record_views(records@).take(i + 1);
                assert(t.drop_last() =~= record_views(records@).take(i as int));
            }
            let _ = log.append(bytes.as_slice());
            i += 1;
        }
        assert(record_views(records@).take(i as int) =~= record_views(records@));
        log
    }

    closed spec fn spots_len(&self) -> int {
        self.spots@.len() as int
    }

    /// Record `i` does not reach past `pos` of the last segment.
    closed spec fn spot_before(&self, i: int, pos: int) -> bool {
        let p = self.spots@[i];
        p.seg + 1 == self.segs@.len() ==> p.end <= pos
    }
}

/// The views of some records.
pub open spec fn record_views(rs: Seq<Record>) -> Seq<record::RecordV> {
    Seq::new(rs.len(), |i: int| rs[i]@)
}

/// The log of some records, chained from the start.
pub open spec fn fresh_log(rs: Seq<record::RecordV>) -> LogV
    decreases rs.len(),
{
    if rs.len() == 0 {
        LogV::empty()
    } else {
        let before = fresh_log(rs.drop_last());
        before.append(rs.last().bytes(before.head))
    }
}

/// The bytes of some segments together.
pub open spec fn total_len(segs: Seq<Seq<u8>>) -> int
    decreases segs.len(),
{
    if segs.len() == 0 {
        0
    } else {
        total_len(segs.drop_last()) + segs.last().len()
    }
}

/// Where a window of records ends that starts at number `from` and holds at most
/// `max` records (any number of them where `max` is 0).
pub open spec fn window_end(n: int, from: int, max: int) -> int {
    if from == 0 || from > n {
        from - 1
    } else if max == 0 || max >= n - (from - 1) {
        n
    } else {
        from - 1 + max
    }
}

/// `out` lists the records numbered `from..=end`, each with its number.
pub open spec fn numbered(out: Seq<(u64, Vec<u8>)>, records: Seq<Seq<u8>>, from: int, end: int) -> bool {
    &&& out.len() == (if end < from { 0 } else { end - from + 1 })
    &&& forall|i: int|
        0 <= i < out.len() ==> (#[trigger] out[i]).0 == from + i && out[i].1@ == records[from + i - 1]
}

proof fn lemma_empty_chained()
    ensures
        LogV::empty().chained(),
{
    let e = LogV::empty();
    let site = Site { seg: 0, base: 0, last: true };
    assert(scan(site, e.segs[0], 0, zero_head(), 0) == (Scan::Clean {
        records: Seq::empty(),
        head: zero_head(),
    }));
    assert(scan_all(e.segs, 1, 0, zero_head(), 0) == (Scan::Clean {
        records: Seq::empty(),
        head: zero_head(),
    }));
    assert(Seq::<Seq<u8>>::empty() + Seq::<Seq<u8>>::empty() =~= Seq::<Seq<u8>>::empty());
}

/// A segment holds 64 MiB at most, but for one record that is longer than that by itself:
/// a record that would take the last segment over it starts another, and all before it
/// stay as they are.
pub proof fn law_segments_are_bounded(segs: Seq<Seq<u8>>, more: Seq<u8>, i: int)
    requires
        segs.len() > 0,
    ensures
        ({
            let after = segs_append(segs, more);
            &&& 0 <= i < segs.len() - 1 ==> after[i] == segs[i]
            &&& after.len() == segs.len() || (after.len() == segs.len() + 1 && after.last() == more && after[segs.len() - 1]
                == segs.last() && segs.last().len() + more.len() > 67_108_864)
            &&& after.len() == segs.len() ==> after.last() == segs.last() + more
            &&& after.last().len() <= 67_108_864 || after.last() == more
        }),
{
    if segs.last().len() == 0 {
        assert(segs.last() + more =~= more);
    }
}

} // verus!
