//! The log record: its fields, its bytes and its place in the chain.
//!
//! Layout, integers little-endian:
//! ```text
//! tag:u8 | len:u32 | crc32:u32 | prev:[u8;32] | payload
//! payload: key_len:u32 | key | hlc:u64 | replica:[u8;32] | author:[u8;32]
//!          | val_len:u64 | value
//!          | expires_at:u64                      (TTL writes only)
//!          | count:u32 | count x (tag:u8 | payload of the op)   (batches only)
//! ```
//! The CRC covers the tag, `prev` and the payload.

use crate::hash;
use crate::ordmap;
use crate::storage::crc;
use crate::storage::error::StorageError;
use crate::text;
use vstd::bytes::*;
use vstd::prelude::*;
use vstd::slice::*;

verus! {

pub const TAG_PUT: u8 = 0x01;

pub const TAG_DEL: u8 = 0x02;

pub const TAG_PUT_TTL: u8 = 0x03;

pub const TAG_SCHEMA: u8 = 0x04;

pub const TAG_INDEX: u8 = 0x05;

pub const TAG_BATCH: u8 = 0x06;

/// Bytes before the payload: tag, length, CRC and the previous hash.
pub const HEADER_LEN: usize = 41;

/// One parsed record; the unit of a namespace's history.
#[derive(Debug, PartialEq, Eq)]
pub struct Record {
    pub tag: u8,
    pub key: Vec<u8>,
    pub hlc: u64,
    pub replica: [u8; 32],
    pub author: [u8; 32],
    /// Empty for a delete.
    pub value: Vec<u8>,
    /// Wall-clock expiry in ms; 0 is never.
    pub expires_at: u64,
    /// The operations of a batch; empty otherwise.
    pub ops: Vec<Record>,
}

/// One operation as a value of the model.
#[verifier::ext_equal]
pub struct OpV {
    pub tag: u8,
    pub key: Seq<u8>,
    pub hlc: u64,
    pub replica: Seq<u8>,
    pub author: Seq<u8>,
    pub value: Seq<u8>,
    pub expires_at: u64,
}

/// A record as a value of the model.
#[verifier::ext_equal]
pub struct RecordV {
    pub op: OpV,
    pub ops: Seq<OpV>,
}

impl Record {
    /// The record's own operation, without the operations of a batch.
    pub open spec fn op(&self) -> OpV {
        OpV {
            tag: self.tag,
            key: self.key@,
            hlc: self.hlc,
            replica: self.replica@,
            author: self.author@,
            value: self.value@,
            expires_at: self.expires_at,
        }
    }
}

/// The operations of some records, without their own batches.
pub open spec fn ops_of(rs: Seq<Record>) -> Seq<OpV> {
    Seq::new(rs.len(), |i: int| rs[i].op())
}

impl Clone for Record {
    fn clone(&self) -> (r: Record)
        ensures
            r@ == self@,
        decreases self,
    {
        let mut ops: Vec<Record> = Vec::new();
        let mut i: usize = 0;
        while i < self.ops.len()
            invariant
                i <= self.ops.len(),
                ops@.len() == i,
                forall|j: int| 0 <= j < i ==> (#[trigger] ops@[j]).op() == self.ops@[j].op(),
            decreases self.ops.len() - i,
        {
            let op = self.ops[i].clone();
            ops.push(op);
            i += 1;
        }
        assert(ops_of(ops@) =~= ops_of(self.ops@));
        Record {
            tag: self.tag,
            key: self.key.clone(),
            hlc: self.hlc,
            replica: self.replica,
            author: self.author,
            value: self.value.clone(),
            expires_at: self.expires_at,
            ops,
        }
    }
}

impl View for Record {
    type V = RecordV;

    open spec fn view(&self) -> RecordV {
        RecordV { op: self.op(), ops: ops_of(self.ops@) }
    }
}

pub open spec fn le32(n: int) -> Seq<u8> {
    spec_u32_to_le_bytes(n as u32)
}

pub open spec fn le64(n: int) -> Seq<u8> {
    spec_u64_to_le_bytes(n as u64)
}

pub open spec fn un32(s: Seq<u8>) -> u32 {
    spec_u32_from_le_bytes(s)
}

pub open spec fn un64(s: Seq<u8>) -> u64 {
    spec_u64_from_le_bytes(s)
}

/// A tag that a record may carry.
pub open spec fn is_tag(t: u8) -> bool {
    t == TAG_PUT || t == TAG_DEL || t == TAG_PUT_TTL || t == TAG_SCHEMA || t == TAG_INDEX || t
        == TAG_BATCH
}

/// A tag that an operation of a batch may carry.
pub open spec fn is_op_tag(t: u8) -> bool {
    t == TAG_PUT || t == TAG_DEL || t == TAG_PUT_TTL
}

impl OpV {
    pub open spec fn body(self) -> Seq<u8> {
        le32(self.key.len() as int) + self.key + le64(self.hlc as int) + self.replica + self.author
            + le64(self.value.len() as int) + self.value
    }

    pub open spec fn tail(self) -> Seq<u8> {
        if self.tag == TAG_PUT_TTL {
            le64(self.expires_at as int)
        } else {
            Seq::empty()
        }
    }

    /// The bytes of the operation inside a batch.
    pub open spec fn frame(self) -> Seq<u8> {
        seq![self.tag] + (self.body() + self.tail())
    }

    /// Host ids are 32 bytes long.
    pub open spec fn shaped(self) -> bool {
        self.replica.len() == 32 && self.author.len() == 32
    }

    /// Only a TTL write has an expiry.
    pub open spec fn canonical(self) -> bool {
        self.tag != TAG_PUT_TTL ==> self.expires_at == 0
    }
}

/// The bytes of a batch's operations.
pub open spec fn frames(ops: Seq<OpV>) -> Seq<u8>
    decreases ops.len(),
{
    if ops.len() == 0 {
        Seq::empty()
    } else {
        ops[0].frame() + frames(ops.drop_first())
    }
}

impl RecordV {
    pub open spec fn batch_part(self) -> Seq<u8> {
        if self.op.tag == TAG_BATCH {
            le32(self.ops.len() as int) + frames(self.ops)
        } else {
            Seq::empty()
        }
    }

    pub open spec fn payload(self) -> Seq<u8> {
        self.op.body() + self.op.tail() + self.batch_part()
    }

    /// The record's bytes, chained to `prev`.
    pub open spec fn bytes(self, prev: Seq<u8>) -> Seq<u8> {
        seq![self.op.tag] + le32(self.payload().len() as int) + le32(
            crc::crc_of(seq![self.op.tag] + (prev + self.payload())) as int,
        ) + prev + self.payload()
    }

    /// The lengths fit their fields.
    pub open spec fn fits(self) -> bool {
        &&& self.payload().len() <= u32::MAX
        &&& self.ops.len() <= u32::MAX
    }

    /// The record says nothing that its bytes leave out.
    pub open spec fn canonical(self) -> bool {
        &&& is_tag(self.op.tag)
        &&& self.op.canonical()
        &&& self.op.shaped()
        &&& self.op.tag != TAG_BATCH ==> self.ops.len() == 0
        &&& forall|i: int|
            0 <= i < self.ops.len() ==> {
                &&& is_op_tag((#[trigger] self.ops[i]).tag)
                &&& self.ops[i].canonical()
                &&& self.ops[i].shaped()
            }
    }
}

impl OpV {
    /// The operation as its bytes say it.
    pub open spec fn plain(self) -> OpV {
        OpV {
            expires_at: if self.tag == TAG_PUT_TTL {
                self.expires_at
            } else {
                0
            },
            ..self
        }
    }
}

impl RecordV {
    /// The tags are ones that a record and its operations may carry.
    pub open spec fn sound(self) -> bool {
        &&& is_tag(self.op.tag)
        &&& self.op.shaped()
        &&& self.op.tag == TAG_BATCH ==> forall|i: int|
            0 <= i < self.ops.len() ==> is_op_tag((#[trigger] self.ops[i]).tag) && self.ops[i].shaped()
    }

    /// The record as its bytes say it.
    pub open spec fn plain(self) -> RecordV {
        RecordV {
            op: self.op.plain(),
            ops: if self.op.tag == TAG_BATCH {
                Seq::new(self.ops.len(), |i: int| self.ops[i].plain())
            } else {
                Seq::empty()
            },
        }
    }
}

/// Why bytes are no record.
#[derive(Clone, Copy, PartialEq, Eq, Structural, Debug)]
pub enum Fault {
    Short,
    BadTag(u8),
    BadLen(u64, u64),
    Crc,
    Chain,
    Key,
    Hlc,
    Hosts,
    Value,
    Expiry,
    Ops,
    OpTag(u8),
}

impl Fault {
    pub open spec fn text(self) -> Seq<char> {
        match self {
            Fault::Short => "record shorter than header"@,
            Fault::BadTag(t) => "bad record tag 0x"@ + text::numeral(t as nat, 16),
            Fault::BadLen(d, a) => "record len "@ + text::decimal(d as int) + " != actual "@ + text::decimal(
                a as int,
            ),
            Fault::Crc => "crc32 mismatch"@,
            Fault::Chain => "chain adjacency violated (prev != running head)"@,
            Fault::Key => "key_len overruns"@,
            Fault::Hlc => "hlc overruns"@,
            Fault::Hosts => "keys overrun"@,
            Fault::Value => "val_len overruns"@,
            Fault::Expiry => "expires_at overruns"@,
            Fault::Ops => "batch count overruns"@,
            Fault::OpTag(t) => "bad batch op tag 0x"@ + text::numeral(t as nat, 16),
        }
    }

    pub fn detail(self) -> (r: String)
        ensures
            r@ == self.text(),
    {
        match self {
            Fault::Short => text::copy_text("record shorter than header"),
            Fault::BadTag(t) => text::join2("bad record tag 0x", text::hex_numeral(t as u64).as_str()),
            Fault::BadLen(d, a) => {
                let mut r = text::join3("record len ", text::dec(d).as_str(), " != actual ");
                r.push_str(text::dec(a).as_str());
                r
            },
            Fault::Crc => text::copy_text("crc32 mismatch"),
            Fault::Chain => text::copy_text("chain adjacency violated (prev != running head)"),
            Fault::Key => text::copy_text("key_len overruns"),
            Fault::Hlc => text::copy_text("hlc overruns"),
            Fault::Hosts => text::copy_text("keys overrun"),
            Fault::Value => text::copy_text("val_len overruns"),
            Fault::Expiry => text::copy_text("expires_at overruns"),
            Fault::Ops => text::copy_text("batch count overruns"),
            Fault::OpTag(t) => text::join2("bad batch op tag 0x", text::hex_numeral(t as u64).as_str()),
        }
    }
}

/// Read an operation's fields off the front of `s`; what is left comes back.
pub open spec fn parse_body(tag: u8, s: Seq<u8>) -> Result<(OpV, Seq<u8>), Fault> {
    let k = un32(s.subrange(0, 4)) as int;
    let v = un64(s.subrange(76 + k, 84 + k)) as int;
    if s.len() < 4 || k > s.len() - 4 {
        Err(Fault::Key)
    } else if s.len() < 12 + k {
        Err(Fault::Hlc)
    } else if s.len() < 76 + k {
        Err(Fault::Hosts)
    } else if s.len() < 84 + k || v > s.len() - (84 + k) {
        Err(Fault::Value)
    } else {
        Ok(
            (
                OpV {
                    tag,
                    key: s.subrange(4, 4 + k),
                    hlc: un64(s.subrange(4 + k, 12 + k)),
                    replica: s.subrange(12 + k, 44 + k),
                    author: s.subrange(44 + k, 76 + k),
                    value: s.subrange(84 + k, 84 + k + v),
                    expires_at: 0,
                },
                s.skip(84 + k + v),
            ),
        )
    }
}

/// As [`parse_body`], with the expiry of a TTL write.
pub open spec fn parse_op(tag: u8, s: Seq<u8>) -> Result<(OpV, Seq<u8>), Fault> {
    match parse_body(tag, s) {
        Err(f) => Err(f),
        Ok((op, rest)) => if tag != TAG_PUT_TTL {
            Ok((op, rest))
        } else if rest.len() < 8 {
            Err(Fault::Expiry)
        } else {
            Ok((OpV { expires_at: un64(rest.subrange(0, 8)), ..op }, rest.skip(8)))
        },
    }
}

/// Read `n` operations of a batch off the front of `s`.
pub open spec fn parse_ops(n: nat, s: Seq<u8>) -> Result<(Seq<OpV>, Seq<u8>), Fault>
    decreases n,
{
    if n == 0 {
        Ok((Seq::empty(), s))
    } else if s.len() == 0 {
        Err(Fault::Ops)
    } else if !is_op_tag(s[0]) {
        Err(Fault::OpTag(s[0]))
    } else {
        match parse_op(s[0], s.skip(1)) {
            Err(f) => Err(f),
            Ok((op, rest)) => match parse_ops((n - 1) as nat, rest) {
                Err(f) => Err(f),
                Ok((ops, end)) => Ok((seq![op] + ops, end)),
            },
        }
    }
}

/// Read a payload; bytes behind it are passed over.
pub open spec fn parse_payload(tag: u8, s: Seq<u8>) -> Result<RecordV, Fault> {
    match parse_op(tag, s) {
        Err(f) => Err(f),
        Ok((op, rest)) => if tag != TAG_BATCH {
            Ok(RecordV { op, ops: Seq::empty() })
        } else if rest.len() < 4 {
            Err(Fault::Ops)
        } else {
            match parse_ops(un32(rest.subrange(0, 4)) as nat, rest.skip(4)) {
                Err(f) => Err(f),
                Ok((ops, _)) => Ok(RecordV { op, ops }),
            }
        },
    }
}

/// The chain link that a record's bytes carry.
pub open spec fn prev_of(bytes: Seq<u8>) -> Seq<u8> {
    bytes.subrange(9, 41)
}

/// The payload length that a record's bytes declare.
pub open spec fn declared_len(bytes: Seq<u8>) -> int {
    un32(bytes.subrange(1, 5)) as int
}

/// The bytes are as long as they declare.
pub open spec fn framed(bytes: Seq<u8>) -> bool {
    bytes.len() >= HEADER_LEN && bytes.len() == HEADER_LEN + declared_len(bytes)
}

/// Parse a whole record, with the chain link that it must carry, if one is given.
pub open spec fn parse_record(bytes: Seq<u8>, expected: Option<Seq<u8>>) -> Result<RecordV, Fault> {
    if bytes.len() < HEADER_LEN {
        Err(Fault::Short)
    } else if !is_tag(bytes[0]) {
        Err(Fault::BadTag(bytes[0]))
    } else if declared_len(bytes) != bytes.len() - HEADER_LEN {
        Err(Fault::BadLen(declared_len(bytes) as u64, (bytes.len() - HEADER_LEN) as u64))
    } else if un32(bytes.subrange(5, 9)) != crc::crc_of(bytes.take(1) + bytes.skip(9)) {
        Err(Fault::Crc)
    } else if expected is Some && prev_of(bytes) != expected->0 {
        Err(Fault::Chain)
    } else {
        parse_payload(bytes[0], bytes.skip(41))
    }
}

/// The hash of a record: SHA-256 of its chain link and its bytes.
pub open spec fn hash_of(prev: Seq<u8>, bytes: Seq<u8>) -> Seq<u8> {
    hash::sha256_digest(prev + bytes)
}

// ---------- what writing and reading back agree on ----------

proof fn lemma_parse_body(o: OpV, rest: Seq<u8>)
    requires
        o.shaped(),
        o.key.len() <= u32::MAX,
        o.value.len() <= u32::MAX,
    ensures
        parse_body(o.tag, o.body() + rest) == Ok::<(OpV, Seq<u8>), Fault>(
            (OpV { expires_at: 0, ..o }, rest),
        ),
{
    lemma_auto_spec_u32_to_from_le_bytes();
    lemma_auto_spec_u64_to_from_le_bytes();
    let s = o.body() + rest;
    let k = o.key.len() as int;
    let v = o.value.len() as int;
    assert(s.subrange(0, 4) =~= le32(k));
    assert(s.subrange(76 + k, 84 + k) =~= le64(v));
    assert(s.subrange(4, 4 + k) =~= o.key);
    assert(s.subrange(4 + k, 12 + k) =~= le64(o.hlc as int));
    assert(s.subrange(12 + k, 44 + k) =~= o.replica);
    assert(s.subrange(44 + k, 76 + k) =~= o.author);
    assert(s.subrange(84 + k, 84 + k + v) =~= o.value);
    assert(s.skip(84 + k + v) =~= rest);
}

proof fn lemma_parse_op(o: OpV, rest: Seq<u8>)
    requires
        o.shaped(),
        o.canonical(),
        o.key.len() <= u32::MAX,
        o.value.len() <= u32::MAX,
    ensures
        parse_op(o.tag, o.body() + o.tail() + rest) == Ok::<(OpV, Seq<u8>), Fault>((o, rest)),
{
    lemma_auto_spec_u64_to_from_le_bytes();
    assert(o.body() + o.tail() + rest =~= o.body() + (o.tail() + rest));
    lemma_parse_body(o, o.tail() + rest);
    if o.tag == TAG_PUT_TTL {
        let r = o.tail() + rest;
        assert(r.subrange(0, 8) =~= le64(o.expires_at as int));
        assert(r.skip(8) =~= rest);
        assert(OpV { expires_at: o.expires_at, ..OpV { expires_at: 0, ..o } } =~= o);
    } else {
        assert(o.tail() + rest =~= rest);
        assert(OpV { expires_at: 0, ..o } =~= o);
    }
}

proof fn lemma_parse_ops(ops: Seq<OpV>, rest: Seq<u8>)
    requires
        frames(ops).len() <= u32::MAX,
        forall|i: int|
            0 <= i < ops.len() ==> {
                &&& is_op_tag((#[trigger] ops[i]).tag)
                &&& ops[i].canonical()
                &&& ops[i].shaped()
            },
    ensures
        parse_ops(ops.len(), frames(ops) + rest) == Ok::<(Seq<OpV>, Seq<u8>), Fault>((ops, rest)),
    decreases ops.len(),
{
    if ops.len() == 0 {
        assert(frames(ops) + rest =~= rest);
        assert(ops =~= Seq::empty());
    } else {
        let o = ops[0];
        let more = frames(ops.drop_first());
        let s = frames(ops) + rest;
        lemma_body_len(o);
        assert(s.skip(1) =~= o.body() + o.tail() + (more + rest));
        lemma_parse_op(o, more + rest);
        lemma_parse_ops(ops.drop_first(), rest);
        assert(seq![o] + ops.drop_first() =~= ops);
    }
}

proof fn lemma_body_len(o: OpV)
    ensures
        o.body().len() >= o.key.len(),
        o.body().len() >= o.value.len(),
        o.body().len() == 4 + o.key.len() + 8 + o.replica.len() + o.author.len() + 8
            + o.value.len(),
        o.tail().len() == (if o.tag == TAG_PUT_TTL { 8int } else { 0 }),
{
    lemma_auto_spec_u32_to_from_le_bytes();
    lemma_auto_spec_u64_to_from_le_bytes();
}

proof fn lemma_frames_push(ops: Seq<OpV>, o: OpV)
    ensures
        frames(ops.push(o)) == frames(ops) + o.frame(),
    decreases ops.len(),
{
    let p = ops.push(o);
    if ops.len() == 0 {
        assert(p.drop_first() =~= Seq::empty());
        assert(frames(p.drop_first()) =~= Seq::<u8>::empty());
        assert(frames(p) =~= o.frame());
        assert(frames(ops) + o.frame() =~= o.frame());
    } else {
        lemma_frames_push(ops.drop_first(), o);
        assert(p.drop_first() =~= ops.drop_first().push(o));
        assert(frames(p) =~= frames(ops) + o.frame());
    }
}

/// The parts of a written record, at their places.
proof fn lemma_bytes_parts(r: RecordV, prev: Seq<u8>)
    requires
        prev.len() == 32,
        r.fits(),
    ensures
        r.bytes(prev).len() == HEADER_LEN + r.payload().len(),
        r.bytes(prev)[0] == r.op.tag,
        declared_len(r.bytes(prev)) == r.payload().len(),
        un32(r.bytes(prev).subrange(5, 9)) == crc::crc_of(seq![r.op.tag] + (prev + r.payload())),
        r.bytes(prev).take(1) == seq![r.op.tag],
        r.bytes(prev).skip(9) == prev + r.payload(),
        prev_of(r.bytes(prev)) == prev,
        r.bytes(prev).skip(41) == r.payload(),
        framed(r.bytes(prev)),
{
    lemma_auto_spec_u32_to_from_le_bytes();
    let b = r.bytes(prev);
    let crc = crc::crc_of(seq![r.op.tag] + (prev + r.payload()));
    assert(b.subrange(1, 5) =~= le32(r.payload().len() as int));
    assert(b.subrange(5, 9) =~= le32(crc as int));
    assert(b.take(1) =~= seq![r.op.tag]);
    assert(b.skip(9) =~= prev + r.payload());
    assert(prev_of(b) =~= prev);
    assert(b.skip(41) =~= r.payload());
}

/// Reading back a written record gives the record, and the chain link that it was
/// written with.
pub proof fn law_record_round_trip(r: RecordV, prev: Seq<u8>)
    requires
        prev.len() == 32,
        r.canonical(),
        r.fits(),
    ensures
        parse_record(r.bytes(prev), Some(prev)) == Ok::<RecordV, Fault>(r),
        parse_record(r.bytes(prev), None) == Ok::<RecordV, Fault>(r),
        prev_of(r.bytes(prev)) == prev,
        framed(r.bytes(prev)),
{
    lemma_bytes_parts(r, prev);
    lemma_auto_spec_u32_to_from_le_bytes();
    lemma_body_len(r.op);
    let tail = r.batch_part();
    lemma_parse_op(r.op, tail);
    if r.op.tag == TAG_BATCH {
        assert(tail.subrange(0, 4) =~= le32(r.ops.len() as int));
        assert(tail.skip(4) =~= frames(r.ops) + Seq::<u8>::empty());
        lemma_parse_ops(r.ops, Seq::empty());
    } else {
        assert(r.ops =~= Seq::empty());
    }
}

proof fn lemma_plain_frames(ops: Seq<OpV>)
    ensures
        frames(Seq::new(ops.len(), |i: int| ops[i].plain())) == frames(ops),
    decreases ops.len(),
{
    let p = Seq::new(ops.len(), |i: int| ops[i].plain());
    if ops.len() > 0 {
        let t = ops.drop_first();
        lemma_plain_frames(t);
        assert(p.drop_first() =~= Seq::new(t.len(), |i: int| t[i].plain()));
        assert(ops[0].plain().frame() =~= ops[0].frame());
    }
}

/// What the bytes of any sound record read as.
pub proof fn law_sound_record_reads(r: RecordV, prev: Seq<u8>)
    requires
        prev.len() == 32,
        r.sound(),
        r.fits(),
    ensures
        parse_record(r.bytes(prev), Some(prev)) == Ok::<RecordV, Fault>(r.plain()),
        parse_record(r.bytes(prev), None) == Ok::<RecordV, Fault>(r.plain()),
        prev_of(r.bytes(prev)) == prev,
        framed(r.bytes(prev)),
{
    let p = r.plain();
    lemma_plain_frames(r.ops);
    assert(p.op.body() =~= r.op.body());
    assert(p.op.tail() =~= r.op.tail());
    assert(p.payload() =~= r.payload());
    assert(p.bytes(prev) =~= r.bytes(prev));
    law_record_round_trip(p, prev);
}

/// A record with one byte changed is refused, wherever it was changed; a single flipped
/// bit is such a change.
pub proof fn law_changed_byte_is_refused(
    bytes: Seq<u8>,
    expected: Option<Seq<u8>>,
    i: int,
    b: u8,
    other_link: Option<Seq<u8>>,
)
    requires
        parse_record(bytes, expected) is Ok,
        0 <= i < bytes.len(),
        b != bytes[i],
    ensures
        parse_record(bytes.update(i, b), other_link) is Err,
{
    lemma_auto_spec_u32_to_from_le_bytes();
    let bad = bytes.update(i, b);
    let covered = bytes.take(1) + bytes.skip(9);
    let now = bad.take(1) + bad.skip(9);
    let (len, sum) = (bytes.subrange(1, 5), bytes.subrange(5, 9));
    let (len2, sum2) = (bad.subrange(1, 5), bad.subrange(5, 9));
    if 1 <= i < 5 {
        assert(len2[i - 1] != len[i - 1]);
        assert(le32(un32(len) as int) == len && le32(un32(len2) as int) == len2);
    } else if 5 <= i < 9 {
        assert(sum2[i - 5] != sum[i - 5]);
        assert(le32(un32(sum) as int) == sum && le32(un32(sum2) as int) == sum2);
        assert(now =~= covered);
    } else {
        let at = if i == 0 {
            0
        } else {
            i - 8
        };
        assert(now =~= covered.update(at, b));
        crc::law_changed_byte_changes_crc(covered, at, b);
        assert(sum2 =~= sum);
    }
}

/// Bytes that were written for one chain link are refused for another.
pub proof fn law_record_keeps_its_link(r: RecordV, prev: Seq<u8>, other: Seq<u8>)
    requires
        prev.len() == 32,
        other != prev,
        r.canonical(),
        r.fits(),
    ensures
        parse_record(r.bytes(prev), Some(other)) == Err::<RecordV, Fault>(Fault::Chain),
{
    lemma_bytes_parts(r, prev);
}

// ---------- executable ----------

pub(crate) fn push_u32(out: &mut Vec<u8>, n: u32)
    ensures
        final(out)@ == old(out)@ + le32(n as int),
{
    let b = u32_to_le_bytes(n);
    out.extend_from_slice(b.as_slice());
    assert(out@ =~= old(out)@ + le32(n as int));
}

pub(crate) fn push_u64(out: &mut Vec<u8>, n: u64)
    ensures
        final(out)@ == old(out)@ + le64(n as int),
{
    let b = u64_to_le_bytes(n);
    out.extend_from_slice(b.as_slice());
    assert(out@ =~= old(out)@ + le64(n as int));
}

pub(crate) fn push_bytes(out: &mut Vec<u8>, b: &[u8])
    ensures
        final(out)@ == old(out)@ + b@,
{
    out.extend_from_slice(b);
    assert(out@ =~= old(out)@ + b@);
}

fn read_u32(bytes: &[u8], at: usize) -> (n: u32)
    requires
        at + 4 <= bytes.len(),
    ensures
        n == un32(bytes@.subrange(at as int, at + 4)),
{
    u32_from_le_bytes(slice_subrange(bytes, at, at + 4))
}

fn read_u64(bytes: &[u8], at: usize) -> (n: u64)
    requires
        at + 8 <= bytes.len(),
    ensures
        n == un64(bytes@.subrange(at as int, at + 8)),
{
    u64_from_le_bytes(slice_subrange(bytes, at, at + 8))
}

/// The 32 bytes at `at`.
pub(crate) fn read_32(bytes: &[u8], at: usize) -> (r: [u8; 32])
    requires
        at + 32 <= bytes.len(),
    ensures
        r@ == bytes@.subrange(at as int, at + 32),
{
    let mut r: [u8; 32] = [0u8; 32];
    let mut i: usize = 0;
    while i < 32
        invariant
            i <= 32,
            at + 32 <= bytes.len(),
            forall|j: int| 0 <= j < i ==> #[trigger] r@[j] == bytes@[at + j],
        decreases 32 - i,
    {
        r[i] = bytes[at + i];
        i += 1;
    }
    assert(r@ =~= bytes@.subrange(at as int, at + 32));
    r
}

pub(crate) fn known_tag(t: u8) -> (r: bool)
    ensures
        r == is_tag(t),
{
    t == TAG_PUT || t == TAG_DEL || t == TAG_PUT_TTL || t == TAG_SCHEMA || t == TAG_INDEX || t
        == TAG_BATCH
}

pub(crate) fn known_op_tag(t: u8) -> (r: bool)
    ensures
        r == is_op_tag(t),
{
    t == TAG_PUT || t == TAG_DEL || t == TAG_PUT_TTL
}

/// Read an operation at `pos`; its end comes back with it.
fn read_op(tag: u8, bytes: &[u8], pos: usize) -> (r: Result<(Record, usize), Fault>)
    requires
        pos <= bytes@.len(),
    ensures
        match r {
            Ok((rec, end)) => {
                &&& pos <= end <= bytes@.len()
                &&& rec.ops@.len() == 0
                &&& parse_op(tag, bytes@.skip(pos as int)) == Ok::<(OpV, Seq<u8>), Fault>(
                    (rec.op(), bytes@.skip(end as int)),
                )
            },
            Err(f) => parse_op(tag, bytes@.skip(pos as int)) == Err::<(OpV, Seq<u8>), Fault>(f),
        },
{
    let ghost s = bytes@.skip(pos as int);
    let left: usize = bytes.len() - pos;
    if left < 4 {
        return Err(Fault::Key);
    }
    let k: u32 = read_u32(bytes, pos);
    assert(s.subrange(0, 4) =~= bytes@.subrange(pos as int, pos + 4));
    let k: usize = k as usize;
    if k > left - 4 {
        return Err(Fault::Key);
    }
    let at: usize = pos + 4 + k;
    let after: usize = bytes.len() - at;
    if after < 8 {
        return Err(Fault::Hlc);
    }
    if after < 72 {
        return Err(Fault::Hosts);
    }
    if after < 80 {
        return Err(Fault::Value);
    }
    let v: u64 = read_u64(bytes, at + 72);
    assert(s.subrange(76 + k, 84 + k) =~= bytes@.subrange(at + 72, at + 80));
    if v > (after - 80) as u64 {
        return Err(Fault::Value);
    }
    let v: usize = v as usize;
    let key = slice_to_vec(slice_subrange(bytes, pos + 4, at));
    let hlc: u64 = read_u64(bytes, at);
    let replica = read_32(bytes, at + 8);
    let author = read_32(bytes, at + 40);
    let value = slice_to_vec(slice_subrange(bytes, at + 80, at + 80 + v));
    let mut end: usize = at + 80 + v;
    let mut expires_at: u64 = 0;
    assert(s.subrange(4, 4 + k) =~= key@);
    assert(s.subrange(4 + k, 12 + k) =~= bytes@.subrange(at as int, at + 8));
    assert(s.subrange(12 + k, 44 + k) =~= replica@);
    assert(s.subrange(44 + k, 76 + k) =~= author@);
    assert(s.subrange(84 + k, 84 + k + v) =~= value@);
    assert(s.skip(84 + k + v) =~= bytes@.skip(end as int));
    if tag == TAG_PUT_TTL {
        if bytes.len() - end < 8 {
            return Err(Fault::Expiry);
        }
        expires_at = read_u64(bytes, end);
        assert(bytes@.skip(end as int).subrange(0, 8) =~= bytes@.subrange(end as int, end + 8));
        assert(bytes@.skip(end as int).skip(8) =~= bytes@.skip(end + 8));
        end = end + 8;
    }
    let rec = Record { tag, key, hlc, replica, author, value, expires_at, ops: Vec::new() };
    Ok((rec, end))
}

/// Read `n` operations at `pos`.
fn read_ops(n: u32, bytes: &[u8], pos: usize) -> (r: Result<Vec<Record>, Fault>)
    requires
        pos <= bytes@.len(),
    ensures
        match r {
            Ok(ops) => parse_ops(n as nat, bytes@.skip(pos as int)) matches Ok((want, _)) && want
                == ops_of(ops@),
            Err(f) => parse_ops(n as nat, bytes@.skip(pos as int)) == Err::<(Seq<OpV>, Seq<u8>), Fault>(
                f,
            ),
        },
{
    let mut ops: Vec<Record> = Vec::new();
    let mut at: usize = pos;
    let mut left: u32 = n;
    let ghost whole = parse_ops(n as nat, bytes@.skip(pos as int));
    proof {
        match whole {
            Ok((want, end)) => assert(Seq::<OpV>::empty() + want =~= want),
            Err(f) => {},
        }
    }
    while left > 0
        invariant
            at <= bytes@.len(),
            whole == (match parse_ops(left as nat, bytes@.skip(at as int)) {
                Ok((more, end)) => Ok::<(Seq<OpV>, Seq<u8>), Fault>((ops_of(ops@) + more, end)),
                Err(f) => Err(f),
            }),
            whole == parse_ops(n as nat, bytes@.skip(pos as int)),
        decreases left,
    {
        let ghost rest = bytes@.skip(at as int);
        if at == bytes.len() {
            return Err(Fault::Ops);
        }
        let tag: u8 = bytes[at];
        if !known_op_tag(tag) {
            return Err(Fault::OpTag(tag));
        }
        assert(rest.skip(1) =~= bytes@.skip(at + 1));
        match read_op(tag, bytes, at + 1) {
            Ok((op, end)) => {
                let ghost before = ops@;
                ops.push(op);
                at = end;
                left = left - 1;
                proof {
                    assert(ops_of(ops@) =~= ops_of(before).push(op.op()));
                    match parse_ops(left as nat, bytes@.skip(end as int)) {
                        Ok((more, _)) => {
                            assert(ops_of(before) + (seq![op.op()] + more) =~= ops_of(ops@) + more);
                        },
                        Err(f) => {},
                    }
                }
            },
            Err(f) => {
                return Err(f);
            },
        }
    }
    assert(ops_of(ops@) + Seq::<OpV>::empty() =~= ops_of(ops@));
    Ok(ops)
}

fn parse_chain_impl(bytes: &[u8], expected: Option<&[u8; 32]>) -> (r: Result<(Record, [u8; 32]), Fault>)
    ensures
        match r {
            Ok((rec, prev)) => {
                &&& prev@ == prev_of(bytes@)
                &&& parse_record(
                    bytes@,
                    match expected {
                        Some(e) => Some(e@),
                        None => None,
                    },
                ) == Ok::<RecordV, Fault>(rec@)
            },
            Err(f) => parse_record(
                bytes@,
                match expected {
                    Some(e) => Some(e@),
                    None => None,
                },
            ) == Err::<RecordV, Fault>(f),
        },
{
    if bytes.len() < HEADER_LEN {
        return Err(Fault::Short);
    }
    let tag: u8 = bytes[0];
    if !known_tag(tag) {
        return Err(Fault::BadTag(tag));
    }
    let declared: u32 = read_u32(bytes, 1);
    let actual: usize = bytes.len() - HEADER_LEN;
    if declared as u64 != actual as u64 {
        return Err(Fault::BadLen(declared as u64, actual as u64));
    }
    let stored: u32 = read_u32(bytes, 5);
    let calc: u32 = crc::crc32_parts(slice_subrange(bytes, 0, 1), slice_subrange(bytes, 9, bytes.len()));
    assert(bytes@.subrange(0, 1) =~= bytes@.take(1));
    assert(bytes@.subrange(9, bytes@.len() as int) =~= bytes@.skip(9));
    if calc != stored {
        return Err(Fault::Crc);
    }
    let prev = read_32(bytes, 9);
    if let Some(e) = expected {
        if !ordmap::same_bytes(prev.as_slice(), e.as_slice()) {
            return Err(Fault::Chain);
        }
    }
    match read_op(tag, bytes, HEADER_LEN) {
        Err(f) => Err(f),
        Ok((mut rec, end)) => {
            let ghost rest = bytes@.skip(end as int);
            if tag == TAG_BATCH {
                if bytes.len() - end < 4 {
                    return Err(Fault::Ops);
                }
                let n: u32 = read_u32(bytes, end);
                assert(rest.subrange(0, 4) =~= bytes@.subrange(end as int, end + 4));
                assert(rest.skip(4) =~= bytes@.skip(end + 4));
                match read_ops(n, bytes, end + 4) {
                    Err(f) => {
                        return Err(f);
                    },
                    Ok(ops) => {
                        rec.ops = ops;
                    },
                }
            } else {
                assert(ops_of(rec.ops@) =~= Seq::empty());
            }
            Ok((rec, prev))
        },
    }
}

impl Record {
    /// Does the record fit the length fields of its bytes?
    pub fn fits(&self) -> (r: bool)
        ensures
            r == self@.fits(),
    {
        proof {
            lemma_auto_spec_u32_to_from_le_bytes();
            lemma_body_len(self.op());
        }
        let max: u64 = 0xFFFF_FFFF;
        if self.key.len() as u64 > max || self.value.len() as u64 > max || self.ops.len() as u64 > max {
            return false;
        }
        let mut total: u64 = self.body_len();
        if self.tag == TAG_BATCH {
            total = total + 4;
            let mut i: usize = 0;
            while i < self.ops.len()
                invariant
                    i <= self.ops.len(),
                    max == 0xFFFF_FFFF,
                    self.tag == TAG_BATCH,
                    self.ops@.len() <= max,
                    total <= max || total == self.op().body().len() + 4,
                    total <= 2 * max + 96,
                    total == self.op().body().len() + self.op().tail().len() + 4 + frames(
                        ops_of(self.ops@).take(i as int),
                    ).len(),
                    self@.payload().len() == self.op().body().len() + self.op().tail().len() + 4
                        + frames(ops_of(self.ops@)).len(),
                decreases self.ops.len() - i,
            {
                proof {
                    lemma_frames_take(ops_of(self.ops@), i as int);
                    lemma_body_len(self.ops@[i as int].op());
                }
                if total > max {
                    return false;
                }
                let op = &self.ops[i];
                if op.key.len() as u64 > max || op.value.len() as u64 > max {
                    return false;
                }
                total = total + 1 + op.body_len();
                if total > max {
                    proof {
                        lemma_frames_take(ops_of(self.ops@), i + 1);
                    }
                    return false;
                }
                i += 1;
            }
            assert(ops_of(self.ops@).take(i as int) =~= ops_of(self.ops@));
        }
        total <= max
    }

    /// The length of the operation's part of the payload.
    fn body_len(&self) -> (n: u64)
        requires
            self.key@.len() <= u32::MAX,
            self.value@.len() <= u32::MAX,
        ensures
            n == self.op().body().len() + self.op().tail().len(),
    {
        proof {
            lemma_body_len(self.op());
        }
        let base: u64 = 84 + self.key.len() as u64 + self.value.len() as u64;
        if self.tag == TAG_PUT_TTL {
            base + 8
        } else {
            base
        }
    }

    fn write_op(&self, out: &mut Vec<u8>)
        requires
            self.key@.len() <= u32::MAX,
        ensures
            final(out)@ == old(out)@ + (self.op().body() + self.op().tail()),
    {
        push_u32(out, self.key.len() as u32);
        push_bytes(out, self.key.as_slice());
        push_u64(out, self.hlc);
        push_bytes(out, self.replica.as_slice());
        push_bytes(out, self.author.as_slice());
        push_u64(out, self.value.len() as u64);
        push_bytes(out, self.value.as_slice());
        if self.tag == TAG_PUT_TTL {
            push_u64(out, self.expires_at);
        }
        assert(out@ =~= old(out)@ + (self.op().body() + self.op().tail()));
    }

    fn write_payload(&self) -> (out: Vec<u8>)
        requires
            self@.fits(),
        ensures
            out@ == self@.payload(),
    {
        proof {
            lemma_body_len(self.op());
        }
        let mut out: Vec<u8> = Vec::new();
        self.write_op(&mut out);
        if self.tag == TAG_BATCH {
            push_u32(&mut out, self.ops.len() as u32);
            let ghost head = out@;
            let mut i: usize = 0;
            while i < self.ops.len()
                invariant
                    i <= self.ops.len(),
                    self@.fits(),
                    self.tag == TAG_BATCH,
                    out@ == head + frames(ops_of(self.ops@).take(i as int)),
                decreases self.ops.len() - i,
            {
                proof {
                    lemma_frames_take(ops_of(self.ops@), i as int);
                    lemma_body_len(self.ops@[i as int].op());
                }
                let ghost before = out@;
                out.push(self.ops[i].tag);
                self.ops[i].write_op(&mut out);
                assert(out@ =~= before + self.ops@[i as int].op().frame());
                i += 1;
                assert(out@ =~= head + frames(ops_of(self.ops@).take(i as int)));
            }
            assert(ops_of(self.ops@).take(i as int) =~= ops_of(self.ops@));
        }
        assert(out@ =~= self@.payload());
        out
    }

    /// The record's bytes, chained to `prev`.
    pub fn to_bytes(&self, prev: [u8; 32]) -> (out: Vec<u8>)
        requires
            self@.fits(),
        ensures
            out@ == self@.bytes(prev@),
    {
        let payload = self.write_payload();
        let mut tail: Vec<u8> = Vec::new();
        push_bytes(&mut tail, prev.as_slice());
        push_bytes(&mut tail, payload.as_slice());
        let mut out: Vec<u8> = Vec::new();
        out.push(self.tag);
        assert(out@ =~= seq![self.tag]);
        let sum: u32 = crc::crc32_parts(out.as_slice(), tail.as_slice());
        push_u32(&mut out, payload.len() as u32);
        push_u32(&mut out, sum);
        push_bytes(&mut out, tail.as_slice());
        assert(tail@ =~= prev@ + self@.payload());
        assert(out@ =~= self@.bytes(prev@));
        out
    }

    /// Parse a whole record that must chain to `expected_prev`; the link comes back
    /// with it.
    pub fn parse(bytes: &[u8], expected_prev: &[u8; 32]) -> (r: Result<
        (Record, [u8; 32]),
        StorageError,
    >)
        ensures
            match parse_record(bytes@, Some(expected_prev@)) {
                Ok(want) => r matches Ok((rec, prev)) && rec@ == want && prev@ == prev_of(bytes@),
                Err(f) => r matches Err(e) && e@ == f.error(),
            },
    {
        Record::parse_chain(bytes, Some(expected_prev))
    }

    /// As [`Record::parse`]; without an expected link any link is accepted.
    pub fn parse_chain(bytes: &[u8], expected_prev: Option<&[u8; 32]>) -> (r: Result<
        (Record, [u8; 32]),
        StorageError,
    >)
        ensures
            match parse_record(
                bytes@,
                match expected_prev {
                    Some(e) => Some(e@),
                    None => None,
                },
            ) {
                Ok(want) => r matches Ok((rec, prev)) && rec@ == want && prev@ == prev_of(bytes@),
                Err(f) => r matches Err(e) && e@ == f.error(),
            },
    {
        match parse_chain_impl(bytes, expected_prev) {
            Ok(x) => Ok(x),
            Err(f) => Err(crate::storage::error::corrupt(f.detail())),
        }
    }

    /// The hash of a record: SHA-256 of its chain link and its bytes.
    pub fn record_hash(prev: &[u8; 32], bytes: &[u8]) -> (h: [u8; 32])
        ensures
            h@ == hash_of(prev@, bytes@),
    {
        hash::sha256_parts(prev.as_slice(), bytes)
    }
}

impl Fault {
    /// The fault as a storage error.
    pub open spec fn error(self) -> crate::storage::error::StorageFault {
        crate::storage::error::StorageFault::Corrupt { ns: None, detail: self.text() }
    }
}

proof fn lemma_frames_take(ops: Seq<OpV>, n: int)
    requires
        0 <= n <= ops.len(),
    ensures
        frames(ops).len() >= frames(ops.take(n)).len(),
        n < ops.len() ==> frames(ops.take(n + 1)) == frames(ops.take(n)) + ops[n].frame(),
        n < ops.len() ==> frames(ops).len() >= frames(ops.take(n)).len() + ops[n].frame().len(),
    decreases ops.len() - n,
{
    if n == ops.len() {
        assert(ops.take(n) =~= ops);
    } else {
        assert(ops.take(n + 1) =~= ops.take(n).push(ops[n]));
        lemma_frames_push(ops.take(n), ops[n]);
        lemma_frames_take(ops, n + 1);
    }
}

// ---------- the layout ----------

/// Where the fields of a record stand in its bytes: the tag, the length of what follows
/// the header, the checksum over all but itself and the length, the link, then the key,
/// the clock, the replica, the author and the value, each behind its length where it has
/// one, and the expiry of a write that has one.
#[verifier::rlimit(40)]
pub proof fn law_fields_stand_in_their_places(r: RecordV, prev: Seq<u8>)
    requires
        prev.len() == 32,
        r.canonical(),
        r.fits(),
    ensures
        ({
            let b = r.bytes(prev);
            let k = r.op.key.len() as int;
            let v = r.op.value.len() as int;
            &&& b.len() >= 125 + k + v
            &&& b[0] == r.op.tag
            &&& spec_u32_from_le_bytes(b.subrange(1, 5)) == b.len() - 41
            &&& spec_u32_from_le_bytes(b.subrange(5, 9)) == crc::crc_of(b.take(1) + b.skip(9))
            &&& b.subrange(9, 41) == prev
            &&& spec_u32_from_le_bytes(b.subrange(41, 45)) == k
            &&& b.subrange(45, 45 + k) == r.op.key
            &&& spec_u64_from_le_bytes(b.subrange(45 + k, 53 + k)) == r.op.hlc
            &&& b.subrange(53 + k, 85 + k) == r.op.replica
            &&& b.subrange(85 + k, 117 + k) == r.op.author
            &&& spec_u64_from_le_bytes(b.subrange(117 + k, 125 + k)) == v
            &&& b.subrange(125 + k, 125 + k + v) == r.op.value
            &&& r.op.tag == 3 ==> b.len() >= 133 + k + v && spec_u64_from_le_bytes(
                b.subrange(125 + k + v, 133 + k + v),
            ) == r.op.expires_at
            &&& r.op.tag == 6 ==> b.len() >= 129 + k + v && spec_u32_from_le_bytes(
                b.subrange(125 + k + v, 129 + k + v),
            ) == r.ops.len()
            &&& r.op.tag == 1 || r.op.tag == 2 || r.op.tag == 4 || r.op.tag == 5 ==> b.len() == 125 + k + v
        }),
{
    law_record_round_trip(r, prev);
    let b = r.bytes(prev);
    let s = b.skip(41);
    let k = r.op.key.len() as int;
    let v = r.op.value.len() as int;
    lemma_auto_spec_u32_to_from_le_bytes();
    lemma_auto_spec_u64_to_from_le_bytes();
    lemma_body_len(r.op);
    lemma_bytes_parts(r, prev);
    let p = r.payload();
    assert(s =~= p);
    assert(p == r.op.body() + r.op.tail() + r.batch_part());
    let body = r.op.body();
    assert(p.take(body.len() as int) =~= body);
    assert(body.len() == 84 + k + v);
    assert(b.subrange(41, 45) =~= s.subrange(0, 4));
    assert(s.subrange(0, 4) =~= le32(k));
    assert(b.subrange(45, 45 + k) =~= s.subrange(4, 4 + k));
    assert(s.subrange(4, 4 + k) =~= r.op.key);
    assert(b.subrange(45 + k, 53 + k) =~= s.subrange(4 + k, 12 + k));
    assert(s.subrange(4 + k, 12 + k) =~= le64(r.op.hlc as int));
    assert(b.subrange(53 + k, 85 + k) =~= s.subrange(12 + k, 44 + k));
    assert(s.subrange(12 + k, 44 + k) =~= r.op.replica);
    assert(b.subrange(85 + k, 117 + k) =~= s.subrange(44 + k, 76 + k));
    assert(s.subrange(44 + k, 76 + k) =~= r.op.author);
    assert(b.subrange(117 + k, 125 + k) =~= s.subrange(76 + k, 84 + k));
    assert(s.subrange(76 + k, 84 + k) =~= le64(v));
    assert(b.subrange(125 + k, 125 + k + v) =~= s.subrange(84 + k, 84 + k + v));
    assert(s.subrange(84 + k, 84 + k + v) =~= r.op.value);
    if r.op.tag == 3 {
        assert(b.subrange(125 + k + v, 133 + k + v) =~= le64(r.op.expires_at as int));
    }
    if r.op.tag == 6 {
        assert(b.subrange(125 + k + v, 129 + k + v) =~= le32(r.ops.len() as int));
    }
}

} // verus!
