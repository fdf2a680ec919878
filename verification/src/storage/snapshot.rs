//! The snapshot of the live data: what `index.snap` holds.
//!
//! Layout, integers little-endian, `bytes` a length (u32) and that many bytes:
//! ```text
//! magic:[u8;8] | revision:u64
//! count:u32 | count x (key:bytes | value:bytes)               metadata
//! count:u32 | count x (peer:bytes | diff:i64)                 peer clocks
//! count:u32 | count x namespace
//! namespace: name:bytes | policy:u8 | seq:u64 | head:[u8;32]
//!            | count:u32 | count x (key:bytes | entry)
//!            | count:u32 | count x (key:bytes | hlc:u64)      tombstones
//! entry: 0:u8 | version   or   1:u8 | count:u32 | count x version
//! version: hlc:u64 | replica:[u8;32] | author:[u8;32] | value:bytes | seq:u64
//!          | expires_at:u64
//! ```
//! The first form of the snapshot had no `expires_at`; it is still read.

use crate::ordmap;
use crate::ordmap::OrdMap;
use crate::storage::entry;
use crate::storage::entry::{CellsV, ConflictPolicy, Entry, EntryV, Version, VersionV};
use crate::storage::error::{corrupt, corrupt_in, StorageError, StorageFault};
use crate::storage::record;
use crate::storage::record::{push_bytes, push_u32, push_u64, read_32};
use crate::text;
use vstd::bytes::*;
use vstd::prelude::*;
use vstd::slice::*;

verus! {

/// The magic of a snapshot: `BMDBIDX2`.
pub open spec fn magic() -> Seq<u8> {
    seq![66u8, 77, 68, 66, 73, 68, 88, 50]
}

/// The magic of the first form: `BMDBIDX1`.
pub open spec fn magic_v1() -> Seq<u8> {
    seq![66u8, 77, 68, 66, 73, 68, 88, 49]
}

/// One namespace of a snapshot, as a value of the model.
#[verifier::ext_equal]
pub struct SnapSpaceV {
    pub policy: ConflictPolicy,
    pub seq: u64,
    pub head: Seq<u8>,
    pub cells: CellsV,
}

/// A snapshot as a value of the model.
#[verifier::ext_equal]
pub struct SnapV {
    pub revision: u64,
    pub meta: Map<Seq<u8>, Seq<u8>>,
    pub clocks: Map<Seq<u8>, i64>,
    pub spaces: Map<Seq<u8>, SnapSpaceV>,
}

impl SnapV {
    pub open spec fn empty() -> SnapV {
        SnapV { revision: 0, meta: Map::empty(), clocks: Map::empty(), spaces: Map::empty() }
    }
}

// ---------- writing, in the model ----------

/// The encodings of some items, one behind the other.
pub open spec fn cat<T>(enc: spec_fn(T) -> Seq<u8>, xs: Seq<T>) -> Seq<u8>
    decreases xs.len(),
{
    if xs.len() == 0 {
        Seq::empty()
    } else {
        cat(enc, xs.drop_last()) + enc(xs.last())
    }
}

/// A count and the items.
pub open spec fn counted<T>(enc: spec_fn(T) -> Seq<u8>, xs: Seq<T>) -> Seq<u8> {
    record::le32(xs.len() as int) + cat(enc, xs)
}

/// The pairs of a map, in key order.
pub open spec fn pairs<V>(m: Map<Seq<u8>, V>) -> Seq<(Seq<u8>, V)> {
    Seq::new(ordmap::listed(m.dom()).len(), |i: int| (ordmap::listed(m.dom())[i], m[ordmap::listed(m.dom())[i]]))
}

pub open spec fn enc_bytes(b: Seq<u8>) -> Seq<u8> {
    record::le32(b.len() as int) + b
}

pub open spec fn enc_version(v: VersionV) -> Seq<u8> {
    record::le64(v.hlc as int) + v.replica + v.author + enc_bytes(v.value) + record::le64(v.seq as int)
        + record::le64(v.expires_at as int)
}

pub open spec fn enc_entry(e: EntryV) -> Seq<u8> {
    match e {
        EntryV::Lww(v) => seq![0u8] + enc_version(v),
        EntryV::Register(vs) => seq![1u8] + counted(|v: VersionV| enc_version(v), vs),
    }
}

pub open spec fn enc_cell(p: (Seq<u8>, EntryV)) -> Seq<u8> {
    enc_bytes(p.0) + enc_entry(p.1)
}

pub open spec fn enc_tomb(p: (Seq<u8>, u64)) -> Seq<u8> {
    enc_bytes(p.0) + record::le64(p.1 as int)
}

pub open spec fn enc_meta(p: (Seq<u8>, Seq<u8>)) -> Seq<u8> {
    enc_bytes(p.0) + enc_bytes(p.1)
}

pub open spec fn enc_clock(p: (Seq<u8>, i64)) -> Seq<u8> {
    enc_bytes(p.0) + record::le64(p.1 as u64 as int)
}

pub open spec fn policy_byte(p: ConflictPolicy) -> u8 {
    match p {
        ConflictPolicy::Lww => 0,
        ConflictPolicy::CrdtRegister => 1,
    }
}

pub open spec fn enc_space(p: (Seq<u8>, SnapSpaceV)) -> Seq<u8> {
    enc_bytes(p.0) + seq![policy_byte(p.1.policy)] + record::le64(p.1.seq as int) + p.1.head + counted(
        |c: (Seq<u8>, EntryV)| enc_cell(c),
        pairs(p.1.cells.index),
    ) + counted(|t: (Seq<u8>, u64)| enc_tomb(t), pairs(p.1.cells.tombs))
}

/// The bytes of a snapshot.
pub open spec fn enc_snap(s: SnapV) -> Seq<u8> {
    magic() + record::le64(s.revision as int) + counted(|p: (Seq<u8>, Seq<u8>)| enc_meta(p), pairs(s.meta))
        + counted(|p: (Seq<u8>, i64)| enc_clock(p), pairs(s.clocks)) + counted(
        |p: (Seq<u8>, SnapSpaceV)| enc_space(p),
        pairs(s.spaces),
    )
}

/// A length that its field holds.
pub open spec fn short(n: int) -> bool {
    n <= u32::MAX
}

pub open spec fn version_fits(v: VersionV) -> bool {
    short(v.value.len() as int)
}

pub open spec fn versions_fit(vs: Seq<VersionV>) -> bool {
    short(vs.len() as int) && forall|i: int| 0 <= i < vs.len() ==> version_fits(#[trigger] vs[i])
}

pub open spec fn entry_fits(e: EntryV) -> bool {
    match e {
        EntryV::Lww(v) => version_fits(v),
        EntryV::Register(vs) => versions_fit(vs),
    }
}

// ---------- reading, in the model ----------

/// What was read off the front of some bytes, and the bytes behind it.
pub type Got<T> = Result<(T, Seq<u8>), StorageFault>;

pub open spec fn fault(detail: Seq<char>) -> StorageFault {
    StorageFault::Corrupt { ns: None, detail }
}

pub open spec fn p_take(n: int, b: Seq<u8>) -> Got<Seq<u8>> {
    if n > b.len() {
        Err(fault("snapshot truncated"@))
    } else {
        Ok((b.take(n), b.skip(n)))
    }
}

pub open spec fn p_u8(b: Seq<u8>) -> Got<u8> {
    match p_take(1, b) {
        Err(e) => Err(e),
        Ok((x, r)) => Ok((x[0], r)),
    }
}

pub open spec fn p_u32(b: Seq<u8>) -> Got<u32> {
    match p_take(4, b) {
        Err(e) => Err(e),
        Ok((x, r)) => Ok((record::un32(x), r)),
    }
}

pub open spec fn p_u64(b: Seq<u8>) -> Got<u64> {
    match p_take(8, b) {
        Err(e) => Err(e),
        Ok((x, r)) => Ok((record::un64(x), r)),
    }
}

pub open spec fn p_bytes(b: Seq<u8>) -> Got<Seq<u8>> {
    match p_u32(b) {
        Err(e) => Err(e),
        Ok((n, r)) => p_take(n as int, r),
    }
}

/// Read `n` items.
pub open spec fn p_many<T>(p: spec_fn(Seq<u8>) -> Got<T>, n: nat, b: Seq<u8>, acc: Seq<T>) -> Got<Seq<T>>
    decreases n,
{
    if n == 0 {
        Ok((acc, b))
    } else {
        match p(b) {
            Err(e) => Err(e),
            Ok((x, r)) => p_many(p, (n - 1) as nat, r, acc.push(x)),
        }
    }
}

/// Read a count and the items.
pub open spec fn p_counted<T>(p: spec_fn(Seq<u8>) -> Got<T>, b: Seq<u8>) -> Got<Seq<T>> {
    match p_u32(b) {
        Err(e) => Err(e),
        Ok((n, r)) => p_many(p, n as nat, r, Seq::empty()),
    }
}

pub open spec fn p_expiry(v1: bool, b: Seq<u8>) -> Got<u64> {
    if v1 {
        Ok((0u64, b))
    } else {
        p_u64(b)
    }
}

pub open spec fn p_version(v1: bool, b: Seq<u8>) -> Got<VersionV> {
    match p_u64(b) {
        Err(e) => Err(e),
        Ok((hlc, b)) => match p_take(32, b) {
            Err(e) => Err(e),
            Ok((replica, b)) => match p_take(32, b) {
                Err(e) => Err(e),
                Ok((author, b)) => match p_bytes(b) {
                    Err(e) => Err(e),
                    Ok((value, b)) => match p_u64(b) {
                        Err(e) => Err(e),
                        Ok((seq, b)) => match p_expiry(v1, b) {
                            Err(e) => Err(e),
                            Ok((expires_at, b)) => Ok(
                                (VersionV { hlc, replica, author, value, seq, expires_at }, b),
                            ),
                        },
                    },
                },
            },
        },
    }
}

pub open spec fn p_entry(v1: bool, ns: Seq<char>, b: Seq<u8>) -> Got<EntryV> {
    match p_u8(b) {
        Err(e) => Err(e),
        Ok((tag, b)) => if tag == 0 {
            match p_version(v1, b) {
                Err(e) => Err(e),
                Ok((v, b)) => Ok((EntryV::Lww(v), b)),
            }
        } else if tag == 1 {
            match p_counted(|b: Seq<u8>| p_version(v1, b), b) {
                Err(e) => Err(e),
                Ok((vs, b)) => Ok((EntryV::Register(vs), b)),
            }
        } else {
            Err(
                StorageFault::Corrupt {
                    ns: Some(ns),
                    detail: "bad entry tag "@ + text::decimal(tag as int),
                },
            )
        },
    }
}

pub open spec fn p_cell(v1: bool, ns: Seq<char>, b: Seq<u8>) -> Got<(Seq<u8>, EntryV)> {
    match p_bytes(b) {
        Err(e) => Err(e),
        Ok((k, b)) => match p_entry(v1, ns, b) {
            Err(e) => Err(e),
            Ok((e, b)) => Ok(((k, e), b)),
        },
    }
}

pub open spec fn p_tomb(b: Seq<u8>) -> Got<(Seq<u8>, u64)> {
    match p_bytes(b) {
        Err(e) => Err(e),
        Ok((k, b)) => match p_u64(b) {
            Err(e) => Err(e),
            Ok((h, b)) => Ok(((k, h), b)),
        },
    }
}

pub open spec fn p_meta(b: Seq<u8>) -> Got<(Seq<u8>, Seq<u8>)> {
    match p_bytes(b) {
        Err(e) => Err(e),
        Ok((k, b)) => match p_bytes(b) {
            Err(e) => Err(e),
            Ok((v, b)) => Ok(((k, v), b)),
        },
    }
}

pub open spec fn p_clock(b: Seq<u8>) -> Got<(Seq<u8>, i64)> {
    match p_bytes(b) {
        Err(e) => Err(e),
        Ok((k, b)) => match p_u64(b) {
            Err(e) => Err(e),
            Ok((d, b)) => Ok(((k, d as i64), b)),
        },
    }
}

pub open spec fn p_policy(b: Seq<u8>) -> Got<ConflictPolicy> {
    match p_u8(b) {
        Err(e) => Err(e),
        Ok((t, b)) => match policy_of(t) {
            Err(e) => Err(e),
            Ok(p) => Ok((p, b)),
        },
    }
}

/// The policy that a byte stands for.
pub open spec fn policy_of(t: u8) -> Result<ConflictPolicy, StorageFault> {
    if t == 0 {
        Ok(ConflictPolicy::Lww)
    } else if t == 1 {
        Ok(ConflictPolicy::CrdtRegister)
    } else {
        Err(fault("bad policy byte "@ + text::decimal(t as int)))
    }
}

/// A namespace as it was read: its name and its parts.
pub struct ReadSpace {
    pub name: Seq<char>,
    pub policy: ConflictPolicy,
    pub seq: u64,
    pub head: Seq<u8>,
    pub index: Seq<(Seq<u8>, EntryV)>,
    pub tombs: Seq<(Seq<u8>, u64)>,
}

pub open spec fn p_space(v1: bool, b: Seq<u8>) -> Got<ReadSpace> {
    match p_bytes(b) {
        Err(e) => Err(e),
        Ok((n, b)) => match p_policy(b) {
            Err(e) => Err(e),
            Ok((policy, b)) => match p_u64(b) {
                Err(e) => Err(e),
                Ok((seq, b)) => match p_take(32, b) {
                    Err(e) => Err(e),
                    Ok((head, b)) => match p_counted(|b: Seq<u8>| p_cell(v1, text::lossy_text(n), b), b) {
                        Err(e) => Err(e),
                        Ok((index, b)) => match p_counted(|b: Seq<u8>| p_tomb(b), b) {
                            Err(e) => Err(e),
                            Ok((tombs, b)) => Ok(
                                (
                                    ReadSpace {
                                        name: text::lossy_text(n),
                                        policy,
                                        seq,
                                        head,
                                        index,
                                        tombs,
                                    },
                                    b,
                                ),
                            ),
                        },
                    },
                },
            },
        },
    }
}

/// A map with some pairs put in, in order.
pub open spec fn put_all<V>(m: Map<Seq<u8>, V>, ps: Seq<(Seq<u8>, V)>) -> Map<Seq<u8>, V>
    decreases ps.len(),
{
    if ps.len() == 0 {
        m
    } else {
        put_all(m, ps.drop_last()).insert(ps.last().0, ps.last().1)
    }
}

/// As [`put_all`], with each key read as text.
pub open spec fn put_texts<V>(m: Map<Seq<u8>, V>, ps: Seq<(Seq<u8>, V)>) -> Map<Seq<u8>, V>
    decreases ps.len(),
{
    if ps.len() == 0 {
        m
    } else {
        put_texts(m, ps.drop_last()).insert(text::utf8(text::lossy_text(ps.last().0)), ps.last().1)
    }
}

/// The namespaces with one more read: a second part of a namespace adds to the first.
pub open spec fn put_space(m: Map<Seq<u8>, SnapSpaceV>, s: ReadSpace) -> Map<Seq<u8>, SnapSpaceV> {
    let key = text::utf8(s.name);
    let had = if m.dom().contains(key) {
        m[key].cells
    } else {
        CellsV::empty()
    };
    m.insert(
        key,
        SnapSpaceV {
            policy: s.policy,
            seq: s.seq,
            head: s.head,
            cells: CellsV { index: put_all(had.index, s.index), tombs: put_all(had.tombs, s.tombs) },
        },
    )
}

pub open spec fn put_spaces(ss: Seq<ReadSpace>) -> Map<Seq<u8>, SnapSpaceV>
    decreases ss.len(),
{
    if ss.len() == 0 {
        Map::empty()
    } else {
        put_space(put_spaces(ss.drop_last()), ss.last())
    }
}

/// Read what is behind the magic.
pub open spec fn p_body(v1: bool, b: Seq<u8>) -> Got<SnapV> {
    match p_u64(b) {
        Err(e) => Err(e),
        Ok((revision, b)) => match p_counted(|b: Seq<u8>| p_meta(b), b) {
            Err(e) => Err(e),
            Ok((meta, b)) => match p_counted(|b: Seq<u8>| p_clock(b), b) {
                Err(e) => Err(e),
                Ok((clocks, b)) => match p_counted(|b: Seq<u8>| p_space(v1, b), b) {
                    Err(e) => Err(e),
                    Ok((spaces, b)) => Ok(
                        (
                            SnapV {
                                revision,
                                meta: put_texts(Map::empty(), meta),
                                clocks: put_texts(Map::empty(), clocks),
                                spaces: put_spaces(spaces),
                            },
                            b,
                        ),
                    ),
                },
            },
        },
    }
}

/// What a snapshot's bytes say.
pub open spec fn parse_snap(bytes: Seq<u8>) -> Result<SnapV, StorageFault> {
    let v1 = bytes.take(8) == magic_v1();
    if bytes.len() < 8 {
        Err(fault("index.snap too short"@))
    } else if !v1 && bytes.take(8) != magic() {
        Err(fault("index.snap magic mismatch"@))
    } else {
        match p_body(v1, bytes.skip(8)) {
            Err(e) => Err(e),
            Ok((s, b)) => if b.len() != 0 {
                Err(fault("trailing bytes in snapshot"@))
            } else {
                Ok(s)
            },
        }
    }
}

// ---------- reading ----------

/// The snapshot of one namespace.
pub struct SnapSpace {
    pub policy: ConflictPolicy,
    pub seq: u64,
    pub head: [u8; 32],
    pub index: OrdMap<Entry>,
    pub tombs: OrdMap<u64>,
}

impl View for SnapSpace {
    type V = SnapSpaceV;

    open spec fn view(&self) -> SnapSpaceV {
        SnapSpaceV {
            policy: self.policy,
            seq: self.seq,
            head: self.head@,
            cells: CellsV { index: self.index@, tombs: self.tombs@ },
        }
    }
}

impl SnapSpace {
    pub open spec fn wf(&self) -> bool {
        self.index.wf() && self.tombs.wf()
    }
}

/// A snapshot.
pub struct Snap {
    pub revision: u64,
    pub meta: OrdMap<Vec<u8>>,
    pub clocks: OrdMap<i64>,
    pub spaces: OrdMap<SnapSpace>,
}

impl View for Snap {
    type V = SnapV;

    open spec fn view(&self) -> SnapV {
        SnapV { revision: self.revision, meta: self.meta@, clocks: self.clocks@, spaces: self.spaces@ }
    }
}

impl Snap {
    pub open spec fn wf(&self) -> bool {
        &&& self.meta.wf()
        &&& self.clocks.wf()
        &&& self.spaces.wf()
        &&& forall|k: Seq<u8>|
            #[trigger] self.spaces.raw().dom().contains(k) ==> self.spaces.raw()[k].wf()
    }

    /// The text keys are UTF-8.
    pub open spec fn texts(&self) -> bool {
        text_keys(self@.meta) && text_keys(self@.clocks) && text_keys(self@.spaces)
    }

    pub fn empty() -> (s: Snap)
        ensures
            s.wf(),
            s.texts(),
            s@ == SnapV::empty(),
    {
        Snap { revision: 0, meta: OrdMap::new(), clocks: OrdMap::new(), spaces: OrdMap::new() }
    }
}

struct Reader<'a> {
    buf: &'a [u8],
    pos: usize,
}

impl<'a> Reader<'a> {
    spec fn wf(&self) -> bool {
        self.pos <= self.buf@.len()
    }

    spec fn rest(&self) -> Seq<u8> {
        self.buf@.skip(self.pos as int)
    }

    fn take(&mut self, n: usize) -> (r: Result<&'a [u8], StorageError>)
        requires
            old(self).wf(),
        ensures
            final(self).wf(),
            final(self).buf == old(self).buf,
            match p_take(n as int, old(self).rest()) {
                Ok((x, rest)) => r matches Ok(b) && b@ == x && final(self).rest() == rest,
                Err(f) => r matches Err(e) && e@ == f,
            },
    {
        if n > self.buf.len() - self.pos {
            return Err(corrupt(text::copy_text("snapshot truncated")));
        }
        let start = self.pos;
        let b = slice_subrange(self.buf, start, start + n);
        self.pos = start + n;
        assert(b@ =~= old(self).rest().take(n as int));
        assert(self.rest() =~= old(self).rest().skip(n as int));
        Ok(b)
    }

    fn u8(&mut self) -> (r: Result<u8, StorageError>)
        requires
            old(self).wf(),
        ensures
            final(self).wf(),
            final(self).buf == old(self).buf,
            match p_u8(old(self).rest()) {
                Ok((x, rest)) => r matches Ok(b) && b == x && final(self).rest() == rest,
                Err(f) => r matches Err(e) && e@ == f,
            },
    {
        match self.take(1) {
            Ok(b) => Ok(b[0]),
            Err(e) => Err(e),
        }
    }

    fn u32(&mut self) -> (r: Result<u32, StorageError>)
        requires
            old(self).wf(),
        ensures
            final(self).wf(),
            final(self).buf == old(self).buf,
            match p_u32(old(self).rest()) {
                Ok((x, rest)) => r matches Ok(b) && b == x && final(self).rest() == rest,
                Err(f) => r matches Err(e) && e@ == f,
            },
    {
        match self.take(4) {
            Ok(b) => Ok(u32_from_le_bytes(b)),
            Err(e) => Err(e),
        }
    }

    fn u64(&mut self) -> (r: Result<u64, StorageError>)
        requires
            old(self).wf(),
        ensures
            final(self).wf(),
            final(self).buf == old(self).buf,
            match p_u64(old(self).rest()) {
                Ok((x, rest)) => r matches Ok(b) && b == x && final(self).rest() == rest,
                Err(f) => r matches Err(e) && e@ == f,
            },
    {
        match self.take(8) {
            Ok(b) => Ok(u64_from_le_bytes(b)),
            Err(e) => Err(e),
        }
    }

    fn fixed32(&mut self) -> (r: Result<[u8; 32], StorageError>)
        requires
            old(self).wf(),
        ensures
            final(self).wf(),
            final(self).buf == old(self).buf,
            match p_take(32, old(self).rest()) {
                Ok((x, rest)) => r matches Ok(b) && b@ == x && final(self).rest() == rest,
                Err(f) => r matches Err(e) && e@ == f,
            },
    {
        match self.take(32) {
            Ok(b) => {
                let a = read_32(b, 0);
                assert(b@.subrange(0, 32) =~= b@);
                Ok(a)
            },
            Err(e) => Err(e),
        }
    }

    fn bytes(&mut self) -> (r: Result<&'a [u8], StorageError>)
        requires
            old(self).wf(),
        ensures
            final(self).wf(),
            final(self).buf == old(self).buf,
            match p_bytes(old(self).rest()) {
                Ok((x, rest)) => r matches Ok(b) && b@ == x && final(self).rest() == rest,
                Err(f) => r matches Err(e) && e@ == f,
            },
    {
        match self.u32() {
            Ok(n) => self.take(n as usize),
            Err(e) => Err(e),
        }
    }

    /// Read a version; the first form of the snapshot has no expiry.
    fn version(&mut self, v1: bool) -> (r: Result<Version, StorageError>)
        requires
            old(self).wf(),
        ensures
            final(self).wf(),
            final(self).buf == old(self).buf,
            match p_version(v1, old(self).rest()) {
                Ok((x, rest)) => r matches Ok(v) && v@ == x && final(self).rest() == rest,
                Err(f) => r matches Err(e) && e@ == f,
            },
    {
        let hlc: u64 = match self.u64() {
            Ok(x) => x,
            Err(e) => {
                return Err(e);
            },
        };
        let replica = match self.fixed32() {
            Ok(x) => x,
            Err(e) => {
                return Err(e);
            },
        };
        let author = match self.fixed32() {
            Ok(x) => x,
            Err(e) => {
                return Err(e);
            },
        };
        let value = match self.bytes() {
            Ok(x) => slice_to_vec(x),
            Err(e) => {
                return Err(e);
            },
        };
        let seq: u64 = match self.u64() {
            Ok(x) => x,
            Err(e) => {
                return Err(e);
            },
        };
        let expires_at: u64 = if v1 {
            0
        } else {
            match self.u64() {
                Ok(x) => x,
                Err(e) => {
                    return Err(e);
                },
            }
        };
        Ok(Version { hlc, replica, author, value, seq, expires_at })
    }

    fn versions(&mut self, v1: bool) -> (r: Result<Vec<Version>, StorageError>)
        requires
            old(self).wf(),
        ensures
            final(self).wf(),
            final(self).buf == old(self).buf,
            match p_counted(|b: Seq<u8>| p_version(v1, b), old(self).rest()) {
                Ok((x, rest)) => r matches Ok(vs) && entry::version_views(vs@) == x && final(self).rest()
                    == rest,
                Err(f) => r matches Err(e) && e@ == f,
            },
    {
        let n: u32 = match self.u32() {
            Ok(x) => x,
            Err(e) => {
                return Err(e);
            },
        };
        let ghost p = |b: Seq<u8>| p_version(v1, b);
        let ghost whole = p_many(p, n as nat, self.rest(), Seq::empty());
        let mut out: Vec<Version> = Vec::new();
        let mut i: u32 = 0;
        assert(entry::version_views(out@) =~= Seq::empty());
        while i < n
            invariant
                i <= n,
                self.wf(),
                self.buf == old(self).buf,
                p == (|b: Seq<u8>| p_version(v1, b)),
                whole == p_many(p, (n - i) as nat, self.rest(), entry::version_views(out@)),
                p_counted(p, old(self).rest()) == whole,
            decreases n - i,
        {
            let ghost had = entry::version_views(out@);
            match self.version(v1) {
                Ok(v) => {
                    let ghost x = v@;
                    out.push(v);
                    assert(entry::version_views(out@) =~= had.push(x));
                },
                Err(e) => {
                    return Err(e);
                },
            }
            i += 1;
        }
        Ok(out)
    }

    fn entry(&mut self, v1: bool, ns: &str) -> (r: Result<Entry, StorageError>)
        requires
            old(self).wf(),
        ensures
            final(self).wf(),
            final(self).buf == old(self).buf,
            match p_entry(v1, ns@, old(self).rest()) {
                Ok((x, rest)) => r matches Ok(v) && v@ == x && final(self).rest() == rest,
                Err(f) => r matches Err(e) && e@ == f,
            },
    {
        let tag: u8 = match self.u8() {
            Ok(x) => x,
            Err(e) => {
                return Err(e);
            },
        };
        if tag == 0 {
            match self.version(v1) {
                Ok(v) => Ok(Entry::Lww(v)),
                Err(e) => Err(e),
            }
        } else if tag == 1 {
            match self.versions(v1) {
                Ok(vs) => Ok(Entry::Register(vs)),
                Err(e) => Err(e),
            }
        } else {
            Err(corrupt_in(ns, text::join2("bad entry tag ", text::dec(tag as u64).as_str())))
        }
    }

    /// Read the index of a namespace into `index`.
    fn cells(&mut self, v1: bool, ns: &str, index: &mut OrdMap<Entry>) -> (r: Result<(), StorageError>)
        requires
            old(self).wf(),
            old(index).wf(),
        ensures
            final(self).wf(),
            final(self).buf == old(self).buf,
            final(index).wf(),
            match p_counted(|b: Seq<u8>| p_cell(v1, ns@, b), old(self).rest()) {
                Ok((x, rest)) => r is Ok && final(index)@ == put_all(old(index)@, x) && final(self).rest()
                    == rest,
                Err(f) => r matches Err(e) && e@ == f,
            },
    {
        let n: u32 = match self.u32() {
            Ok(x) => x,
            Err(e) => {
                return Err(e);
            },
        };
        let ghost p = |b: Seq<u8>| p_cell(v1, ns@, b);
        let ghost whole = p_many(p, n as nat, self.rest(), Seq::empty());
        let ghost mut acc: Seq<(Seq<u8>, EntryV)> = Seq::empty();
        let mut i: u32 = 0;
        while i < n
            invariant
                i <= n,
                self.wf(),
                self.buf == old(self).buf,
                index.wf(),
                p == (|b: Seq<u8>| p_cell(v1, ns@, b)),
                whole == p_many(p, (n - i) as nat, self.rest(), acc),
                index@ == put_all(old(index)@, acc),
                p_counted(p, old(self).rest()) == whole,
            decreases n - i,
        {
            let key = match self.bytes() {
                Ok(x) => slice_to_vec(x),
                Err(e) => {
                    return Err(e);
                },
            };
            let e = match self.entry(v1, ns) {
                Ok(x) => x,
                Err(e) => {
                    return Err(e);
                },
            };
            proof {
                let item = (key@, e@);
                assert(acc.push(item).drop_last() =~= acc);
                acc = acc.push(item);
            }
            index.insert(key, e);
            i += 1;
        }
        Ok(())
    }

    /// Read the tombstones of a namespace into `tombs`.
    fn tombs(&mut self, tombs: &mut OrdMap<u64>) -> (r: Result<(), StorageError>)
        requires
            old(self).wf(),
            old(tombs).wf(),
        ensures
            final(self).wf(),
            final(self).buf == old(self).buf,
            final(tombs).wf(),
            match p_counted(|b: Seq<u8>| p_tomb(b), old(self).rest()) {
                Ok((x, rest)) => r is Ok && final(tombs)@ == put_all(old(tombs)@, x) && final(self).rest()
                    == rest,
                Err(f) => r matches Err(e) && e@ == f,
            },
    {
        let n: u32 = match self.u32() {
            Ok(x) => x,
            Err(e) => {
                return Err(e);
            },
        };
        let ghost p = |b: Seq<u8>| p_tomb(b);
        let ghost whole = p_many(p, n as nat, self.rest(), Seq::empty());
        let ghost mut acc: Seq<(Seq<u8>, u64)> = Seq::empty();
        let mut i: u32 = 0;
        while i < n
            invariant
                i <= n,
                self.wf(),
                self.buf == old(self).buf,
                tombs.wf(),
                p == (|b: Seq<u8>| p_tomb(b)),
                whole == p_many(p, (n - i) as nat, self.rest(), acc),
                tombs@ == put_all(old(tombs)@, acc),
                p_counted(p, old(self).rest()) == whole,
            decreases n - i,
        {
            let key = match self.bytes() {
                Ok(x) => slice_to_vec(x),
                Err(e) => {
                    return Err(e);
                },
            };
            let h: u64 = match self.u64() {
                Ok(x) => x,
                Err(e) => {
                    return Err(e);
                },
            };
            proof {
                let item = (key@, h);
                assert(acc.push(item).drop_last() =~= acc);
                acc = acc.push(item);
            }
            tombs.insert(key, h);
            i += 1;
        }
        Ok(())
    }

    /// Read the metadata.
    fn meta(&mut self) -> (r: Result<OrdMap<Vec<u8>>, StorageError>)
        requires
            old(self).wf(),
        ensures
            final(self).wf(),
            final(self).buf == old(self).buf,
            match p_counted(|b: Seq<u8>| p_meta(b), old(self).rest()) {
                Ok((x, rest)) => r matches Ok(m) && m.wf() && m@ == put_texts(Map::empty(), x) && final(self).rest() == rest,
                Err(f) => r matches Err(e) && e@ == f,
            },
    {
        let n: u32 = match self.u32() {
            Ok(x) => x,
            Err(e) => {
                return Err(e);
            },
        };
        let ghost p = |b: Seq<u8>| p_meta(b);
        let ghost whole = p_many(p, n as nat, self.rest(), Seq::empty());
        let ghost mut acc: Seq<(Seq<u8>, Seq<u8>)> = Seq::empty();
        let mut m: OrdMap<Vec<u8>> = OrdMap::new();
        let mut i: u32 = 0;
        while i < n
            invariant
                i <= n,
                self.wf(),
                self.buf == old(self).buf,
                m.wf(),
                p == (|b: Seq<u8>| p_meta(b)),
                whole == p_many(p, (n - i) as nat, self.rest(), acc),
                m@ == put_texts(Map::empty(), acc),
                p_counted(p, old(self).rest()) == whole,
            decreases n - i,
        {
            let key = match self.bytes() {
                Ok(x) => x,
                Err(e) => {
                    return Err(e);
                },
            };
            let v = match self.bytes() {
                Ok(x) => slice_to_vec(x),
                Err(e) => {
                    return Err(e);
                },
            };
            proof {
                let item = (key@, v@);
                assert(acc.push(item).drop_last() =~= acc);
                acc = acc.push(item);
            }
            m.insert(text::bytes_of(text::lossy_string(key).as_str()), v);
            i += 1;
        }
        Ok(m)
    }

    /// Read the peer clocks.
    fn clocks(&mut self) -> (r: Result<OrdMap<i64>, StorageError>)
        requires
            old(self).wf(),
        ensures
            final(self).wf(),
            final(self).buf == old(self).buf,
            match p_counted(|b: Seq<u8>| p_clock(b), old(self).rest()) {
                Ok((x, rest)) => r matches Ok(m) && m.wf() && m@ == put_texts(Map::empty(), x) && final(self).rest() == rest,
                Err(f) => r matches Err(e) && e@ == f,
            },
    {
        let n: u32 = match self.u32() {
            Ok(x) => x,
            Err(e) => {
                return Err(e);
            },
        };
        let ghost p = |b: Seq<u8>| p_clock(b);
        let ghost whole = p_many(p, n as nat, self.rest(), Seq::empty());
        let ghost mut acc: Seq<(Seq<u8>, i64)> = Seq::empty();
        let mut m: OrdMap<i64> = OrdMap::new();
        let mut i: u32 = 0;
        while i < n
            invariant
                i <= n,
                self.wf(),
                self.buf == old(self).buf,
                m.wf(),
                p == (|b: Seq<u8>| p_clock(b)),
                whole == p_many(p, (n - i) as nat, self.rest(), acc),
                m@ == put_texts(Map::empty(), acc),
                p_counted(p, old(self).rest()) == whole,
            decreases n - i,
        {
            let key = match self.bytes() {
                Ok(x) => x,
                Err(e) => {
                    return Err(e);
                },
            };
            let d: i64 = match self.u64() {
                Ok(x) => x as i64,
                Err(e) => {
                    return Err(e);
                },
            };
            proof {
                let item = (key@, d);
                assert(acc.push(item).drop_last() =~= acc);
                acc = acc.push(item);
            }
            m.insert(text::bytes_of(text::lossy_string(key).as_str()), d);
            i += 1;
        }
        Ok(m)
    }

    /// Read one namespace into `spaces`.
    fn space(&mut self, v1: bool, spaces: &mut OrdMap<SnapSpace>) -> (r: Result<(), StorageError>)
        requires
            old(self).wf(),
            old(spaces).wf(),
            forall|k: Seq<u8>|
                #[trigger] old(spaces).raw().dom().contains(k) ==> old(spaces).raw()[k].wf(),
        ensures
            final(self).wf(),
            final(self).buf == old(self).buf,
            final(spaces).wf(),
            forall|k: Seq<u8>|
                #[trigger] final(spaces).raw().dom().contains(k) ==> final(spaces).raw()[k].wf(),
            match p_space(v1, old(self).rest()) {
                Ok((x, rest)) => r is Ok && final(spaces)@ == put_space(old(spaces)@, x) && final(self).rest() == rest,
                Err(f) => r matches Err(e) && e@ == f,
            },
    {
        let name = match self.bytes() {
            Ok(x) => text::lossy_string(x),
            Err(e) => {
                return Err(e);
            },
        };
        let policy = match self.u8() {
            Ok(t) => match policy_from_u8(t) {
                Ok(p) => p,
                Err(e) => {
                    return Err(e);
                },
            },
            Err(e) => {
                return Err(e);
            },
        };
        let seq: u64 = match self.u64() {
            Ok(x) => x,
            Err(e) => {
                return Err(e);
            },
        };
        let head = match self.fixed32() {
            Ok(x) => x,
            Err(e) => {
                return Err(e);
            },
        };
        let key = text::bytes_of(name.as_str());
        let (mut index, mut tombs) = match spaces.remove(key.as_slice()) {
            Some(s) => (s.index, s.tombs),
            None => (OrdMap::new(), OrdMap::new()),
        };
        match self.cells(v1, name.as_str(), &mut index) {
            Ok(_) => {},
            Err(e) => {
                return Err(e);
            },
        }
        match self.tombs(&mut tombs) {
            Ok(_) => {},
            Err(e) => {
                return Err(e);
            },
        }
        spaces.insert(key, SnapSpace { policy, seq, head, index, tombs });
        proof {
            let (x, rest) = p_space(v1, old(self).rest())->Ok_0;
            assert(spaces@ =~= put_space(old(spaces)@, x));
        }
        Ok(())
    }

    fn spaces(&mut self, v1: bool) -> (r: Result<OrdMap<SnapSpace>, StorageError>)
        requires
            old(self).wf(),
        ensures
            final(self).wf(),
            final(self).buf == old(self).buf,
            match p_counted(|b: Seq<u8>| p_space(v1, b), old(self).rest()) {
                Ok((x, rest)) => {
                    &&& r matches Ok(m)
                    &&& m.wf()
                    &&& forall|k: Seq<u8>| #[trigger] m.raw().dom().contains(k) ==> m.raw()[k].wf()
                    &&& m@ == put_spaces(x)
                    &&& final(self).rest() == rest
                },
                Err(f) => r matches Err(e) && e@ == f,
            },
    {
        let n: u32 = match self.u32() {
            Ok(x) => x,
            Err(e) => {
                return Err(e);
            },
        };
        let ghost p = |b: Seq<u8>| p_space(v1, b);
        let ghost whole = p_many(p, n as nat, self.rest(), Seq::empty());
        let ghost mut acc: Seq<ReadSpace> = Seq::empty();
        let mut m: OrdMap<SnapSpace> = OrdMap::new();
        let mut i: u32 = 0;
        while i < n
            invariant
                i <= n,
                self.wf(),
                self.buf == old(self).buf,
                m.wf(),
                forall|k: Seq<u8>| #[trigger] m.raw().dom().contains(k) ==> m.raw()[k].wf(),
                p == (|b: Seq<u8>| p_space(v1, b)),
                whole == p_many(p, (n - i) as nat, self.rest(), acc),
                m@ == put_spaces(acc),
                p_counted(p, old(self).rest()) == whole,
            decreases n - i,
        {
            let ghost before = self.rest();
            match self.space(v1, &mut m) {
                Ok(_) => {},
                Err(e) => {
                    return Err(e);
                },
            }
            proof {
                let (x, _) = p_space(v1, before)->Ok_0;
                assert(acc.push(x).drop_last() =~= acc);
                acc = acc.push(x);
            }
            i += 1;
        }
        Ok(m)
    }
}

/// The policy that a byte stands for.
pub fn policy_from_u8(t: u8) -> (r: Result<ConflictPolicy, StorageError>)
    ensures
        match policy_of(t) {
            Ok(p) => r == Ok::<ConflictPolicy, StorageError>(p),
            Err(f) => r matches Err(e) && e@ == f,
        },
{
    if t == 0 {
        Ok(ConflictPolicy::Lww)
    } else if t == 1 {
        Ok(ConflictPolicy::CrdtRegister)
    } else {
        Err(corrupt(text::join2("bad policy byte ", text::dec(t as u64).as_str())))
    }
}

/// The byte of a policy.
pub fn policy_to_u8(p: ConflictPolicy) -> (t: u8)
    ensures
        t == policy_byte(p),
{
    match p {
        ConflictPolicy::Lww => 0,
        ConflictPolicy::CrdtRegister => 1,
    }
}

/// Read a snapshot.
pub fn load_snap(bytes: &[u8]) -> (r: Result<Snap, StorageError>)
    ensures
        match parse_snap(bytes@) {
            Ok(want) => r matches Ok(s) && s.wf() && s.texts() && s@ == want,
            Err(f) => r matches Err(e) && e@ == f,
        },
{
    if bytes.len() < 8 {
        return Err(corrupt(text::copy_text("index.snap too short")));
    }
    let head = slice_subrange(bytes, 0, 8);
    assert(head@ =~= bytes@.take(8));
    let v1: bool = ordmap::same_bytes(head, magic_bytes(49).as_slice());
    if !v1 && !ordmap::same_bytes(head, magic_bytes(50).as_slice()) {
        return Err(corrupt(text::copy_text("index.snap magic mismatch")));
    }
    let mut r = Reader { buf: bytes, pos: 8 };
    let revision: u64 = match r.u64() {
        Ok(x) => x,
        Err(e) => {
            return Err(e);
        },
    };
    let meta = match r.meta() {
        Ok(x) => x,
        Err(e) => {
            return Err(e);
        },
    };
    let clocks = match r.clocks() {
        Ok(x) => x,
        Err(e) => {
            return Err(e);
        },
    };
    let spaces = match r.spaces(v1) {
        Ok(x) => x,
        Err(e) => {
            return Err(e);
        },
    };
    assert(r.rest().len() == r.buf@.len() - r.pos);
    if r.pos != r.buf.len() {
        return Err(corrupt(text::copy_text("trailing bytes in snapshot")));
    }
    proof {
        let (ms, _) = p_counted(|b: Seq<u8>| p_meta(b), p_u64(bytes@.skip(8))->Ok_0.1)->Ok_0;
        lemma_texts_valid(ms);
        let (cs, _) = p_counted(
            |b: Seq<u8>| p_clock(b),
            p_counted(|b: Seq<u8>| p_meta(b), p_u64(bytes@.skip(8))->Ok_0.1)->Ok_0.1,
        )->Ok_0;
        lemma_texts_valid(cs);
        let (ss, _) = p_counted(
            |b: Seq<u8>| p_space(v1, b),
            p_counted(
                |b: Seq<u8>| p_clock(b),
                p_counted(|b: Seq<u8>| p_meta(b), p_u64(bytes@.skip(8))->Ok_0.1)->Ok_0.1,
            )->Ok_0.1,
        )->Ok_0;
        lemma_spaces_valid(ss);
    }
    Ok(Snap { revision, meta, clocks, spaces })
}

proof fn lemma_texts_valid<V>(ps: Seq<(Seq<u8>, V)>)
    ensures
        text_keys(put_texts(Map::empty(), ps)),
    decreases ps.len(),
{
    if ps.len() > 0 {
        lemma_texts_valid(ps.drop_last());
        text::lemma_utf8_decodes(text::lossy_text(ps.last().0));
    }
}

proof fn lemma_spaces_valid(ss: Seq<ReadSpace>)
    ensures
        text_keys(put_spaces(ss)),
    decreases ss.len(),
{
    if ss.len() > 0 {
        lemma_spaces_valid(ss.drop_last());
        text::lemma_utf8_decodes(ss.last().name);
    }
}

/// `BMDBIDX` and a last byte.
fn magic_bytes(last: u8) -> (r: Vec<u8>)
    ensures
        last == 50 ==> r@ == magic(),
        last == 49 ==> r@ == magic_v1(),
{
    let r = vec![66u8, 77, 68, 66, 73, 68, 88, last];
    assert(last == 50 ==> r@ =~= magic());
    assert(last == 49 ==> r@ =~= magic_v1());
    r
}

// ---------- writing ----------

pub open spec fn cell_fits(p: (Seq<u8>, EntryV)) -> bool {
    short(p.0.len() as int) && entry_fits(p.1)
}

pub open spec fn tomb_fits(p: (Seq<u8>, u64)) -> bool {
    short(p.0.len() as int)
}

pub open spec fn meta_fits(p: (Seq<u8>, Seq<u8>)) -> bool {
    short(p.0.len() as int) && short(p.1.len() as int)
}

pub open spec fn clock_fits(p: (Seq<u8>, i64)) -> bool {
    short(p.0.len() as int)
}

pub open spec fn index_fits(m: Map<Seq<u8>, EntryV>) -> bool {
    short(ordmap::listed(m.dom()).len() as int) && forall|k: Seq<u8>| #[trigger]
        m.dom().contains(k) ==> cell_fits((k, m[k]))
}

pub open spec fn tombs_fit(m: Map<Seq<u8>, u64>) -> bool {
    short(ordmap::listed(m.dom()).len() as int) && forall|k: Seq<u8>| #[trigger]
        m.dom().contains(k) ==> tomb_fits((k, m[k]))
}

pub open spec fn metas_fit(m: Map<Seq<u8>, Seq<u8>>) -> bool {
    short(ordmap::listed(m.dom()).len() as int) && forall|k: Seq<u8>| #[trigger]
        m.dom().contains(k) ==> meta_fits((k, m[k]))
}

pub open spec fn clocks_fit(m: Map<Seq<u8>, i64>) -> bool {
    short(ordmap::listed(m.dom()).len() as int) && forall|k: Seq<u8>| #[trigger]
        m.dom().contains(k) ==> clock_fits((k, m[k]))
}

pub open spec fn space_fits(p: (Seq<u8>, SnapSpaceV)) -> bool {
    short(p.0.len() as int) && index_fits(p.1.cells.index) && tombs_fit(p.1.cells.tombs)
}

pub open spec fn spaces_fit(m: Map<Seq<u8>, SnapSpaceV>) -> bool {
    short(ordmap::listed(m.dom()).len() as int) && forall|k: Seq<u8>| #[trigger]
        m.dom().contains(k) ==> space_fits((k, m[k]))
}

/// Every length and count fits its field.
pub open spec fn snap_fits(s: SnapV) -> bool {
    metas_fit(s.meta) && clocks_fit(s.clocks) && spaces_fit(s.spaces)
}

/// A snapshot in the making; `ok` until a length does not fit its field.
pub struct Writer {
    pub buf: Vec<u8>,
    pub ok: bool,
}

impl Writer {
    /// Start with the magic and the revision.
    pub fn start(revision: u64) -> (w: Writer)
        ensures
            w.ok,
            w.buf@ == magic() + record::le64(revision as int),
    {
        let mut buf = magic_bytes(50);
        push_u64(&mut buf, revision);
        Writer { buf, ok: true }
    }

    pub fn count(&mut self, n: usize)
        ensures
            final(self).ok == (old(self).ok && short(n as int)),
            final(self).ok ==> final(self).buf@ == old(self).buf@ + record::le32(n as int),
    {
        if n as u64 > 0xFFFF_FFFF {
            self.ok = false;
            return;
        }
        push_u32(&mut self.buf, n as u32);
    }

    pub fn bytes(&mut self, b: &[u8])
        ensures
            final(self).ok == (old(self).ok && short(b@.len() as int)),
            final(self).ok ==> final(self).buf@ == old(self).buf@ + enc_bytes(b@),
    {
        self.count(b.len());
        push_bytes(&mut self.buf, b);
        assert(old(self).ok && short(b@.len() as int) ==> self.buf@ =~= old(self).buf@ + enc_bytes(b@));
    }

    fn version(&mut self, v: &Version)
        ensures
            final(self).ok == (old(self).ok && version_fits(v@)),
            final(self).ok ==> final(self).buf@ == old(self).buf@ + enc_version(v@),
    {
        push_u64(&mut self.buf, v.hlc);
        push_bytes(&mut self.buf, v.replica.as_slice());
        push_bytes(&mut self.buf, v.author.as_slice());
        self.bytes(v.value.as_slice());
        push_u64(&mut self.buf, v.seq);
        push_u64(&mut self.buf, v.expires_at);
        assert(self.ok ==> self.buf@ =~= old(self).buf@ + enc_version(v@));
    }

    fn entry(&mut self, e: &Entry)
        ensures
            final(self).ok == (old(self).ok && entry_fits(e@)),
            final(self).ok ==> final(self).buf@ == old(self).buf@ + enc_entry(e@),
    {
        match e {
            Entry::Lww(v) => {
                self.buf.push(0);
                self.version(v);
                assert(self.ok ==> self.buf@ =~= old(self).buf@ + enc_entry(e@));
            },
            Entry::Register(vs) => {
                let ghost enc = |v: VersionV| enc_version(v);
                let ghost all = entry::version_views(vs@);
                self.buf.push(1);
                let ghost start = self.buf@;
                self.count(vs.len());
                let mut i: usize = 0;
                assert(cat(enc, all.take(0)) =~= Seq::empty());
                while i < vs.len()
                    invariant
                        i <= vs@.len(),
                        all == entry::version_views(vs@),
                        enc == (|v: VersionV| enc_version(v)),
                        self.ok == (old(self).ok && short(all.len() as int) && forall|j: int|
                            0 <= j < i ==> version_fits(#[trigger] all[j])),
                        self.ok ==> self.buf@ == start + (record::le32(all.len() as int) + cat(
                            enc,
                            all.take(i as int),
                        )),
                    decreases vs@.len() - i,
                {
                    let ghost had = self.buf@;
                    assert(all[i as int] == vs@[i as int]@);
                    self.version(&vs[i]);
                    proof {
                        assert(all.take(i + 1).drop_last() =~= all.take(i as int));
                        assert(self.ok ==> self.buf@ =~= had + enc(all[i as int]));
                        assert(self.ok ==> self.buf@ =~= start + (record::le32(all.len() as int) + cat(
                            enc,
                            all.take(i + 1),
                        )));
                    }
                    i += 1;
                }
                assert(all.take(i as int) =~= all);
                assert(self.ok ==> self.buf@ =~= old(self).buf@ + enc_entry(e@));
            },
        }
    }

    /// Write the index of a namespace.
    pub fn index(&mut self, m: &OrdMap<Entry>)
        requires
            m.wf(),
        ensures
            final(self).ok == (old(self).ok && index_fits(m@)),
            final(self).ok ==> final(self).buf@ == old(self).buf@ + counted(
                |p: (Seq<u8>, EntryV)| enc_cell(p),
                pairs(m@),
            ),
    {
        let ghost enc = |p: (Seq<u8>, EntryV)| enc_cell(p);
        let ghost ps = pairs(m@);
        let ghost start = self.buf@;
        proof {
            m.lemma_keys();
        }
        self.count(m.len());
        let mut i: usize = 0;
        assert(cat(enc, ps.take(0)) =~= Seq::empty());
        while i < m.len()
            invariant
                i <= ps.len(),
                m.wf(),
                m.key_seq() == ordmap::listed(m@.dom()),
                ps == pairs(m@),
                ps.len() == m.key_seq().len(),
                enc == (|p: (Seq<u8>, EntryV)| enc_cell(p)),
                self.ok == (old(self).ok && short(ps.len() as int) && forall|j: int|
                    0 <= j < i ==> cell_fits(#[trigger] ps[j])),
                self.ok ==> self.buf@ == start + (record::le32(ps.len() as int) + cat(enc, ps.take(i as int))),
            decreases ps.len() - i,
        {
            let k = m.key_at(i);
            let v = m.val_at(i);
            let ghost item = ps[i as int];
            let ghost had = self.buf@;
            self.bytes(k.as_slice());
            self.entry(v);
            proof {
                assert(ps.take(i + 1).drop_last() =~= ps.take(i as int));
                assert(self.ok ==> self.buf@ =~= had + enc(item));
                assert(self.ok ==> self.buf@ =~= start + (record::le32(ps.len() as int) + cat(
                    enc,
                    ps.take(i + 1),
                )));
            }
            i += 1;
        }
        proof {
            m.lemma_keys();
            assert(ps.take(i as int) =~= ps);
            assert(self.ok ==> self.buf@ =~= start + counted(enc, ps));
            if old(self).ok && index_fits(m@) {
                assert forall|j: int| 0 <= j < ps.len() implies cell_fits(#[trigger] ps[j]) by {
                    assert(m@.dom().contains(m.key_seq()[j]));
                }
            }
            if self.ok {
                assert forall|k: Seq<u8>| #[trigger] m@.dom().contains(k) implies cell_fits((k, m@[k])) by {
                    let j = m.key_seq().index_of(k);
                    assert(ps[j] == (k, m@[k]));
                }
            }
        }
    }

    /// Write the tombstones of a namespace.
    pub fn tombs(&mut self, m: &OrdMap<u64>)
        requires
            m.wf(),
        ensures
            final(self).ok == (old(self).ok && tombs_fit(m@)),
            final(self).ok ==> final(self).buf@ == old(self).buf@ + counted(
                |p: (Seq<u8>, u64)| enc_tomb(p),
                pairs(m@),
            ),
    {
        let ghost enc = |p: (Seq<u8>, u64)| enc_tomb(p);
        let ghost ps = pairs(m@);
        let ghost start = self.buf@;
        proof {
            m.lemma_keys();
        }
        self.count(m.len());
        let mut i: usize = 0;
        assert(cat(enc, ps.take(0)) =~= Seq::empty());
        while i < m.len()
            invariant
                i <= ps.len(),
                m.wf(),
                m.key_seq() == ordmap::listed(m@.dom()),
                ps == pairs(m@),
                ps.len() == m.key_seq().len(),
                enc == (|p: (Seq<u8>, u64)| enc_tomb(p)),
                self.ok == (old(self).ok && short(ps.len() as int) && forall|j: int|
                    0 <= j < i ==> tomb_fits(#[trigger] ps[j])),
                self.ok ==> self.buf@ == start + (record::le32(ps.len() as int) + cat(enc, ps.take(i as int))),
            decreases ps.len() - i,
        {
            let k = m.key_at(i);
            let v = m.val_at(i);
            let ghost item = ps[i as int];
            let ghost had = self.buf@;
            self.bytes(k.as_slice());
            push_u64(&mut self.buf, *v);
            proof {
                assert(ps.take(i + 1).drop_last() =~= ps.take(i as int));
                assert(self.ok ==> self.buf@ =~= had + enc(item));
                assert(self.ok ==> self.buf@ =~= start + (record::le32(ps.len() as int) + cat(
                    enc,
                    ps.take(i + 1),
                )));
            }
            i += 1;
        }
        proof {
            m.lemma_keys();
            assert(ps.take(i as int) =~= ps);
            assert(self.ok ==> self.buf@ =~= start + counted(enc, ps));
            if old(self).ok && tombs_fit(m@) {
                assert forall|j: int| 0 <= j < ps.len() implies tomb_fits(#[trigger] ps[j]) by {
                    assert(m@.dom().contains(m.key_seq()[j]));
                }
            }
            if self.ok {
                assert forall|k: Seq<u8>| #[trigger] m@.dom().contains(k) implies tomb_fits((k, m@[k])) by {
                    let j = m.key_seq().index_of(k);
                    assert(ps[j] == (k, m@[k]));
                }
            }
        }
    }

    /// Write the metadata.
    pub fn meta(&mut self, m: &OrdMap<Vec<u8>>)
        requires
            m.wf(),
        ensures
            final(self).ok == (old(self).ok && metas_fit(m@)),
            final(self).ok ==> final(self).buf@ == old(self).buf@ + counted(
                |p: (Seq<u8>, Seq<u8>)| enc_meta(p),
                pairs(m@),
            ),
    {
        let ghost enc = |p: (Seq<u8>, Seq<u8>)| enc_meta(p);
        let ghost ps = pairs(m@);
        let ghost start = self.buf@;
        proof {
            m.lemma_keys();
        }
        self.count(m.len());
        let mut i: usize = 0;
        assert(cat(enc, ps.take(0)) =~= Seq::empty());
        while i < m.len()
            invariant
                i <= ps.len(),
                m.wf(),
                m.key_seq() == ordmap::listed(m@.dom()),
                ps == pairs(m@),
                ps.len() == m.key_seq().len(),
                enc == (|p: (Seq<u8>, Seq<u8>)| enc_meta(p)),
                self.ok == (old(self).ok && short(ps.len() as int) && forall|j: int|
                    0 <= j < i ==> meta_fits(#[trigger] ps[j])),
                self.ok ==> self.buf@ == start + (record::le32(ps.len() as int) + cat(enc, ps.take(i as int))),
            decreases ps.len() - i,
        {
            let k = m.key_at(i);
            let v = m.val_at(i);
            let ghost item = ps[i as int];
            let ghost had = self.buf@;
            self.bytes(k.as_slice());
            self.bytes(v.as_slice());
            proof {
                assert(ps.take(i + 1).drop_last() =~= ps.take(i as int));
                assert(self.ok ==> self.buf@ =~= had + enc(item));
                assert(self.ok ==> self.buf@ =~= start + (record::le32(ps.len() as int) + cat(
                    enc,
                    ps.take(i + 1),
                )));
            }
            i += 1;
        }
        proof {
            m.lemma_keys();
            assert(ps.take(i as int) =~= ps);
            assert(self.ok ==> self.buf@ =~= start + counted(enc, ps));
            if old(self).ok && metas_fit(m@) {
                assert forall|j: int| 0 <= j < ps.len() implies meta_fits(#[trigger] ps[j]) by {
                    assert(m@.dom().contains(m.key_seq()[j]));
                }
            }
            if self.ok {
                assert forall|k: Seq<u8>| #[trigger] m@.dom().contains(k) implies meta_fits((k, m@[k])) by {
                    let j = m.key_seq().index_of(k);
                    assert(ps[j] == (k, m@[k]));
                }
            }
        }
    }

    /// Write the peer clocks.
    pub fn clocks(&mut self, m: &OrdMap<i64>)
        requires
            m.wf(),
        ensures
            final(self).ok == (old(self).ok && clocks_fit(m@)),
            final(self).ok ==> final(self).buf@ == old(self).buf@ + counted(
                |p: (Seq<u8>, i64)| enc_clock(p),
                pairs(m@),
            ),
    {
        let ghost enc = |p: (Seq<u8>, i64)| enc_clock(p);
        let ghost ps = pairs(m@);
        let ghost start = self.buf@;
        proof {
            m.lemma_keys();
        }
        self.count(m.len());
        let mut i: usize = 0;
        assert(cat(enc, ps.take(0)) =~= Seq::empty());
        while i < m.len()
            invariant
                i <= ps.len(),
                m.wf(),
                m.key_seq() == ordmap::listed(m@.dom()),
                ps == pairs(m@),
                ps.len() == m.key_seq().len(),
                enc == (|p: (Seq<u8>, i64)| enc_clock(p)),
                self.ok == (old(self).ok && short(ps.len() as int) && forall|j: int|
                    0 <= j < i ==> clock_fits(#[trigger] ps[j])),
                self.ok ==> self.buf@ == start + (record::le32(ps.len() as int) + cat(enc, ps.take(i as int))),
            decreases ps.len() - i,
        {
            let k = m.key_at(i);
            let v = m.val_at(i);
            let ghost item = ps[i as int];
            let ghost had = self.buf@;
            self.bytes(k.as_slice());
            push_u64(&mut self.buf, *v as u64);
            proof {
                assert(ps.take(i + 1).drop_last() =~= ps.take(i as int));
                assert(self.ok ==> self.buf@ =~= had + enc(item));
                assert(self.ok ==> self.buf@ =~= start + (record::le32(ps.len() as int) + cat(
                    enc,
                    ps.take(i + 1),
                )));
            }
            i += 1;
        }
        proof {
            m.lemma_keys();
            assert(ps.take(i as int) =~= ps);
            assert(self.ok ==> self.buf@ =~= start + counted(enc, ps));
            if old(self).ok && clocks_fit(m@) {
                assert forall|j: int| 0 <= j < ps.len() implies clock_fits(#[trigger] ps[j]) by {
                    assert(m@.dom().contains(m.key_seq()[j]));
                }
            }
            if self.ok {
                assert forall|k: Seq<u8>| #[trigger] m@.dom().contains(k) implies clock_fits((k, m@[k])) by {
                    let j = m.key_seq().index_of(k);
                    assert(ps[j] == (k, m@[k]));
                }
            }
        }
    }

    /// Write one namespace.
    pub fn space(
        &mut self,
        key: &[u8],
        policy: ConflictPolicy,
        seq: u64,
        head: &[u8; 32],
        index: &OrdMap<Entry>,
        tombs: &OrdMap<u64>,
    )
        requires
            index.wf(),
            tombs.wf(),
        ensures
            ({
                let p = (
                    key@,
                    SnapSpaceV {
                        policy,
                        seq,
                        head: head@,
                        cells: CellsV { index: index@, tombs: tombs@ },
                    },
                );
                &&& final(self).ok == (old(self).ok && space_fits(p))
                &&& final(self).ok ==> final(self).buf@ == old(self).buf@ + enc_space(p)
            }),
    {
        let ghost p = (
            key@,
            SnapSpaceV { policy, seq, head: head@, cells: CellsV { index: index@, tombs: tombs@ } },
        );
        self.bytes(key);
        self.buf.push(policy_to_u8(policy));
        push_u64(&mut self.buf, seq);
        push_bytes(&mut self.buf, head.as_slice());
        self.index(index);
        self.tombs(tombs);
        assert(self.ok ==> self.buf@ =~= old(self).buf@ + enc_space(p));
    }
}

// ---------- what writing and reading back agree on ----------

proof fn lemma_cat_front<T>(enc: spec_fn(T) -> Seq<u8>, xs: Seq<T>)
    requires
        xs.len() > 0,
    ensures
        cat(enc, xs) == enc(xs[0]) + cat(enc, xs.drop_first()),
    decreases xs.len(),
{
    if xs.len() == 1 {
        assert(cat(enc, xs.drop_last()) =~= Seq::empty());
        assert(cat(enc, xs.drop_first()) =~= Seq::empty());
        assert(cat(enc, xs) =~= enc(xs[0]) + cat(enc, xs.drop_first()));
    } else {
        lemma_cat_front(enc, xs.drop_last());
        assert(xs.drop_last().drop_first() =~= xs.drop_first().drop_last());
        assert(cat(enc, xs) =~= enc(xs[0]) + cat(enc, xs.drop_first()));
    }
}

proof fn lemma_many<T, U>(
    p: spec_fn(Seq<u8>) -> Got<U>,
    enc: spec_fn(T) -> Seq<u8>,
    xs: Seq<T>,
    ys: Seq<U>,
    rest: Seq<u8>,
    acc: Seq<U>,
)
    requires
        xs.len() == ys.len(),
        forall|i: int, r: Seq<u8>|
            #![trigger p(enc(xs[i]) + r)]
            0 <= i < xs.len() ==> p(enc(xs[i]) + r) == Ok::<(U, Seq<u8>), StorageFault>((ys[i], r)),
    ensures
        p_many(p, xs.len(), cat(enc, xs) + rest, acc) == Ok::<(Seq<U>, Seq<u8>), StorageFault>(
            (acc + ys, rest),
        ),
    decreases xs.len(),
{
    if xs.len() == 0 {
        assert(cat(enc, xs) + rest =~= rest);
        assert(acc + ys =~= acc);
    } else {
        lemma_cat_front(enc, xs);
        let xt = xs.drop_first();
        let yt = ys.drop_first();
        let r = cat(enc, xt) + rest;
        assert(cat(enc, xs) + rest =~= enc(xs[0]) + r);
        assert forall|i: int, q: Seq<u8>|
            #![trigger p(enc(xt[i]) + q)]
            0 <= i < xt.len() implies p(enc(xt[i]) + q) == Ok::<(U, Seq<u8>), StorageFault>((yt[i], q)) by {
            assert(xt[i] == xs[i + 1]);
            assert(p(enc(xs[i + 1]) + q) == Ok::<(U, Seq<u8>), StorageFault>((ys[i + 1], q)));
        }
        lemma_many(p, enc, xt, yt, rest, acc.push(ys[0]));
        assert(acc.push(ys[0]) + yt =~= acc + ys);
    }
}

proof fn lemma_counted<T, U>(
    p: spec_fn(Seq<u8>) -> Got<U>,
    enc: spec_fn(T) -> Seq<u8>,
    xs: Seq<T>,
    ys: Seq<U>,
    rest: Seq<u8>,
)
    requires
        xs.len() == ys.len(),
        short(xs.len() as int),
        forall|i: int, r: Seq<u8>|
            #![trigger p(enc(xs[i]) + r)]
            0 <= i < xs.len() ==> p(enc(xs[i]) + r) == Ok::<(U, Seq<u8>), StorageFault>((ys[i], r)),
    ensures
        p_counted(p, counted(enc, xs) + rest) == Ok::<(Seq<U>, Seq<u8>), StorageFault>((ys, rest)),
{
    lemma_auto_spec_u32_to_from_le_bytes();
    let b = counted(enc, xs) + rest;
    assert(b.take(4) =~= record::le32(xs.len() as int));
    assert(b.skip(4) =~= cat(enc, xs) + rest);
    lemma_many(p, enc, xs, ys, rest, Seq::empty());
    assert(Seq::<U>::empty() + ys =~= ys);
}

proof fn lemma_u64(n: u64, rest: Seq<u8>)
    ensures
        p_u64(record::le64(n as int) + rest) == Ok::<(u64, Seq<u8>), StorageFault>((n, rest)),
        record::le64(n as int).len() == 8,
{
    lemma_auto_spec_u64_to_from_le_bytes();
    let b = record::le64(n as int) + rest;
    assert(b.take(8) =~= record::le64(n as int));
    assert(b.skip(8) =~= rest);
}

proof fn lemma_fixed(x: Seq<u8>, rest: Seq<u8>)
    ensures
        p_take(x.len() as int, x + rest) == Ok::<(Seq<u8>, Seq<u8>), StorageFault>((x, rest)),
{
    assert((x + rest).take(x.len() as int) =~= x);
    assert((x + rest).skip(x.len() as int) =~= rest);
}

proof fn lemma_bytes(x: Seq<u8>, rest: Seq<u8>)
    requires
        short(x.len() as int),
    ensures
        p_bytes(enc_bytes(x) + rest) == Ok::<(Seq<u8>, Seq<u8>), StorageFault>((x, rest)),
{
    lemma_auto_spec_u32_to_from_le_bytes();
    let b = enc_bytes(x) + rest;
    assert(b.take(4) =~= record::le32(x.len() as int));
    assert(b.skip(4) =~= x + rest);
    lemma_fixed(x, rest);
}

/// Host ids are 32 bytes long.
pub open spec fn version_shaped(v: VersionV) -> bool {
    v.replica.len() == 32 && v.author.len() == 32
}

pub open spec fn entry_shaped(e: EntryV) -> bool {
    match e {
        EntryV::Lww(v) => version_shaped(v),
        EntryV::Register(vs) => forall|i: int| 0 <= i < vs.len() ==> version_shaped(#[trigger] vs[i]),
    }
}

/// Text keys are UTF-8.
pub open spec fn text_keys<V>(m: Map<Seq<u8>, V>) -> bool {
    forall|k: Seq<u8>| #[trigger] m.dom().contains(k) ==> vstd::utf8::valid_utf8(k)
}

/// The map's keys can be listed in order.
pub open spec fn listable<V>(m: Map<Seq<u8>, V>) -> bool {
    ordmap::ascending(ordmap::listed(m.dom())) && ordmap::lists(ordmap::listed(m.dom()), m.dom())
}

pub open spec fn space_shaped(s: SnapSpaceV) -> bool {
    &&& s.head.len() == 32
    &&& listable(s.cells.index)
    &&& listable(s.cells.tombs)
    &&& forall|k: Seq<u8>| #[trigger] s.cells.index.dom().contains(k) ==> entry_shaped(s.cells.index[k])
}

/// What holds of every snapshot that a store writes.
pub open spec fn snap_shaped(s: SnapV) -> bool {
    &&& listable(s.meta)
    &&& listable(s.clocks)
    &&& listable(s.spaces)
    &&& text_keys(s.meta)
    &&& text_keys(s.clocks)
    &&& text_keys(s.spaces)
    &&& forall|k: Seq<u8>| #[trigger] s.spaces.dom().contains(k) ==> space_shaped(s.spaces[k])
}

proof fn lemma_version(v: VersionV, rest: Seq<u8>)
    requires
        version_shaped(v),
        version_fits(v),
    ensures
        p_version(false, enc_version(v) + rest) == Ok::<(VersionV, Seq<u8>), StorageFault>((v, rest)),
{
    let r5 = record::le64(v.expires_at as int) + rest;
    let r4 = record::le64(v.seq as int) + r5;
    let r3 = enc_bytes(v.value) + r4;
    let r2 = v.author + r3;
    let r1 = v.replica + r2;
    assert(enc_version(v) + rest =~= record::le64(v.hlc as int) + r1);
    lemma_u64(v.hlc, r1);
    lemma_fixed(v.replica, r2);
    lemma_fixed(v.author, r3);
    lemma_bytes(v.value, r4);
    lemma_u64(v.seq, r5);
    lemma_u64(v.expires_at, rest);
}

proof fn lemma_entry(e: EntryV, ns: Seq<char>, rest: Seq<u8>)
    requires
        entry_shaped(e),
        entry_fits(e),
    ensures
        p_entry(false, ns, enc_entry(e) + rest) == Ok::<(EntryV, Seq<u8>), StorageFault>((e, rest)),
{
    let b = enc_entry(e) + rest;
    match e {
        EntryV::Lww(v) => {
            assert(b.take(1) =~= seq![0u8]);
            assert(b.skip(1) =~= enc_version(v) + rest);
            lemma_version(v, rest);
        },
        EntryV::Register(vs) => {
            let p = |b: Seq<u8>| p_version(false, b);
            let enc = |v: VersionV| enc_version(v);
            assert(b.take(1) =~= seq![1u8]);
            assert(b.skip(1) =~= counted(enc, vs) + rest);
            assert forall|i: int, r: Seq<u8>|
                #![trigger p(enc(vs[i]) + r)]
                0 <= i < vs.len() implies p(enc(vs[i]) + r) == Ok::<(VersionV, Seq<u8>), StorageFault>(
                (vs[i], r),
            ) by {
                lemma_version(vs[i], r);
            }
            lemma_counted(p, enc, vs, vs, rest);
        },
    }
}

proof fn lemma_put_all<V>(m: Map<Seq<u8>, V>, ps: Seq<(Seq<u8>, V)>)
    requires
        forall|i: int| 0 <= i < ps.len() ==> (#[trigger] ps[i]).1 == m[ps[i].0],
    ensures
        forall|k: Seq<u8>|
            #[trigger] put_all(Map::empty(), ps).dom().contains(k) <==> exists|i: int|
                0 <= i < ps.len() && (#[trigger] ps[i]).0 == k,
        forall|k: Seq<u8>|
            put_all(Map::empty(), ps).dom().contains(k) ==> #[trigger] put_all(Map::empty(), ps)[k] == m[k],
    decreases ps.len(),
{
    if ps.len() > 0 {
        let front = ps.drop_last();
        let last = ps.last();
        assert forall|i: int| 0 <= i < front.len() implies (#[trigger] front[i]).1 == m[front[i].0] by {
            assert(front[i] == ps[i]);
        }
        lemma_put_all(m, front);
        let a = put_all(Map::empty(), front);
        let b = put_all(Map::empty(), ps);
        assert(b == a.insert(last.0, last.1));
        assert(last == ps[ps.len() - 1]);
        assert forall|k: Seq<u8>| #[trigger] b.dom().contains(k) <==> exists|i: int|
            0 <= i < ps.len() && (#[trigger] ps[i]).0 == k by {
            if b.dom().contains(k) && k != last.0 {
                assert(a.dom().contains(k));
                let i = choose|i: int| 0 <= i < front.len() && (#[trigger] front[i]).0 == k;
                assert(ps[i].0 == k);
            }
            if exists|i: int| 0 <= i < ps.len() && (#[trigger] ps[i]).0 == k {
                let i = choose|i: int| 0 <= i < ps.len() && (#[trigger] ps[i]).0 == k;
                if i < front.len() {
                    assert(front[i].0 == k);
                    assert(a.dom().contains(k));
                }
            }
        }
        assert forall|k: Seq<u8>| b.dom().contains(k) implies #[trigger] b[k] == m[k] by {
            if k != last.0 {
                assert(a.dom().contains(k));
                assert(a[k] == m[k]);
            }
        }
    }
}

/// Putting a map's own pairs into an empty map gives the map.
proof fn lemma_put_pairs<V>(m: Map<Seq<u8>, V>)
    requires
        listable(m),
    ensures
        put_all(Map::empty(), pairs(m)) == m,
{
    let ps = pairs(m);
    let ks = ordmap::listed(m.dom());
    lemma_put_all(m, ps);
    let b = put_all(Map::empty(), ps);
    assert forall|k: Seq<u8>| #[trigger] b.dom().contains(k) <==> m.dom().contains(k) by {
        if b.dom().contains(k) {
            let i = choose|i: int| 0 <= i < ps.len() && (#[trigger] ps[i]).0 == k;
            assert(ks[i] == k);
            assert(ks.contains(k));
            assert(m.dom().contains(k));
        }
        if m.dom().contains(k) {
            assert(ks.contains(k));
            let i = ks.index_of(k);
            assert(ps[i].0 == k);
        }
    }
    assert forall|k: Seq<u8>| #[trigger] b.dom().contains(k) implies b[k] == m[k] by {}
    assert(b =~= m);
}

proof fn lemma_pair_in<V>(m: Map<Seq<u8>, V>, i: int)
    requires
        listable(m),
        0 <= i < pairs(m).len(),
    ensures
        m.dom().contains(pairs(m)[i].0),
        pairs(m)[i] == (pairs(m)[i].0, m[pairs(m)[i].0]),
{
    let ks = ordmap::listed(m.dom());
    assert(ks.contains(ks[i]));
}

proof fn lemma_put_texts<V>(ps: Seq<(Seq<u8>, V)>)
    requires
        forall|i: int| 0 <= i < ps.len() ==> text::utf8(text::lossy_text((#[trigger] ps[i]).0)) == ps[i].0,
    ensures
        put_texts(Map::empty(), ps) == put_all(Map::empty(), ps),
    decreases ps.len(),
{
    if ps.len() > 0 {
        let front = ps.drop_last();
        assert forall|i: int| 0 <= i < front.len() implies text::utf8(
            text::lossy_text((#[trigger] front[i]).0),
        ) == front[i].0 by {
            assert(front[i] == ps[i]);
        }
        lemma_put_texts(front);
        assert(ps.last() == ps[ps.len() - 1]);
    }
}

spec fn read_of(p: (Seq<u8>, SnapSpaceV)) -> ReadSpace {
    ReadSpace {
        name: text::lossy_text(p.0),
        policy: p.1.policy,
        seq: p.1.seq,
        head: p.1.head,
        index: pairs(p.1.cells.index),
        tombs: pairs(p.1.cells.tombs),
    }
}

proof fn lemma_index(m: Map<Seq<u8>, EntryV>, ns: Seq<char>, rest: Seq<u8>)
    requires
        listable(m),
        index_fits(m),
        forall|k: Seq<u8>| #[trigger] m.dom().contains(k) ==> entry_shaped(m[k]),
    ensures
        p_counted(
            |b: Seq<u8>| p_cell(false, ns, b),
            counted(|c: (Seq<u8>, EntryV)| enc_cell(c), pairs(m)) + rest,
        ) == Ok::<(Seq<(Seq<u8>, EntryV)>, Seq<u8>), StorageFault>((pairs(m), rest)),
{
    let index = pairs(m);
    let enc_c = |c: (Seq<u8>, EntryV)| enc_cell(c);
    let p_c = |b: Seq<u8>| p_cell(false, ns, b);
    assert forall|i: int, r: Seq<u8>|
        #![trigger p_c(enc_c(index[i]) + r)]
        0 <= i < index.len() implies p_c(enc_c(index[i]) + r) == Ok::<
        ((Seq<u8>, EntryV), Seq<u8>),
        StorageFault,
    >((index[i], r)) by {
        lemma_pair_in(m, i);
        let c = index[i];
        assert(cell_fits((c.0, m[c.0])));
        assert(enc_cell(c) + r =~= enc_bytes(c.0) + (enc_entry(c.1) + r));
        lemma_bytes(c.0, enc_entry(c.1) + r);
        lemma_entry(c.1, ns, r);
    }
    lemma_counted(p_c, enc_c, index, index, rest);
}

proof fn lemma_tombs(m: Map<Seq<u8>, u64>, rest: Seq<u8>)
    requires
        listable(m),
        tombs_fit(m),
    ensures
        p_counted(|b: Seq<u8>| p_tomb(b), counted(|t: (Seq<u8>, u64)| enc_tomb(t), pairs(m)) + rest) == Ok::<
            (Seq<(Seq<u8>, u64)>, Seq<u8>),
            StorageFault,
        >((pairs(m), rest)),
{
    let tombs = pairs(m);
    let enc_t = |t: (Seq<u8>, u64)| enc_tomb(t);
    let p_t = |b: Seq<u8>| p_tomb(b);
    assert forall|i: int, r: Seq<u8>|
        #![trigger p_t(enc_t(tombs[i]) + r)]
        0 <= i < tombs.len() implies p_t(enc_t(tombs[i]) + r) == Ok::<((Seq<u8>, u64), Seq<u8>), StorageFault>(
        (tombs[i], r),
    ) by {
        lemma_pair_in(m, i);
        let t = tombs[i];
        assert(tomb_fits((t.0, m[t.0])));
        assert(enc_tomb(t) + r =~= enc_bytes(t.0) + (record::le64(t.1 as int) + r));
        lemma_bytes(t.0, record::le64(t.1 as int) + r);
        lemma_u64(t.1, r);
    }
    lemma_counted(p_t, enc_t, tombs, tombs, rest);
}

proof fn lemma_space(s: (Seq<u8>, SnapSpaceV), rest: Seq<u8>)
    requires
        space_shaped(s.1),
        space_fits(s),
    ensures
        p_space(false, enc_space(s) + rest) == Ok::<(ReadSpace, Seq<u8>), StorageFault>(
            (read_of(s), rest),
        ),
{
    let enc_c = |c: (Seq<u8>, EntryV)| enc_cell(c);
    let enc_t = |t: (Seq<u8>, u64)| enc_tomb(t);
    let r5 = counted(enc_t, pairs(s.1.cells.tombs)) + rest;
    let r4 = counted(enc_c, pairs(s.1.cells.index)) + r5;
    let r3 = s.1.head + r4;
    let r2 = record::le64(s.1.seq as int) + r3;
    let r1 = seq![policy_byte(s.1.policy)] + r2;
    assert(enc_space(s) + rest =~= enc_bytes(s.0) + r1);
    lemma_bytes(s.0, r1);
    assert(r1.take(1) =~= seq![policy_byte(s.1.policy)]);
    assert(r1.skip(1) =~= r2);
    lemma_u64(s.1.seq, r3);
    lemma_fixed(s.1.head, r4);
    lemma_index(s.1.cells.index, text::lossy_text(s.0), r5);
    lemma_tombs(s.1.cells.tombs, rest);
}

proof fn lemma_put_spaces(m: Map<Seq<u8>, SnapSpaceV>, n: int)
    requires
        listable(m),
        text_keys(m),
        forall|k: Seq<u8>| #[trigger] m.dom().contains(k) ==> space_shaped(m[k]),
        0 <= n <= pairs(m).len(),
    ensures
        ({
            let ys = Seq::new(pairs(m).len(), |i: int| read_of(pairs(m)[i]));
            let b = put_spaces(ys.take(n));
            &&& forall|k: Seq<u8>|
                #[trigger] b.dom().contains(k) <==> exists|i: int|
                    0 <= i < n && (#[trigger] pairs(m)[i]).0 == k
            &&& forall|k: Seq<u8>| b.dom().contains(k) ==> #[trigger] b[k] == m[k]
        }),
    decreases n,
{
    let ps = pairs(m);
    let ys = Seq::new(ps.len(), |i: int| read_of(ps[i]));
    let b = put_spaces(ys.take(n));
    if n > 0 {
        lemma_put_spaces(m, n - 1);
        let a = put_spaces(ys.take(n - 1));
        assert(ys.take(n).drop_last() =~= ys.take(n - 1));
        let key = ps[n - 1].0;
        lemma_pair_in(m, n - 1);
        assert(ys.take(n).last() == read_of(ps[n - 1]));
        text::lemma_utf8_encodes(key);
        assert(!a.dom().contains(key)) by {
            if a.dom().contains(key) {
                let i = choose|i: int| 0 <= i < n - 1 && (#[trigger] ps[i]).0 == key;
                let ks = ordmap::listed(m.dom());
                assert(ordmap::lex_lt(ks[i], ks[n - 1]));
                ordmap::lemma_lex_irreflexive(key);
            }
        }
        let want = m[key];
        lemma_put_pairs(want.cells.index);
        lemma_put_pairs(want.cells.tombs);
        assert(b == put_space(a, read_of(ps[n - 1])));
        assert(b[key] =~= want);
        assert forall|k: Seq<u8>| #[trigger] b.dom().contains(k) <==> exists|i: int|
            0 <= i < n && (#[trigger] ps[i]).0 == k by {
            if b.dom().contains(k) {
                if k == key {
                    assert(ps[n - 1].0 == k);
                } else {
                    assert(a.dom().contains(k));
                    let i = choose|i: int| 0 <= i < n - 1 && (#[trigger] ps[i]).0 == k;
                    assert(ps[i].0 == k);
                }
            }
            if exists|i: int| 0 <= i < n && (#[trigger] ps[i]).0 == k {
                let i = choose|i: int| 0 <= i < n && (#[trigger] ps[i]).0 == k;
                if i < n - 1 {
                    assert(ps[i].0 == k);
                    assert(a.dom().contains(k));
                }
            }
        }
        assert forall|k: Seq<u8>| b.dom().contains(k) implies #[trigger] b[k] == m[k] by {
            if k != key {
                assert(a.dom().contains(k));
                assert(a[k] == m[k]);
            }
        }
    } else {
        assert(ys.take(0).len() == 0);
    }
}

proof fn lemma_metas(m: Map<Seq<u8>, Seq<u8>>, rest: Seq<u8>)
    requires
        listable(m),
        metas_fit(m),
        text_keys(m),
    ensures
        p_counted(
            |b: Seq<u8>| p_meta(b),
            counted(|p: (Seq<u8>, Seq<u8>)| enc_meta(p), pairs(m)) + rest,
        ) == Ok::<(Seq<(Seq<u8>, Seq<u8>)>, Seq<u8>), StorageFault>((pairs(m), rest)),
        put_texts(Map::empty(), pairs(m)) == m,
{
    let metas = pairs(m);
    let enc_m = |p: (Seq<u8>, Seq<u8>)| enc_meta(p);
    let p_m = |b: Seq<u8>| p_meta(b);
    assert forall|i: int, r: Seq<u8>|
        #![trigger p_m(enc_m(metas[i]) + r)]
        0 <= i < metas.len() implies p_m(enc_m(metas[i]) + r) == Ok::<
        ((Seq<u8>, Seq<u8>), Seq<u8>),
        StorageFault,
    >((metas[i], r)) by {
        lemma_pair_in(m, i);
        let c = metas[i];
        assert(meta_fits((c.0, m[c.0])));
        assert(enc_meta(c) + r =~= enc_bytes(c.0) + (enc_bytes(c.1) + r));
        lemma_bytes(c.0, enc_bytes(c.1) + r);
        lemma_bytes(c.1, r);
    }
    lemma_counted(p_m, enc_m, metas, metas, rest);
    lemma_put_text_pairs(m);
}

proof fn lemma_put_text_pairs<V>(m: Map<Seq<u8>, V>)
    requires
        listable(m),
        text_keys(m),
    ensures
        put_texts(Map::empty(), pairs(m)) == m,
{
    let ps = pairs(m);
    assert forall|i: int| 0 <= i < ps.len() implies text::utf8(text::lossy_text((#[trigger] ps[i]).0))
        == ps[i].0 by {
        lemma_pair_in(m, i);
        text::lemma_utf8_encodes(ps[i].0);
    }
    lemma_put_texts(ps);
    lemma_put_pairs(m);
}

proof fn lemma_clocks(m: Map<Seq<u8>, i64>, rest: Seq<u8>)
    requires
        listable(m),
        clocks_fit(m),
        text_keys(m),
    ensures
        p_counted(|b: Seq<u8>| p_clock(b), counted(|p: (Seq<u8>, i64)| enc_clock(p), pairs(m)) + rest) == Ok::<
            (Seq<(Seq<u8>, i64)>, Seq<u8>),
            StorageFault,
        >((pairs(m), rest)),
        put_texts(Map::empty(), pairs(m)) == m,
{
    let clocks = pairs(m);
    let enc_c = |p: (Seq<u8>, i64)| enc_clock(p);
    let p_c = |b: Seq<u8>| p_clock(b);
    assert forall|i: int, r: Seq<u8>|
        #![trigger p_c(enc_c(clocks[i]) + r)]
        0 <= i < clocks.len() implies p_c(enc_c(clocks[i]) + r) == Ok::<((Seq<u8>, i64), Seq<u8>), StorageFault>(
        (clocks[i], r),
    ) by {
        lemma_pair_in(m, i);
        let c = clocks[i];
        let d = c.1;
        assert(clock_fits((c.0, m[c.0])));
        assert((d as u64) as i64 == d) by (bit_vector);
        assert(enc_clock(c) + r =~= enc_bytes(c.0) + (record::le64(d as u64 as int) + r));
        lemma_bytes(c.0, record::le64(d as u64 as int) + r);
        lemma_u64(d as u64, r);
    }
    lemma_counted(p_c, enc_c, clocks, clocks, rest);
    lemma_put_text_pairs(m);
}

spec fn reads_of(m: Map<Seq<u8>, SnapSpaceV>) -> Seq<ReadSpace> {
    Seq::new(pairs(m).len(), |i: int| read_of(pairs(m)[i]))
}

proof fn lemma_spaces(m: Map<Seq<u8>, SnapSpaceV>, rest: Seq<u8>)
    requires
        listable(m),
        spaces_fit(m),
        text_keys(m),
        forall|k: Seq<u8>| #[trigger] m.dom().contains(k) ==> space_shaped(m[k]),
    ensures
        p_counted(
            |b: Seq<u8>| p_space(false, b),
            counted(|p: (Seq<u8>, SnapSpaceV)| enc_space(p), pairs(m)) + rest,
        ) == Ok::<(Seq<ReadSpace>, Seq<u8>), StorageFault>((reads_of(m), rest)),
        put_spaces(reads_of(m)) == m,
{
    let spaces = pairs(m);
    let ys = reads_of(m);
    let enc_s = |p: (Seq<u8>, SnapSpaceV)| enc_space(p);
    let p_s = |b: Seq<u8>| p_space(false, b);
    assert forall|i: int, r: Seq<u8>|
        #![trigger p_s(enc_s(spaces[i]) + r)]
        0 <= i < spaces.len() implies p_s(enc_s(spaces[i]) + r) == Ok::<(ReadSpace, Seq<u8>), StorageFault>(
        (ys[i], r),
    ) by {
        lemma_pair_in(m, i);
        let c = spaces[i];
        assert(space_fits((c.0, m[c.0])));
        lemma_space(c, r);
    }
    lemma_counted(p_s, enc_s, spaces, ys, rest);
    lemma_put_spaces(m, spaces.len() as int);
    assert(ys.take(spaces.len() as int) =~= ys);
    let b = put_spaces(ys);
    let ks = ordmap::listed(m.dom());
    assert forall|k: Seq<u8>| #[trigger] b.dom().contains(k) <==> m.dom().contains(k) by {
        if b.dom().contains(k) {
            let i = choose|i: int| 0 <= i < spaces.len() && (#[trigger] spaces[i]).0 == k;
            lemma_pair_in(m, i);
        }
        if m.dom().contains(k) {
            assert(ks.contains(k));
            let i = ks.index_of(k);
            assert(spaces[i].0 == k);
        }
    }
    assert(b =~= m);
}

/// Reading a snapshot gives back what was written.
pub proof fn law_snapshot_round_trip(s: SnapV)
    requires
        snap_fits(s),
        snap_shaped(s),
    ensures
        parse_snap(enc_snap(s)) == Ok::<SnapV, StorageFault>(s),
{
    let bytes = enc_snap(s);
    let enc_m = |p: (Seq<u8>, Seq<u8>)| enc_meta(p);
    let enc_c = |p: (Seq<u8>, i64)| enc_clock(p);
    let enc_s = |p: (Seq<u8>, SnapSpaceV)| enc_space(p);
    let r4 = Seq::<u8>::empty();
    let r3 = counted(enc_s, pairs(s.spaces)) + r4;
    let r2 = counted(enc_c, pairs(s.clocks)) + r3;
    let r1 = counted(enc_m, pairs(s.meta)) + r2;
    assert(bytes.take(8) =~= magic());
    assert(magic()[7] != magic_v1()[7]);
    assert(bytes.skip(8) =~= record::le64(s.revision as int) + r1);
    lemma_u64(s.revision, r1);
    lemma_metas(s.meta, r2);
    lemma_clocks(s.clocks, r3);
    lemma_spaces(s.spaces, r4);
}

// ---------- no more and no less ----------

/// Does a reader, where it reads something, read the same off the front of longer bytes,
/// and else find the bytes corrupt?
spec fn steady<T>(p: spec_fn(Seq<u8>) -> Got<T>, b: Seq<u8>, more: Seq<u8>) -> bool {
    match p(b) {
        Ok((x, r)) => p(b + more) == Ok::<(T, Seq<u8>), StorageFault>((x, r + more)),
        Err(e) => e is Corrupt,
    }
}

proof fn lemma_more(n: int, b: Seq<u8>, more: Seq<u8>)
    requires
        0 <= n,
    ensures
        n <= b.len() ==> p_take(n, b + more) == Ok::<(Seq<u8>, Seq<u8>), StorageFault>((b.take(n), b.skip(n) + more)),
{
    if n <= b.len() {
        assert((b + more).take(n) =~= b.take(n));
        assert((b + more).skip(n) =~= b.skip(n) + more);
    }
}

proof fn lemma_more_bytes(b: Seq<u8>, more: Seq<u8>)
    ensures
        steady(|b: Seq<u8>| p_bytes(b), b, more),
{
    lemma_more(4, b, more);
    if b.len() >= 4 {
        lemma_more(record::un32(b.take(4)) as int, b.skip(4), more);
    }
}

proof fn lemma_more_many<T>(p: spec_fn(Seq<u8>) -> Got<T>, n: nat, b: Seq<u8>, acc: Seq<T>, more: Seq<u8>)
    requires
        forall|b: Seq<u8>| #[trigger] steady(p, b, more),
    ensures
        match p_many(p, n, b, acc) {
            Ok((x, r)) => p_many(p, n, b + more, acc) == Ok::<(Seq<T>, Seq<u8>), StorageFault>((x, r + more)),
            Err(e) => e is Corrupt,
        },
    decreases n,
{
    if n > 0 {
        assert(steady(p, b, more));
        match p(b) {
            Ok((x, r)) => lemma_more_many(p, (n - 1) as nat, r, acc.push(x), more),
            Err(_) => {},
        }
    }
}

proof fn lemma_more_counted<T>(p: spec_fn(Seq<u8>) -> Got<T>, b: Seq<u8>, more: Seq<u8>)
    requires
        forall|b: Seq<u8>| #[trigger] steady(p, b, more),
    ensures
        match p_counted(p, b) {
            Ok((x, r)) => p_counted(p, b + more) == Ok::<(Seq<T>, Seq<u8>), StorageFault>((x, r + more)),
            Err(e) => e is Corrupt,
        },
{
    lemma_more(4, b, more);
    if b.len() >= 4 {
        lemma_more_many(p, record::un32(b.take(4)) as nat, b.skip(4), Seq::empty(), more);
    }
}

proof fn lemma_more_version(v1: bool, b: Seq<u8>, more: Seq<u8>)
    ensures
        steady(|b: Seq<u8>| p_version(v1, b), b, more),
{
    lemma_more(8, b, more);
    let b1 = b.skip(8);
    lemma_more(32, b1, more);
    let b2 = b1.skip(32);
    lemma_more(32, b2, more);
    let b3 = b2.skip(32);
    lemma_more_bytes(b3, more);
    let f = |b: Seq<u8>| p_bytes(b);
    assert(steady(f, b3, more));
    match p_bytes(b3) {
        Ok((_, b4)) => {
            lemma_more(8, b4, more);
            lemma_more(8, b4.skip(8), more);
        },
        Err(_) => {},
    }
}

proof fn lemma_more_cell(v1: bool, ns: Seq<char>, b: Seq<u8>, more: Seq<u8>)
    ensures
        steady(|b: Seq<u8>| p_cell(v1, ns, b), b, more),
{
    lemma_more_bytes(b, more);
    let f = |b: Seq<u8>| p_bytes(b);
    assert(steady(f, b, more));
    match p_bytes(b) {
        Ok((_, b1)) => {
            lemma_more(1, b1, more);
            let b2 = b1.skip(1);
            let g = |b: Seq<u8>| p_version(v1, b);
            assert forall|c: Seq<u8>| #[trigger] steady(g, c, more) by {
                lemma_more_version(v1, c, more);
            }
            assert(steady(g, b2, more));
            lemma_more_counted(g, b2, more);
        },
        Err(_) => {},
    }
}

proof fn lemma_more_pair(b: Seq<u8>, more: Seq<u8>)
    ensures
        steady(|b: Seq<u8>| p_tomb(b), b, more),
        steady(|b: Seq<u8>| p_clock(b), b, more),
        steady(|b: Seq<u8>| p_meta(b), b, more),
{
    let f = |b: Seq<u8>| p_bytes(b);
    lemma_more_bytes(b, more);
    assert(steady(f, b, more));
    match p_bytes(b) {
        Ok((_, b1)) => {
            lemma_more(8, b1, more);
            lemma_more_bytes(b1, more);
            assert(steady(f, b1, more));
        },
        Err(_) => {},
    }
}

proof fn lemma_more_space(v1: bool, b: Seq<u8>, more: Seq<u8>)
    ensures
        steady(|b: Seq<u8>| p_space(v1, b), b, more),
{
    let f = |b: Seq<u8>| p_bytes(b);
    lemma_more_bytes(b, more);
    assert(steady(f, b, more));
    match p_bytes(b) {
        Ok((n, b1)) => {
            lemma_more(1, b1, more);
            let b2 = b1.skip(1);
            lemma_more(8, b2, more);
            let b3 = b2.skip(8);
            lemma_more(32, b3, more);
            let b4 = b3.skip(32);
            let g = |b: Seq<u8>| p_cell(v1, text::lossy_text(n), b);
            assert forall|c: Seq<u8>| #[trigger] steady(g, c, more) by {
                lemma_more_cell(v1, text::lossy_text(n), c, more);
            }
            lemma_more_counted(g, b4, more);
            match p_counted(g, b4) {
                Ok((_, b5)) => {
                    let h = |b: Seq<u8>| p_tomb(b);
                    assert forall|c: Seq<u8>| #[trigger] steady(h, c, more) by {
                        lemma_more_pair(c, more);
                    }
                    lemma_more_counted(h, b5, more);
                },
                Err(_) => {},
            }
        },
        Err(_) => {},
    }
}

/// A snapshot with anything behind it is refused as corrupt.
pub proof fn law_longer_snapshot_is_refused(bytes: Seq<u8>, more: Seq<u8>)
    requires
        parse_snap(bytes) is Ok,
        more.len() > 0,
    ensures
        parse_snap(bytes + more) == Err::<SnapV, StorageFault>(fault("trailing bytes in snapshot"@)),
{
    let v1 = bytes.take(8) == magic_v1();
    assert((bytes + more).take(8) =~= bytes.take(8));
    assert((bytes + more).skip(8) =~= bytes.skip(8) + more);
    lemma_read_on(v1, bytes.skip(8), more);
}

/// A snapshot that was cut short is refused as corrupt, wherever it was cut.
pub proof fn law_cut_snapshot_is_refused(bytes: Seq<u8>, n: int)
    requires
        parse_snap(bytes) is Ok,
        0 <= n < bytes.len(),
    ensures
        parse_snap(bytes.take(n)) matches Err(e) && e is Corrupt,
{
    let cut = bytes.take(n);
    if parse_snap(cut) is Ok {
        law_longer_snapshot_is_refused(cut, bytes.skip(n));
        assert(cut + bytes.skip(n) =~= bytes);
    } else if n >= 8 {
        lemma_read_on(cut.take(8) == magic_v1(), cut.skip(8), Seq::empty());
    }
}

/// What is behind the magic is read off the front of longer bytes alike, or is corrupt.
proof fn lemma_read_on(v1: bool, b: Seq<u8>, more: Seq<u8>)
    ensures
        steady(|b: Seq<u8>| p_body(v1, b), b, more),
{
    lemma_more(8, b, more);
    let b1 = b.skip(8);
    let f = |b: Seq<u8>| p_meta(b);
    assert forall|c: Seq<u8>| #[trigger] steady(f, c, more) by {
        lemma_more_pair(c, more);
    }
    lemma_more_counted(f, b1, more);
    match p_counted(f, b1) {
        Ok((_, b2)) => {
            let g = |b: Seq<u8>| p_clock(b);
            assert forall|c: Seq<u8>| #[trigger] steady(g, c, more) by {
                lemma_more_pair(c, more);
            }
            lemma_more_counted(g, b2, more);
            match p_counted(g, b2) {
                Ok((_, b3)) => {
                    let h = |b: Seq<u8>| p_space(v1, b);
                    assert forall|c: Seq<u8>| #[trigger] steady(h, c, more) by {
                        lemma_more_space(v1, c, more);
                    }
                    lemma_more_counted(h, b3, more);
                },
                Err(_) => {},
            }
        },
        Err(_) => {},
    }
}

/// A version of the first form has no expiry: it is read as one that never expires.
pub proof fn law_versions_of_the_first_form_never_expire(v: VersionV, rest: Seq<u8>)
    requires
        version_shaped(v),
        version_fits(v),
    ensures
        p_version(
            true,
            record::le64(v.hlc as int) + v.replica + v.author + enc_bytes(v.value) + record::le64(v.seq as int) + rest,
        ) == Ok::<(VersionV, Seq<u8>), StorageFault>((VersionV { expires_at: 0, ..v }, rest)),
        p_version(false, enc_version(v) + rest) == Ok::<(VersionV, Seq<u8>), StorageFault>((v, rest)),
{
    lemma_version(v, rest);
    let r4 = record::le64(v.seq as int) + rest;
    let r3 = enc_bytes(v.value) + r4;
    let r2 = v.author + r3;
    let r1 = v.replica + r2;
    let all = record::le64(v.hlc as int) + v.replica + v.author + enc_bytes(v.value) + record::le64(v.seq as int) + rest;
    assert(all =~= record::le64(v.hlc as int) + r1);
    lemma_u64(v.hlc, r1);
    lemma_fixed(v.replica, r2);
    lemma_fixed(v.author, r3);
    lemma_bytes(v.value, r4);
    lemma_u64(v.seq, rest);
}

} // verus!
