//! Log records and how they are framed on disk.
//!
//! A frame is the length of the payload, the checksum of the payload, and the payload. A record
//! that was cut off by a crash, or changed since, does not read back: it is torn.

use crate::codec::{
    deserialize_checkpoint, deserialize_commit, deserialize_head, deserialize_write,
    lemma_checkpoint_delimits, lemma_commit_delimits, lemma_head_delimits, lemma_prefixed_cat,
    lemma_write_delimits, prefixed, serialize_checkpoint, serialize_commit, serialize_write,
    wire_checkpoint, wire_commit, wire_head, wire_option, wire_u64, wire_write,
};
use crate::error::{mentions, says, PagerError};
use crate::manifest::{bytes_id, id_bytes, ManifestId};
use crate::page::{LogicalPageNo, PageId};
use crate::path::VPath;
use crate::text::{decimal, to_decimal};
use std::collections::BTreeMap;
use vstd::bytes::{
    lemma_auto_spec_u32_to_from_le_bytes, lemma_auto_spec_u64_to_from_le_bytes,
    spec_u32_from_le_bytes, spec_u32_to_le_bytes, u32_from_le_bytes, u32_to_le_bytes,
};
use vstd::prelude::*;
use vstd::slice::slice_subrange;

verus! {

/// A log sequence number.
pub type Lsn = u64;

/// The largest payload of a record.
pub const MAX_RECORD_BYTES: usize = 16777216;

/// The size of the frame header: the length and the checksum.
pub const FRAME_HEADER_BYTES: usize = 8;

/// The writes of one transaction, by logical page. `None` removes the page.
pub type TxnWrites = BTreeMap<LogicalPageNo, Option<PageId>>;

/// What a record says.
#[derive(Clone, Copy, Debug, PartialEq, Eq)]
pub enum RecordKind {
    /// One logical page of a transaction that has not committed yet.
    Write { page_no: LogicalPageNo, page: Option<PageId> },
    /// Everything logged since the last commit is now durable, together.
    Commit { manifest: ManifestId, created_at_ms: u64 },
    /// Everything up to here is captured by the manifest.
    Checkpoint { manifest: ManifestId },
}

/// One record of the log.
#[derive(Clone, Copy, Debug, PartialEq, Eq)]
pub struct Record {
    /// The record's sequence number.
    pub lsn: Lsn,
    /// What it says.
    pub kind: RecordKind,
}

/// What trying to read a record gave.
#[derive(Debug)]
pub enum ReadOutcome {
    /// A complete record that verified, and how many bytes it took with its header.
    Record { record: Record, consumed: usize },
    /// The bytes end in the middle of a record, or the record does not verify.
    Torn,
}

/// Everything that can go wrong in the log.
#[allow(inconsistent_fields)]
#[non_exhaustive]
#[derive(Debug)]
pub enum WalError {
    /// Replay built another manifest than the one that the commit record names.
    ReplayDiverged { lsn: u64, expected: String, actual: String },
    /// Recovery could not complete.
    Recovery(String),
    /// A record's payload exceeds the maximum.
    RecordTooLarge { actual: usize, max: usize },
    /// A record could not be turned into bytes.
    Codec { op: &'static str, source: Box<bincode::ErrorKind> },
    /// The pager refused.
    Pager(PagerError),
    /// The filesystem said no.
    Io { path: VPath, source: crate::error::IoError },
}

/// What a recovery was about when the store failed it.
#[derive(Clone, Copy, Debug, PartialEq, Eq)]
pub enum Stage {
    /// Going to the manifest that the marker names.
    Marker,
    /// Going to the empty root.
    Root,
    /// Replaying the commit with this number.
    Commit { lsn: Lsn },
    /// Installing the manifest of the commit with this number.
    Install { lsn: Lsn },
    /// Going to the manifest of the checkpoint with this number.
    Checkpoint { lsn: Lsn },
    /// Going to the head that the log leads to.
    Head,
}

impl Stage {
    /// The words for it.
    pub open spec fn words(&self) -> Seq<char> {
        match *self {
            Stage::Marker => "checkpoint manifest unusable: "@,
            Stage::Root => "root manifest unusable: "@,
            Stage::Commit { lsn } => "replaying commit at lsn "@ + decimal(lsn as nat) + ": "@,
            Stage::Install { lsn } => "installing manifest at lsn "@ + decimal(lsn as nat) + ": "@,
            Stage::Checkpoint { lsn } => "checkpoint at lsn "@ + decimal(lsn as nat)
                + " unusable: "@,
            Stage::Head => "final head unusable: "@,
        }
    }

    /// Says what the recovery was about.
    pub fn describe(&self) -> (s: String)
        ensures
            s@ == self.words(),
    {
        match self {
            Stage::Marker => "checkpoint manifest unusable: ".to_owned(),
            Stage::Root => "root manifest unusable: ".to_owned(),
            Stage::Commit { lsn } => "replaying commit at lsn ".to_owned().concat(
                to_decimal(*lsn).as_str(),
            ).concat(": "),
            Stage::Install { lsn } => "installing manifest at lsn ".to_owned().concat(
                to_decimal(*lsn).as_str(),
            ).concat(": "),
            Stage::Checkpoint { lsn } => "checkpoint at lsn ".to_owned().concat(
                to_decimal(*lsn).as_str(),
            ).concat(" unusable: "),
            Stage::Head => "final head unusable: ".to_owned(),
        }
    }
}

/// The error tells at which stage recovery failed, and of the store's error.
pub open spec fn tells(e: WalError, stage: Stage, cause: PagerError) -> bool {
    e matches WalError::Recovery(text) && exists|t: Seq<char>| #[trigger]
        says(cause, t) && text@ == stage.words() + t
}

impl WalError {
    /// Recovery failed at this stage, because of this.
    pub fn recovery(stage: Stage, cause: &PagerError) -> (e: WalError)
        ensures
            e is Recovery,
            tells(e, stage, *cause),
    {
        let why = cause.describe();
        let text = stage.describe().concat(why.as_str());
        assert(says(*cause, why@));
        WalError::Recovery(text)
    }

    /// A failure of the filesystem at `path`.
    pub fn io(path: &VPath, source: crate::error::IoError) -> (e: WalError)
        ensures
            e is Io,
            e->Io_path@ == path@,
            e->Io_source == source,
    {
        WalError::Io { path: path.clone(), source }
    }
}

/// The CRC-32C checksum of some bytes.
pub uninterp spec fn crc32c_of(bytes: Seq<u8>) -> u32;

/// `crc32c::crc32c`: the checksum is a function of the bytes alone.
#[verifier::external_body]
pub(crate) fn checksum(bytes: &[u8]) -> (c: u32)
    ensures
        c == crc32c_of(bytes@),
{
    crc32c::crc32c(bytes)
}

/// The bytes that a record consists of, without the frame.
pub open spec fn payload(r: Record) -> Seq<u8> {
    match r.kind {
        RecordKind::Write { page_no, page } => wire_write((r.lsn, 0u32, page_no, id_bytes(page))),
        RecordKind::Commit { manifest, created_at_ms } => wire_commit(
            (r.lsn, 1u32, manifest.0, created_at_ms),
        ),
        RecordKind::Checkpoint { manifest } => wire_checkpoint((r.lsn, 2u32, manifest.0)),
    }
}

/// The record in its frame.
pub open spec fn frame(r: Record) -> Seq<u8> {
    spec_u32_to_le_bytes(payload(r).len() as u32) + spec_u32_to_le_bytes(crc32c_of(payload(r)))
        + payload(r)
}

/// The record that these bytes start with, if any.
pub open spec fn record_in(bytes: Seq<u8>) -> Option<Record> {
    if exists|r: Record| prefixed(bytes, #[trigger] payload(r)) {
        Some(choose|r: Record| prefixed(bytes, #[trigger] payload(r)))
    } else {
        None
    }
}

/// The length that the frame at the front of `bytes` claims for its payload.
pub open spec fn claimed_len(bytes: Seq<u8>) -> int {
    spec_u32_from_le_bytes(bytes.subrange(0, 4)) as int
}

/// What the front of `bytes` reads as: a record and the bytes it takes, or nothing.
pub open spec fn read_front(bytes: Seq<u8>) -> Option<(Record, nat)> {
    let n = claimed_len(bytes);
    if bytes.len() < 8 || n == 0 || n > MAX_RECORD_BYTES || 8 + n > bytes.len() {
        None
    } else {
        let body = bytes.subrange(8, 8 + n);
        if crc32c_of(body) != spec_u32_from_le_bytes(bytes.subrange(4, 8)) {
            None
        } else {
            match record_in(body) {
                Some(r) => Some((r, (8 + n) as nat)),
                None => None,
            }
        }
    }
}

/// The same, from an outcome.
pub open spec fn outcome_of(o: ReadOutcome) -> Option<(Record, nat)> {
    match o {
        ReadOutcome::Record { record, consumed } => Some((record, consumed as nat)),
        ReadOutcome::Torn => None,
    }
}

spec fn tag_of(r: Record) -> u32 {
    match r.kind {
        RecordKind::Write { .. } => 0,
        RecordKind::Commit { .. } => 1,
        RecordKind::Checkpoint { .. } => 2,
    }
}

spec fn rest_of(r: Record) -> Seq<u8> {
    match r.kind {
        RecordKind::Write { page_no, page } => wire_u64(page_no) + wire_option(id_bytes(page)),
        RecordKind::Commit { manifest, created_at_ms } => manifest.0@ + wire_u64(created_at_ms),
        RecordKind::Checkpoint { manifest } => manifest.0@,
    }
}

proof fn lemma_payload_head(b: Seq<u8>, r: Record)
    requires
        prefixed(b, payload(r)),
    ensures
        prefixed(b, wire_head((r.lsn, tag_of(r)))),
{
    lemma_prefixed_cat(b, wire_head((r.lsn, tag_of(r))), rest_of(r));
}

/// A payload has at least a head and at most a few dozen bytes.
pub proof fn lemma_payload_len(r: Record)
    ensures
        12 < payload(r).len() <= 64,
{
    lemma_auto_spec_u32_to_from_le_bytes();
    lemma_auto_spec_u64_to_from_le_bytes();
}

/// Bytes that start with one record's payload start with no other's.
pub proof fn lemma_payload_delimits(b: Seq<u8>, x: Record, y: Record)
    requires
        prefixed(b, payload(x)),
        prefixed(b, payload(y)),
    ensures
        x == y,
{
    lemma_payload_head(b, x);
    lemma_payload_head(b, y);
    lemma_head_delimits(b, (x.lsn, tag_of(x)), (y.lsn, tag_of(y)));
    match (x.kind, y.kind) {
        (
            RecordKind::Write { page_no: n1, page: p1 },
            RecordKind::Write { page_no: n2, page: p2 },
        ) => {
            lemma_write_delimits(
                b,
                (x.lsn, 0u32, n1, id_bytes(p1)),
                (y.lsn, 0u32, n2, id_bytes(p2)),
            );
            assert(bytes_id(id_bytes(p1)) == p1 && bytes_id(id_bytes(p2)) == p2);
        },
        (
            RecordKind::Commit { manifest: m1, created_at_ms: t1 },
            RecordKind::Commit { manifest: m2, created_at_ms: t2 },
        ) => {
            lemma_commit_delimits(b, (x.lsn, 1u32, m1.0, t1), (y.lsn, 1u32, m2.0, t2));
        },
        (RecordKind::Checkpoint { manifest: m1 }, RecordKind::Checkpoint { manifest: m2 }) => {
            lemma_checkpoint_delimits(b, (x.lsn, 2u32, m1.0), (y.lsn, 2u32, m2.0));
        },
        _ => {},
    }
}

proof fn lemma_record_in(b: Seq<u8>, r: Record)
    requires
        prefixed(b, payload(r)),
    ensures
        record_in(b) == Some(r),
{
    let q = choose|q: Record| prefixed(b, #[trigger] payload(q));
    lemma_payload_delimits(b, q, r);
}

proof fn lemma_frame_parts(r: Record, tail: Seq<u8>)
    ensures
        ({
            let b = frame(r) + tail;
            let n = payload(r).len() as int;
            &&& frame(r).len() == 8 + n
            &&& 0 < n <= 64
            &&& b.subrange(4, 8) == spec_u32_to_le_bytes(crc32c_of(payload(r)))
            &&& b.subrange(0, 4) == spec_u32_to_le_bytes(n as u32)
            &&& claimed_len(b) == n
            &&& b.subrange(8, 8 + n) == payload(r)
        }),
{
    lemma_auto_spec_u32_to_from_le_bytes();
    lemma_payload_len(r);
    let b = frame(r) + tail;
    let n = payload(r).len() as int;
    assert(b.subrange(0, 4) =~= spec_u32_to_le_bytes(n as u32));
    assert(b.subrange(4, 8) =~= spec_u32_to_le_bytes(crc32c_of(payload(r))));
    assert(b.subrange(8, 8 + n) =~= payload(r));
}

/// A framed record reads back as itself, and takes exactly its own bytes, whatever follows it.
pub proof fn a_framed_record_reads_back(r: Record, tail: Seq<u8>)
    ensures
        read_front(frame(r) + tail) == Some((r, frame(r).len())),
        read_front(frame(r)) == Some((r, frame(r).len())),
{
    lemma_auto_spec_u32_to_from_le_bytes();
    lemma_frame_parts(r, tail);
    let p = payload(r);
    assert(p.take(p.len() as int) =~= p);
    lemma_record_in(p, r);
    lemma_frame_parts(r, Seq::empty());
    assert(frame(r) + Seq::<u8>::empty() =~= frame(r));
}

/// A framed record that was cut off anywhere reads as torn.
pub proof fn a_cut_record_is_torn(r: Record, cut: int)
    requires
        0 <= cut < frame(r).len(),
    ensures
        read_front(frame(r).take(cut)) is None,
{
    lemma_auto_spec_u32_to_from_le_bytes();
    lemma_frame_parts(r, Seq::empty());
    assert(frame(r) + Seq::<u8>::empty() =~= frame(r));
    if cut >= 8 {
        assert(frame(r).take(cut).subrange(0, 4) =~= frame(r).subrange(0, 4));
    }
}

/// What the front reads as depends on the bytes that the record takes and on no others.
pub proof fn reading_looks_no_further_than_the_record(bytes: Seq<u8>, tail: Seq<u8>)
    requires
        read_front(bytes) is Some,
    ensures
        read_front(bytes).unwrap().1 <= bytes.len(),
        8 < read_front(bytes).unwrap().1,
        read_front(bytes.take(read_front(bytes).unwrap().1 as int) + tail) == read_front(bytes),
{
    let n = read_front(bytes).unwrap().1 as int;
    let b = bytes.take(n) + tail;
    assert(b.subrange(0, 4) =~= bytes.subrange(0, 4));
    assert(b.subrange(4, 8) =~= bytes.subrange(4, 8));
    assert(b.subrange(8, n) =~= bytes.subrange(8, n));
}

/// Bytes whose payload no longer has the checksum in the header read as torn.
pub proof fn a_payload_that_fails_its_checksum_is_torn(bytes: Seq<u8>)
    requires
        bytes.len() >= 8,
        8 + claimed_len(bytes) <= bytes.len(),
        crc32c_of(bytes.subrange(8, 8 + claimed_len(bytes))) != spec_u32_from_le_bytes(
            bytes.subrange(4, 8),
        ),
    ensures
        read_front(bytes) is None,
{
}

impl Record {
    /// Frames the record for the log. No record is too large, so this always succeeds.
    pub fn encode(&self) -> (r: Result<Vec<u8>, WalError>)
        ensures
            r is Ok,
            r->Ok_0@ == frame(*self),
    {
        let body = match self.kind {
            RecordKind::Write { page_no, page } => {
                let plain: Option<[u8; 32]> = match page {
                    Some(p) => Some(p.0),
                    None => None,
                };
                serialize_write(&(self.lsn, 0u32, page_no, plain))
            },
            RecordKind::Commit { manifest, created_at_ms } => serialize_commit(
                &(self.lsn, 1u32, manifest.0, created_at_ms),
            ),
            RecordKind::Checkpoint { manifest } => serialize_checkpoint(
                &(self.lsn, 2u32, manifest.0),
            ),
        };
        let payload = match body {
            Ok(bytes) => bytes,
            Err(source) => {
                return Err(WalError::Codec { op: "encode", source });
            },
        };
        proof {
            lemma_payload_len(*self);
        }
        if payload.len() > MAX_RECORD_BYTES {
            return Err(
                WalError::RecordTooLarge { actual: payload.len(), max: MAX_RECORD_BYTES },
            );
        }
        let crc: u32 = checksum(payload.as_slice());
        let mut out = u32_to_le_bytes(payload.len() as u32);
        let mut check = u32_to_le_bytes(crc);
        let mut payload = payload;
        out.append(&mut check);
        out.append(&mut payload);
        assert(out@ =~= frame(*self));
        Ok(out)
    }

    /// Reads one record from the front of `bytes`.
    pub fn decode(bytes: &[u8]) -> (o: ReadOutcome)
        ensures
            outcome_of(o) == read_front(bytes@),
    {
        if bytes.len() < FRAME_HEADER_BYTES {
            return ReadOutcome::Torn;
        }
        let len: usize = u32_from_le_bytes(slice_subrange(bytes, 0, 4)) as usize;
        let expected: u32 = u32_from_le_bytes(slice_subrange(bytes, 4, 8));
        if len == 0 || len > MAX_RECORD_BYTES {
            return ReadOutcome::Torn;
        }
        let end: usize = FRAME_HEADER_BYTES + len;
        if end > bytes.len() {
            return ReadOutcome::Torn;
        }
        let body = slice_subrange(bytes, FRAME_HEADER_BYTES, end);
        if checksum(body) != expected {
            return ReadOutcome::Torn;
        }
        match Record::parse(body) {
            Some(record) => ReadOutcome::Record { record, consumed: end },
            None => ReadOutcome::Torn,
        }
    }

    /// The record that a payload starts with: the head tells the kind, and the kind how to go on.
    fn parse(body: &[u8]) -> (r: Option<Record>)
        ensures
            r == record_in(body@),
    {
        let head = match deserialize_head(body) {
            Ok(head) => head,
            Err(_) => {
                proof {
                    assert forall|q: Record| !prefixed(body@, #[trigger] payload(q)) by {
                        if prefixed(body@, payload(q)) {
                            lemma_payload_head(body@, q);
                        }
                    }
                }
                return None;
            },
        };
        proof {
            assert forall|q: Record| prefixed(body@, #[trigger] payload(q)) implies (
            q.lsn, tag_of(q)) == head by {
                lemma_payload_head(body@, q);
                lemma_head_delimits(body@, head, (q.lsn, tag_of(q)));
            }
        }
        if head.1 == 0 {
            match deserialize_write(body) {
                Ok(t) => {
                    let page: Option<PageId> = match t.3 {
                        Some(p) => Some(PageId(p)),
                        None => None,
                    };
                    proof {
                        lemma_prefixed_cat(
                            body@,
                            wire_head((t.0, t.1)),
                            wire_u64(t.2) + wire_option(t.3),
                        );
                        lemma_head_delimits(body@, head, (t.0, t.1));
                        assert(id_bytes(page) == t.3);
                    }
                    let record = Record {
                        lsn: t.0,
                        kind: RecordKind::Write { page_no: t.2, page },
                    };
                    proof {
                        lemma_record_in(body@, record);
                    }
                    Some(record)
                },
                Err(_) => None,
            }
        } else if head.1 == 1 {
            match deserialize_commit(body) {
                Ok(t) => {
                    proof {
                        lemma_prefixed_cat(body@, wire_head((t.0, t.1)), t.2@ + wire_u64(t.3));
                        lemma_head_delimits(body@, head, (t.0, t.1));
                    }
                    let record = Record {
                        lsn: t.0,
                        kind: RecordKind::Commit {
                            manifest: ManifestId(t.2),
                            created_at_ms: t.3,
                        },
                    };
                    proof {
                        lemma_record_in(body@, record);
                    }
                    Some(record)
                },
                Err(_) => None,
            }
        } else if head.1 == 2 {
            match deserialize_checkpoint(body) {
                Ok(t) => {
                    proof {
                        lemma_prefixed_cat(body@, wire_head((t.0, t.1)), t.2@);
                        lemma_head_delimits(body@, head, (t.0, t.1));
                    }
                    let record = Record {
                        lsn: t.0,
                        kind: RecordKind::Checkpoint { manifest: ManifestId(t.2) },
                    };
                    proof {
                        lemma_record_in(body@, record);
                    }
                    Some(record)
                },
                Err(_) => None,
            }
        } else {
            None
        }
    }
}

/// A framed record starts with the length of the rest, then comes the CRC-32C of the rest, all of it:
/// both in four bytes, the lowest first. Different records have different rests.
pub proof fn a_frame_is_checked_from_end_to_end(
    r: &Record,
    q: &Record,
    framed: Result<Vec<u8>, WalError>,
    other: Result<Vec<u8>, WalError>,
)
    requires
        call_ensures(Record::encode, (r,), framed),
        call_ensures(Record::encode, (q,), other),
    ensures
        framed is Ok && other is Ok,
        ({
            let b = framed->Ok_0@;
            &&& b.len() > 8
            &&& spec_u32_from_le_bytes(b.subrange(0, 4)) == b.len() - 8
            &&& spec_u32_from_le_bytes(b.subrange(4, 8)) == crc32c_of(b.skip(8))
            &&& b.skip(8) == other->Ok_0@.skip(8) <==> *r == *q
        }),
{
    lemma_auto_spec_u32_to_from_le_bytes();
    let (b, c) = (framed->Ok_0@, other->Ok_0@);
    lemma_payload_len(*r);
    lemma_frame_parts(*r, Seq::empty());
    lemma_frame_parts(*q, Seq::empty());
    assert(frame(*r) + Seq::<u8>::empty() =~= b);
    assert(frame(*q) + Seq::<u8>::empty() =~= c);
    assert(b.skip(8) =~= payload(*r));
    assert(c.skip(8) =~= payload(*q));
    a_framed_record_reads_back(*r, Seq::empty());
    a_framed_record_reads_back(*q, Seq::empty());
    if b.skip(8) == c.skip(8) {
        assert(frame(*r) == frame(*q));
    }
}

/// What a read of the log takes for a record is whole: its length is in the header, at most sixteen
/// mebibytes and all there; the checksum in the header is that of every byte of it; and it starts with
/// what the record is written as. Whatever is so is taken, with exactly those bytes.
pub proof fn a_record_is_read_only_where_all_of_it_is_good(
    bytes: &[u8],
    o: ReadOutcome,
    q: &Record,
    framed: Result<Vec<u8>, WalError>,
)
    requires
        call_ensures(Record::decode, (bytes,), o),
        call_ensures(Record::encode, (q,), framed),
    ensures
        ({
            let b = bytes@;
            let n = spec_u32_from_le_bytes(b.subrange(0, 4)) as int;
            let rest = framed->Ok_0@.skip(8);
            let good = b.len() >= 8 && 0 < n <= 16777216 && 8 + n <= b.len()
                && spec_u32_from_le_bytes(b.subrange(4, 8)) == crc32c_of(b.subrange(8, 8 + n));
            &&& o is Record ==> good && o->consumed == 8 + n
            &&& good && rest.is_prefix_of(b.subrange(8, 8 + n)) ==> o is Record && o->record == *q
            &&& o is Record && o->record == *q ==> rest.is_prefix_of(b.subrange(8, 8 + n))
        }),
{
    lemma_auto_spec_u32_to_from_le_bytes();
    let b = bytes@;
    let n = spec_u32_from_le_bytes(b.subrange(0, 4)) as int;
    lemma_frame_parts(*q, Seq::empty());
    assert(frame(*q) + Seq::<u8>::empty() =~= framed->Ok_0@);
    assert(framed->Ok_0@.skip(8) =~= payload(*q));
    if b.len() >= 8 && 0 < n && 8 + n <= b.len() {
        let body = b.subrange(8, 8 + n);
        if payload(*q).is_prefix_of(body) {
            assert(body.take(payload(*q).len() as int) =~= payload(*q));
            lemma_record_in(body, *q);
        }
        if record_in(body) is Some {
            let r = choose|r: Record| prefixed(body, #[trigger] payload(r));
            assert(prefixed(body, payload(r)));
            assert(record_in(body) == Some(r));
            assert(body.take(payload(r).len() as int) =~= payload(r));
        }
    }
}

/// Of a stage with a record the words name it by its number, and no two stages without one have the
/// same words.
pub proof fn a_stage_names_its_record(a: &Stage, b: &Stage, x: String, y: String)
    requires
        call_ensures(Stage::describe, (a,), x),
        call_ensures(Stage::describe, (b,), y),
    ensures
        match *a {
            Stage::Commit { lsn } => mentions(x@, decimal(lsn as nat)),
            Stage::Install { lsn } => mentions(x@, decimal(lsn as nat)),
            Stage::Checkpoint { lsn } => mentions(x@, decimal(lsn as nat)),
            _ => true,
        },
        (*a is Marker || *a is Root || *a is Head) && (*b is Marker || *b is Root || *b is Head)
            && x@ == y@ ==> *a == *b,
{
    reveal_strlit("checkpoint manifest unusable: ");
    reveal_strlit("root manifest unusable: ");
    reveal_strlit("final head unusable: ");
    if x@ == y@ {
        assert(x@[0] == y@[0]);
    }
}

} // verus!
