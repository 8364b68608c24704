//! The stored forms: what `bincode` makes of the plain values that manifests, log records and
//! branch trees consist of, and why reading them back is unambiguous.

use vstd::bytes::{
    lemma_auto_spec_u32_to_from_le_bytes, lemma_auto_spec_u64_to_from_le_bytes,
    spec_u32_to_le_bytes, spec_u64_to_le_bytes,
};
use vstd::prelude::*;
use vstd::utf8::{encode_utf8, encode_utf8_decode_utf8};

verus! {

/// `bytes` starts with `w`.
pub open spec fn prefixed(bytes: Seq<u8>, w: Seq<u8>) -> bool {
    w.len() <= bytes.len() && bytes.take(w.len() as int) == w
}

/// No two values have forms that the same bytes could start with.
pub open spec fn self_delimiting<T>(f: spec_fn(T) -> Seq<u8>) -> bool {
    forall|b: Seq<u8>, x: T, y: T|
        #![trigger prefixed(b, f(x)), prefixed(b, f(y))]
        prefixed(b, f(x)) && prefixed(b, f(y)) ==> x == y
}

/// Four bytes, least significant first.
pub open spec fn wire_u32(x: u32) -> Seq<u8> {
    spec_u32_to_le_bytes(x)
}

/// Eight bytes, least significant first.
pub open spec fn wire_u64(x: u64) -> Seq<u8> {
    spec_u64_to_le_bytes(x)
}

/// A zero byte, or a one byte and then the id.
pub open spec fn wire_option(x: Option<[u8; 32]>) -> Seq<u8> {
    match x {
        None => seq![0u8],
        Some(id) => seq![1u8] + id@,
    }
}

/// How long the text is in bytes, and then those bytes.
pub open spec fn wire_text(s: Seq<char>) -> Seq<u8> {
    wire_u64(encode_utf8(s).len() as u64) + encode_utf8(s)
}

/// One item after the other.
pub open spec fn wire_items<T>(s: Seq<T>, f: spec_fn(T) -> Seq<u8>) -> Seq<u8>
    decreases s.len(),
{
    if s.len() == 0 {
        Seq::empty()
    } else {
        f(s[0]) + wire_items(s.skip(1), f)
    }
}

/// How many items there are, and then the items.
pub open spec fn wire_list<T>(s: Seq<T>, f: spec_fn(T) -> Seq<u8>) -> Seq<u8> {
    wire_u64(s.len() as u64) + wire_items(s, f)
}

pub open spec fn wire_page_entry() -> spec_fn((u64, [u8; 32])) -> Seq<u8> {
    |e: (u64, [u8; 32])| wire_u64(e.0) + e.1@
}

pub open spec fn wire_change_entry() -> spec_fn((u64, Option<[u8; 32]>)) -> Seq<u8> {
    |e: (u64, Option<[u8; 32]>)| wire_u64(e.0) + wire_option(e.1)
}

pub open spec fn wire_ref_entry() -> spec_fn((Seq<char>, [u8; 32])) -> Seq<u8> {
    |e: (Seq<char>, [u8; 32])| wire_text(e.0) + e.1@
}

// ---------------------------------------------------------------------------------------------
// Reading back is unambiguous.
// ---------------------------------------------------------------------------------------------

/// Starting with `x` and then `y` is starting with `x`, and going on with `y`.
pub proof fn lemma_prefixed_cat(b: Seq<u8>, x: Seq<u8>, y: Seq<u8>)
    ensures
        prefixed(b, x + y) <==> prefixed(b, x) && prefixed(b.skip(x.len() as int), y),
{
    if prefixed(b, x + y) {
        assert(b.take(x.len() as int) =~= (x + y).take(x.len() as int)) by {
            assert(b.take((x + y).len() as int).take(x.len() as int) =~= b.take(x.len() as int));
        }
        assert((x + y).take(x.len() as int) =~= x);
        assert(b.skip(x.len() as int).take(y.len() as int) =~= b.take((x + y).len() as int).skip(
            x.len() as int,
        ));
        assert((x + y).skip(x.len() as int) =~= y);
    }
    if prefixed(b, x) && prefixed(b.skip(x.len() as int), y) {
        assert(b.take((x + y).len() as int) =~= b.take(x.len() as int) + b.skip(
            x.len() as int,
        ).take(y.len() as int));
    }
}

/// A longer byte string still starts with what it started with.
pub proof fn lemma_prefixed_extend(b: Seq<u8>, w: Seq<u8>, tail: Seq<u8>)
    requires
        prefixed(b, w),
    ensures
        prefixed(b + tail, w),
{
    assert((b + tail).take(w.len() as int) =~= b.take(w.len() as int));
}

pub proof fn lemma_u32_delimits(b: Seq<u8>, x: u32, y: u32)
    requires
        prefixed(b, wire_u32(x)),
        prefixed(b, wire_u32(y)),
    ensures
        x == y,
{
    lemma_auto_spec_u32_to_from_le_bytes();
    assert(wire_u32(x) == b.take(4));
    assert(wire_u32(y) == b.take(4));
}

pub proof fn lemma_u64_delimits(b: Seq<u8>, x: u64, y: u64)
    requires
        prefixed(b, wire_u64(x)),
        prefixed(b, wire_u64(y)),
    ensures
        x == y,
{
    lemma_auto_spec_u64_to_from_le_bytes();
    assert(wire_u64(x) == b.take(8));
    assert(wire_u64(y) == b.take(8));
}

pub proof fn lemma_id_delimits(b: Seq<u8>, x: [u8; 32], y: [u8; 32])
    requires
        prefixed(b, x@),
        prefixed(b, y@),
    ensures
        x == y,
{
    assert(x@ == b.take(32));
    assert(y@ == b.take(32));
    crate::hashing::array32_ext(x, y);
}

pub proof fn lemma_option_delimits(b: Seq<u8>, x: Option<[u8; 32]>, y: Option<[u8; 32]>)
    requires
        prefixed(b, wire_option(x)),
        prefixed(b, wire_option(y)),
    ensures
        x == y,
{
    assert(b[0] == b.take(wire_option(x).len() as int)[0] == wire_option(x)[0]);
    assert(b[0] == b.take(wire_option(y).len() as int)[0] == wire_option(y)[0]);
    if let (Some(i), Some(j)) = (x, y) {
        lemma_prefixed_cat(b, seq![1u8], i@);
        lemma_prefixed_cat(b, seq![1u8], j@);
        lemma_id_delimits(b.skip(1), i, j);
    }
}

pub proof fn lemma_text_delimits(b: Seq<u8>, x: Seq<char>, y: Seq<char>)
    requires
        encode_utf8(x).len() <= u64::MAX,
        encode_utf8(y).len() <= u64::MAX,
        prefixed(b, wire_text(x)),
        prefixed(b, wire_text(y)),
    ensures
        x == y,
{
    let (ux, uy) = (encode_utf8(x), encode_utf8(y));
    lemma_prefixed_cat(b, wire_u64(ux.len() as u64), ux);
    lemma_prefixed_cat(b, wire_u64(uy.len() as u64), uy);
    lemma_u64_delimits(b, ux.len() as u64, uy.len() as u64);
    assert(ux == uy);
    encode_utf8_decode_utf8(x);
    encode_utf8_decode_utf8(y);
}

pub proof fn lemma_page_entry_delimits()
    ensures
        self_delimiting(wire_page_entry()),
{
    let f = wire_page_entry();
    assert forall|b: Seq<u8>, x: (u64, [u8; 32]), y: (u64, [u8; 32])|
        #![trigger prefixed(b, f(x)), prefixed(b, f(y))]
        prefixed(b, f(x)) && prefixed(b, f(y)) implies x == y by {
        lemma_prefixed_cat(b, wire_u64(x.0), x.1@);
        lemma_prefixed_cat(b, wire_u64(y.0), y.1@);
        lemma_u64_delimits(b, x.0, y.0);
        lemma_id_delimits(b.skip(wire_u64(x.0).len() as int), x.1, y.1);
    }
}

pub proof fn lemma_change_entry_delimits()
    ensures
        self_delimiting(wire_change_entry()),
{
    let f = wire_change_entry();
    assert forall|b: Seq<u8>, x: (u64, Option<[u8; 32]>), y: (u64, Option<[u8; 32]>)|
        #![trigger prefixed(b, f(x)), prefixed(b, f(y))]
        prefixed(b, f(x)) && prefixed(b, f(y)) implies x == y by {
        lemma_prefixed_cat(b, wire_u64(x.0), wire_option(x.1));
        lemma_prefixed_cat(b, wire_u64(y.0), wire_option(y.1));
        lemma_u64_delimits(b, x.0, y.0);
        lemma_option_delimits(b.skip(wire_u64(x.0).len() as int), x.1, y.1);
    }
}

/// Items that delimit themselves are read back in the same number and order.
pub proof fn lemma_items_delimit<T>(b: Seq<u8>, s: Seq<T>, t: Seq<T>, f: spec_fn(T) -> Seq<u8>)
    requires
        self_delimiting(f),
        s.len() == t.len(),
        prefixed(b, wire_items(s, f)),
        prefixed(b, wire_items(t, f)),
    ensures
        s == t,
    decreases s.len(),
{
    if s.len() == 0 {
        assert(s =~= t);
    } else {
        lemma_prefixed_cat(b, f(s[0]), wire_items(s.skip(1), f));
        lemma_prefixed_cat(b, f(t[0]), wire_items(t.skip(1), f));
        assert(s[0] == t[0]);
        lemma_items_delimit(b.skip(f(s[0]).len() as int), s.skip(1), t.skip(1), f);
        assert(s =~= seq![s[0]] + s.skip(1));
        assert(t =~= seq![t[0]] + t.skip(1));
    }
}

/// So is a list of them.
pub proof fn lemma_list_delimits<T>(b: Seq<u8>, s: Seq<T>, t: Seq<T>, f: spec_fn(T) -> Seq<u8>)
    requires
        self_delimiting(f),
        s.len() <= u64::MAX,
        t.len() <= u64::MAX,
        prefixed(b, wire_list(s, f)),
        prefixed(b, wire_list(t, f)),
    ensures
        s == t,
{
    lemma_prefixed_cat(b, wire_u64(s.len() as u64), wire_items(s, f));
    lemma_prefixed_cat(b, wire_u64(t.len() as u64), wire_items(t, f));
    lemma_u64_delimits(b, s.len() as u64, t.len() as u64);
    lemma_items_delimit(b.skip(wire_u64(s.len() as u64).len() as int), s, t, f);
}

// ---------------------------------------------------------------------------------------------
// Manifests.
// ---------------------------------------------------------------------------------------------

/// The two shapes of a manifest's body, as plain values: a complete list, or a base and changes.
pub type BodyTuple = Result<Vec<(u64, [u8; 32])>, ([u8; 32], Vec<(u64, Option<[u8; 32]>)>)>;

/// A manifest as plain values, in the order in which they are stored.
pub type ManifestTuple = (u32, BodyTuple, Option<[u8; 32]>, u64, u32, u32, u32, u64);

pub enum BodyWire {
    Flat(Seq<(u64, [u8; 32])>),
    Overlay([u8; 32], Seq<(u64, Option<[u8; 32]>)>),
}

pub struct ManifestWire {
    pub version: u32,
    pub body: BodyWire,
    pub parent: Option<[u8; 32]>,
    pub created_at_ms: u64,
    pub schema_version: u32,
    pub page_size: u32,
    pub depth: u32,
    pub page_count: u64,
}

pub open spec fn body_of(b: BodyTuple) -> BodyWire {
    match b {
        Ok(pages) => BodyWire::Flat(pages@),
        Err((base, changes)) => BodyWire::Overlay(base, changes@),
    }
}

pub open spec fn manifest_of(t: ManifestTuple) -> ManifestWire {
    ManifestWire {
        version: t.0,
        body: body_of(t.1),
        parent: t.2,
        created_at_ms: t.3,
        schema_version: t.4,
        page_size: t.5,
        depth: t.6,
        page_count: t.7,
    }
}

/// The number of the shape in four bytes, and then what the shape holds.
pub open spec fn wire_body(b: BodyWire) -> Seq<u8> {
    match b {
        BodyWire::Flat(pages) => wire_u32(0) + wire_list(pages, wire_page_entry()),
        BodyWire::Overlay(base, changes) => wire_u32(1) + (base@ + wire_list(
            changes,
            wire_change_entry(),
        )),
    }
}

/// The fields one after the other, with nothing between them.
pub open spec fn wire_manifest(m: ManifestWire) -> Seq<u8> {
    wire_u32(m.version) + (wire_body(m.body) + (wire_option(m.parent) + (wire_u64(m.created_at_ms) + (
    wire_u32(m.schema_version) + (wire_u32(m.page_size) + (wire_u32(m.depth) + wire_u64(
        m.page_count,
    )))))))
}

/// Lists that a machine can hold.
pub open spec fn storable(m: ManifestWire) -> bool {
    match m.body {
        BodyWire::Flat(pages) => pages.len() <= usize::MAX,
        BodyWire::Overlay(_, changes) => changes.len() <= usize::MAX,
    }
}

pub proof fn lemma_body_delimits(b: Seq<u8>, x: BodyWire, y: BodyWire)
    requires
        prefixed(b, wire_body(x)),
        prefixed(b, wire_body(y)),
        x matches BodyWire::Flat(p) ==> p.len() <= u64::MAX,
        y matches BodyWire::Flat(p) ==> p.len() <= u64::MAX,
        x matches BodyWire::Overlay(_, c) ==> c.len() <= u64::MAX,
        y matches BodyWire::Overlay(_, c) ==> c.len() <= u64::MAX,
    ensures
        x == y,
{
    let tx: u32 = if x is Flat { 0 } else { 1 };
    let ty: u32 = if y is Flat { 0 } else { 1 };
    lemma_page_entry_delimits();
    lemma_change_entry_delimits();
    let rx = match x {
        BodyWire::Flat(pages) => wire_list(pages, wire_page_entry()),
        BodyWire::Overlay(base, changes) => base@ + wire_list(changes, wire_change_entry()),
    };
    let ry = match y {
        BodyWire::Flat(pages) => wire_list(pages, wire_page_entry()),
        BodyWire::Overlay(base, changes) => base@ + wire_list(changes, wire_change_entry()),
    };
    lemma_prefixed_cat(b, wire_u32(tx), rx);
    lemma_prefixed_cat(b, wire_u32(ty), ry);
    lemma_u32_delimits(b, tx, ty);
    let c = b.skip(wire_u32(tx).len() as int);
    match (x, y) {
        (BodyWire::Flat(p), BodyWire::Flat(q)) => {
            lemma_list_delimits(c, p, q, wire_page_entry());
        },
        (BodyWire::Overlay(i, p), BodyWire::Overlay(j, q)) => {
            lemma_prefixed_cat(c, i@, wire_list(p, wire_change_entry()));
            lemma_prefixed_cat(c, j@, wire_list(q, wire_change_entry()));
            lemma_id_delimits(c, i, j);
            lemma_list_delimits(c.skip(i@.len() as int), p, q, wire_change_entry());
        },
        _ => {},
    }
}

/// Bytes that start with the stored form of a manifest start with that of no other.
pub proof fn lemma_manifest_delimits(b: Seq<u8>, x: ManifestWire, y: ManifestWire)
    requires
        storable(x),
        storable(y),
        prefixed(b, wire_manifest(x)),
        prefixed(b, wire_manifest(y)),
    ensures
        x == y,
{
    let x7 = wire_u64(x.page_count);
    let x6 = wire_u32(x.depth) + x7;
    let x5 = wire_u32(x.page_size) + x6;
    let x4 = wire_u32(x.schema_version) + x5;
    let x3 = wire_u64(x.created_at_ms) + x4;
    let x2 = wire_option(x.parent) + x3;
    let x1 = wire_body(x.body) + x2;
    let y7 = wire_u64(y.page_count);
    let y6 = wire_u32(y.depth) + y7;
    let y5 = wire_u32(y.page_size) + y6;
    let y4 = wire_u32(y.schema_version) + y5;
    let y3 = wire_u64(y.created_at_ms) + y4;
    let y2 = wire_option(y.parent) + y3;
    let y1 = wire_body(y.body) + y2;
    lemma_prefixed_cat(b, wire_u32(x.version), x1);
    lemma_prefixed_cat(b, wire_u32(y.version), y1);
    lemma_u32_delimits(b, x.version, y.version);
    let b1 = b.skip(wire_u32(x.version).len() as int);
    lemma_prefixed_cat(b1, wire_body(x.body), x2);
    lemma_prefixed_cat(b1, wire_body(y.body), y2);
    lemma_body_delimits(b1, x.body, y.body);
    let b2 = b1.skip(wire_body(x.body).len() as int);
    lemma_prefixed_cat(b2, wire_option(x.parent), x3);
    lemma_prefixed_cat(b2, wire_option(y.parent), y3);
    lemma_option_delimits(b2, x.parent, y.parent);
    let b3 = b2.skip(wire_option(x.parent).len() as int);
    lemma_prefixed_cat(b3, wire_u64(x.created_at_ms), x4);
    lemma_prefixed_cat(b3, wire_u64(y.created_at_ms), y4);
    lemma_u64_delimits(b3, x.created_at_ms, y.created_at_ms);
    let b4 = b3.skip(wire_u64(x.created_at_ms).len() as int);
    lemma_prefixed_cat(b4, wire_u32(x.schema_version), x5);
    lemma_prefixed_cat(b4, wire_u32(y.schema_version), y5);
    lemma_u32_delimits(b4, x.schema_version, y.schema_version);
    let b5 = b4.skip(wire_u32(x.schema_version).len() as int);
    lemma_prefixed_cat(b5, wire_u32(x.page_size), x6);
    lemma_prefixed_cat(b5, wire_u32(y.page_size), y6);
    lemma_u32_delimits(b5, x.page_size, y.page_size);
    let b6 = b5.skip(wire_u32(x.page_size).len() as int);
    lemma_prefixed_cat(b6, wire_u32(x.depth), x7);
    lemma_prefixed_cat(b6, wire_u32(y.depth), y7);
    lemma_u32_delimits(b6, x.depth, y.depth);
    lemma_u64_delimits(b6.skip(wire_u32(x.depth).len() as int), x.page_count, y.page_count);
}

/// `bincode::serialize` on a manifest's plain values, with its default configuration:
/// fixed-width little-endian integers, lengths in eight bytes, variant numbers in four, one byte
/// before an optional value, arrays and tuples without any length. It has no size limit there and
/// does not fail on these values.
#[verifier::external_body]
pub(crate) fn serialize_manifest(t: &ManifestTuple) -> (r: Result<Vec<u8>, Box<bincode::ErrorKind>>)
    ensures
        r is Ok,
        r->Ok_0@ == wire_manifest(manifest_of(*t)),
{
    bincode::serialize(t)
}

/// `bincode::deserialize` into a manifest's plain values: it succeeds exactly where the bytes start
/// with the form that serializing some value gives, and gives that value; what follows is ignored.
#[verifier::external_body]
pub(crate) fn deserialize_manifest(bytes: &[u8]) -> (r: Result<ManifestTuple, Box<bincode::ErrorKind>>)
    ensures
        match r {
            Ok(t) => prefixed(bytes@, wire_manifest(manifest_of(t))),
            Err(_) => forall|m: ManifestWire| storable(m) ==> !prefixed(bytes@, wire_manifest(m)),
        },
{
    bincode::deserialize::<ManifestTuple>(bytes)
}

// ---------------------------------------------------------------------------------------------
// Log records.
// ---------------------------------------------------------------------------------------------

/// What every record starts with: its sequence number and the number of its kind.
pub type HeadTuple = (u64, u32);

/// A write: the head, the logical page, and its content or none.
pub type WriteTuple = (u64, u32, u64, Option<[u8; 32]>);

/// A commit: the head, the manifest, and the time that went into it.
pub type CommitTuple = (u64, u32, [u8; 32], u64);

/// A checkpoint: the head and the manifest.
pub type CheckpointTuple = (u64, u32, [u8; 32]);

pub open spec fn wire_head(t: HeadTuple) -> Seq<u8> {
    wire_u64(t.0) + wire_u32(t.1)
}

pub open spec fn wire_write(t: WriteTuple) -> Seq<u8> {
    wire_head((t.0, t.1)) + (wire_u64(t.2) + wire_option(t.3))
}

pub open spec fn wire_commit(t: CommitTuple) -> Seq<u8> {
    wire_head((t.0, t.1)) + (t.2@ + wire_u64(t.3))
}

pub open spec fn wire_checkpoint(t: CheckpointTuple) -> Seq<u8> {
    wire_head((t.0, t.1)) + t.2@
}

pub proof fn lemma_head_delimits(b: Seq<u8>, x: HeadTuple, y: HeadTuple)
    requires
        prefixed(b, wire_head(x)),
        prefixed(b, wire_head(y)),
    ensures
        x == y,
{
    lemma_prefixed_cat(b, wire_u64(x.0), wire_u32(x.1));
    lemma_prefixed_cat(b, wire_u64(y.0), wire_u32(y.1));
    lemma_u64_delimits(b, x.0, y.0);
    lemma_u32_delimits(b.skip(wire_u64(x.0).len() as int), x.1, y.1);
}

pub proof fn lemma_write_delimits(b: Seq<u8>, x: WriteTuple, y: WriteTuple)
    requires
        prefixed(b, wire_write(x)),
        prefixed(b, wire_write(y)),
    ensures
        x == y,
{
    lemma_prefixed_cat(b, wire_head((x.0, x.1)), wire_u64(x.2) + wire_option(x.3));
    lemma_prefixed_cat(b, wire_head((y.0, y.1)), wire_u64(y.2) + wire_option(y.3));
    lemma_head_delimits(b, (x.0, x.1), (y.0, y.1));
    let c = b.skip(wire_head((x.0, x.1)).len() as int);
    lemma_prefixed_cat(c, wire_u64(x.2), wire_option(x.3));
    lemma_prefixed_cat(c, wire_u64(y.2), wire_option(y.3));
    lemma_u64_delimits(c, x.2, y.2);
    lemma_option_delimits(c.skip(wire_u64(x.2).len() as int), x.3, y.3);
}

pub proof fn lemma_commit_delimits(b: Seq<u8>, x: CommitTuple, y: CommitTuple)
    requires
        prefixed(b, wire_commit(x)),
        prefixed(b, wire_commit(y)),
    ensures
        x == y,
{
    lemma_prefixed_cat(b, wire_head((x.0, x.1)), x.2@ + wire_u64(x.3));
    lemma_prefixed_cat(b, wire_head((y.0, y.1)), y.2@ + wire_u64(y.3));
    lemma_head_delimits(b, (x.0, x.1), (y.0, y.1));
    let c = b.skip(wire_head((x.0, x.1)).len() as int);
    lemma_prefixed_cat(c, x.2@, wire_u64(x.3));
    lemma_prefixed_cat(c, y.2@, wire_u64(y.3));
    lemma_id_delimits(c, x.2, y.2);
    lemma_u64_delimits(c.skip(x.2@.len() as int), x.3, y.3);
}

pub proof fn lemma_checkpoint_delimits(b: Seq<u8>, x: CheckpointTuple, y: CheckpointTuple)
    requires
        prefixed(b, wire_checkpoint(x)),
        prefixed(b, wire_checkpoint(y)),
    ensures
        x == y,
{
    lemma_prefixed_cat(b, wire_head((x.0, x.1)), x.2@);
    lemma_prefixed_cat(b, wire_head((y.0, y.1)), y.2@);
    lemma_head_delimits(b, (x.0, x.1), (y.0, y.1));
    lemma_id_delimits(b.skip(wire_head((x.0, x.1)).len() as int), x.2, y.2);
}

/// `bincode::serialize` on a write record's plain values; the form is as for manifests.
#[verifier::external_body]
pub(crate) fn serialize_write(t: &WriteTuple) -> (r: Result<Vec<u8>, Box<bincode::ErrorKind>>)
    ensures
        r is Ok,
        r->Ok_0@ == wire_write(*t),
{
    bincode::serialize(t)
}

/// `bincode::serialize` on a commit record's plain values.
#[verifier::external_body]
pub(crate) fn serialize_commit(t: &CommitTuple) -> (r: Result<Vec<u8>, Box<bincode::ErrorKind>>)
    ensures
        r is Ok,
        r->Ok_0@ == wire_commit(*t),
{
    bincode::serialize(t)
}

/// `bincode::serialize` on a checkpoint record's plain values.
#[verifier::external_body]
pub(crate) fn serialize_checkpoint(t: &CheckpointTuple) -> (r: Result<Vec<u8>, Box<bincode::ErrorKind>>)
    ensures
        r is Ok,
        r->Ok_0@ == wire_checkpoint(*t),
{
    bincode::serialize(t)
}

/// `bincode::deserialize` into what every record starts with; what follows is ignored.
#[verifier::external_body]
pub(crate) fn deserialize_head(bytes: &[u8]) -> (r: Result<HeadTuple, Box<bincode::ErrorKind>>)
    ensures
        match r {
            Ok(t) => prefixed(bytes@, wire_head(t)),
            Err(_) => forall|t: HeadTuple| !prefixed(bytes@, #[trigger] wire_head(t)),
        },
{
    bincode::deserialize::<HeadTuple>(bytes)
}

/// `bincode::deserialize` into a write record's plain values.
#[verifier::external_body]
pub(crate) fn deserialize_write(bytes: &[u8]) -> (r: Result<WriteTuple, Box<bincode::ErrorKind>>)
    ensures
        match r {
            Ok(t) => prefixed(bytes@, wire_write(t)),
            Err(_) => forall|t: WriteTuple| !prefixed(bytes@, #[trigger] wire_write(t)),
        },
{
    bincode::deserialize::<WriteTuple>(bytes)
}

/// `bincode::deserialize` into a commit record's plain values.
#[verifier::external_body]
pub(crate) fn deserialize_commit(bytes: &[u8]) -> (r: Result<CommitTuple, Box<bincode::ErrorKind>>)
    ensures
        match r {
            Ok(t) => prefixed(bytes@, wire_commit(t)),
            Err(_) => forall|t: CommitTuple| !prefixed(bytes@, #[trigger] wire_commit(t)),
        },
{
    bincode::deserialize::<CommitTuple>(bytes)
}

/// `bincode::deserialize` into a checkpoint record's plain values.
#[verifier::external_body]
pub(crate) fn deserialize_checkpoint(bytes: &[u8]) -> (r: Result<CheckpointTuple, Box<bincode::ErrorKind>>)
    ensures
        match r {
            Ok(t) => prefixed(bytes@, wire_checkpoint(t)),
            Err(_) => forall|t: CheckpointTuple| !prefixed(bytes@, #[trigger] wire_checkpoint(t)),
        },
{
    bincode::deserialize::<CheckpointTuple>(bytes)
}

// ---------------------------------------------------------------------------------------------
// Branch trees.
// ---------------------------------------------------------------------------------------------

/// Named manifests, as plain values.
pub type RefsVec = Vec<(String, [u8; 32])>;

/// A branch tree: the branches and the tags.
pub type TreeTuple = (RefsVec, RefsVec);

pub open spec fn refs_of(v: RefsVec) -> Seq<(Seq<char>, [u8; 32])> {
    v@.map_values(|e: (String, [u8; 32])| (e.0@, e.1))
}

pub open spec fn wire_tree(
    branches: Seq<(Seq<char>, [u8; 32])>,
    tags: Seq<(Seq<char>, [u8; 32])>,
) -> Seq<u8> {
    wire_list(branches, wire_ref_entry()) + wire_list(tags, wire_ref_entry())
}

/// Lists, and names in them, that a machine can hold.
pub open spec fn storable_refs(s: Seq<(Seq<char>, [u8; 32])>) -> bool {
    s.len() <= usize::MAX && forall|i: int|
        0 <= i < s.len() ==> encode_utf8((#[trigger] s[i]).0).len() <= usize::MAX
}

proof fn lemma_refs_delimit(
    b: Seq<u8>,
    s: Seq<(Seq<char>, [u8; 32])>,
    t: Seq<(Seq<char>, [u8; 32])>,
)
    requires
        storable_refs(s),
        storable_refs(t),
        s.len() == t.len(),
        prefixed(b, wire_items(s, wire_ref_entry())),
        prefixed(b, wire_items(t, wire_ref_entry())),
    ensures
        s == t,
    decreases s.len(),
{
    let f = wire_ref_entry();
    if s.len() == 0 {
        assert(s =~= t);
    } else {
        let (x, y) = (s[0], t[0]);
        lemma_prefixed_cat(b, f(x), wire_items(s.skip(1), f));
        lemma_prefixed_cat(b, f(y), wire_items(t.skip(1), f));
        lemma_prefixed_cat(b, wire_text(x.0), x.1@);
        lemma_prefixed_cat(b, wire_text(y.0), y.1@);
        lemma_text_delimits(b, x.0, y.0);
        lemma_id_delimits(b.skip(wire_text(x.0).len() as int), x.1, y.1);
        lemma_refs_delimit(b.skip(f(x).len() as int), s.skip(1), t.skip(1));
        assert(s =~= seq![x] + s.skip(1));
        assert(t =~= seq![y] + t.skip(1));
    }
}

/// Bytes that start with the stored form of a tree start with that of no other.
pub proof fn lemma_tree_delimits(
    b: Seq<u8>,
    b1: Seq<(Seq<char>, [u8; 32])>,
    t1: Seq<(Seq<char>, [u8; 32])>,
    b2: Seq<(Seq<char>, [u8; 32])>,
    t2: Seq<(Seq<char>, [u8; 32])>,
)
    requires
        storable_refs(b1),
        storable_refs(t1),
        storable_refs(b2),
        storable_refs(t2),
        prefixed(b, wire_tree(b1, t1)),
        prefixed(b, wire_tree(b2, t2)),
    ensures
        b1 == b2,
        t1 == t2,
{
    let f = wire_ref_entry();
    lemma_prefixed_cat(b, wire_list(b1, f), wire_list(t1, f));
    lemma_prefixed_cat(b, wire_list(b2, f), wire_list(t2, f));
    lemma_prefixed_cat(b, wire_u64(b1.len() as u64), wire_items(b1, f));
    lemma_prefixed_cat(b, wire_u64(b2.len() as u64), wire_items(b2, f));
    lemma_u64_delimits(b, b1.len() as u64, b2.len() as u64);
    lemma_refs_delimit(b.skip(wire_u64(b1.len() as u64).len() as int), b1, b2);
    let c = b.skip(wire_list(b1, f).len() as int);
    lemma_prefixed_cat(c, wire_u64(t1.len() as u64), wire_items(t1, f));
    lemma_prefixed_cat(c, wire_u64(t2.len() as u64), wire_items(t2, f));
    lemma_u64_delimits(c, t1.len() as u64, t2.len() as u64);
    lemma_refs_delimit(c.skip(wire_u64(t1.len() as u64).len() as int), t1, t2);
}

/// `bincode::serialize` on a branch tree's plain values; a text is its length in bytes, in eight
/// bytes, and then its UTF-8.
#[verifier::external_body]
pub(crate) fn serialize_tree(t: &TreeTuple) -> (r: Result<Vec<u8>, Box<bincode::ErrorKind>>)
    ensures
        r is Ok,
        r->Ok_0@ == wire_tree(refs_of(t.0), refs_of(t.1)),
{
    bincode::serialize(t)
}

/// `bincode::deserialize` into a branch tree's plain values; what follows is ignored.
#[verifier::external_body]
pub(crate) fn deserialize_tree(bytes: &[u8]) -> (r: Result<TreeTuple, Box<bincode::ErrorKind>>)
    ensures
        match r {
            Ok(t) => prefixed(bytes@, wire_tree(refs_of(t.0), refs_of(t.1))) && storable_refs(
                refs_of(t.0),
            ) && storable_refs(refs_of(t.1)),
            Err(_) => forall|b: Seq<(Seq<char>, [u8; 32])>, g: Seq<(Seq<char>, [u8; 32])>|
                storable_refs(b) && storable_refs(g) ==> !prefixed(
                    bytes@,
                    #[trigger] wire_tree(b, g),
                ),
        },
{
    bincode::deserialize::<TreeTuple>(bytes)
}

} // verus!
