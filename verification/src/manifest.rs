//! Manifests: the complete state of one database at one instant, as a value with an id.
//!
//! A manifest is flat, or it is an overlay: what changed relative to another manifest. A chain of
//! overlays is cut off by a flat manifest when it has reached [`MAX_OVERLAY_DEPTH`].

use crate::codec::{
    deserialize_manifest, lemma_manifest_delimits, lemma_prefixed_extend, manifest_of, prefixed,
    serialize_manifest, storable, wire_manifest, BodyTuple, BodyWire, ManifestTuple, ManifestWire,
};
use crate::error::{Fault, PagerError};
use crate::hashing::{
    array32, array32_ext, array32_of_view, blake3_digest, digest, same_bytes,
};
use crate::ordmap::Key;
use crate::page::{LogicalPageNo, PageId};
use crate::pagemap::{
    entries, entries_of, from_entries, lemma_entries_exist, lemma_map_of_increasing,
    lemma_map_of_keys, map_of,
};
use crate::text::{all_hex, from_hex, hex, hex_is_injective, hex_round_trips, to_hex, unhex};
use std::collections::BTreeMap;
use vstd::prelude::*;

verus! {

/// The longest overlay chain before a commit writes a flat manifest instead.
pub const MAX_OVERLAY_DEPTH: u32 = 8;

/// The stored manifest format version.
pub const MANIFEST_FORMAT_VERSION: u32 = 2;

/// The content hash of a stored [`Manifest`].
#[derive(Clone, Copy, Debug, Hash, PartialOrd, Ord)]
pub struct ManifestId(pub [u8; 32]);

impl PartialEq for ManifestId {
    fn eq(&self, other: &ManifestId) -> (r: bool) {
        let r = same_bytes(&self.0, &other.0);
        assert(r == (self.0 == other.0));
        assert(r == (*self == *other));
        r
    }
}

impl Eq for ManifestId {

}

impl vstd::std_specs::cmp::PartialEqSpecImpl for ManifestId {
    open spec fn obeys_eq_spec() -> bool {
        true
    }

    open spec fn eq_spec(&self, other: &ManifestId) -> bool {
        *self == *other
    }
}

impl Key for ManifestId {
    type Id = ManifestId;

    open spec fn ident(&self) -> ManifestId {
        *self
    }

    open spec fn rank(id: ManifestId) -> Seq<u8> {
        id.0@
    }

    proof fn rank_is_injective(a: ManifestId, b: ManifestId) {
        array32_ext(a.0, b.0);
    }

    fn rank_bytes(&self) -> (b: &[u8]) {
        self.0.as_slice()
    }

    fn duplicate(&self) -> (k: ManifestId) {
        *self
    }
}

impl Key for PageId {
    type Id = PageId;

    open spec fn ident(&self) -> PageId {
        *self
    }

    open spec fn rank(id: PageId) -> Seq<u8> {
        id.0@
    }

    proof fn rank_is_injective(a: PageId, b: PageId) {
        array32_ext(a.0, b.0);
    }

    fn rank_bytes(&self) -> (b: &[u8]) {
        self.0.as_slice()
    }

    fn duplicate(&self) -> (k: PageId) {
        *self
    }
}

impl ManifestId {
    /// The raw 32 bytes.
    pub fn as_bytes(&self) -> (b: &[u8; 32])
        ensures
            *b == self.0,
    {
        &self.0
    }

    /// The id with these bytes.
    pub fn from_bytes(bytes: [u8; 32]) -> (id: ManifestId)
        ensures
            id == ManifestId(bytes),
    {
        ManifestId(bytes)
    }

    /// Lowercase hex, 64 characters.
    pub fn to_hex(self) -> (s: String)
        ensures
            s@ == hex(self.0@),
            s@.len() == 64,
    {
        to_hex(self.0.as_slice())
    }

    /// Parses 64 hex characters of either case.
    pub fn from_hex(s: &str) -> (r: Result<ManifestId, PagerError>)
        ensures
            match r {
                Ok(id) => s@.len() == 64 && all_hex(s@) && id.0@ == unhex(s@),
                Err(e) => (s@.len() != 64 || !all_hex(s@)) && e@ == Fault::MalformedId(s@),
            },
    {
        match from_hex(s) {
            Some(bytes) => Ok(ManifestId(bytes)),
            None => Err(PagerError::MalformedId(s.to_owned())),
        }
    }

    /// The first twelve hex characters.
    pub fn abbreviated(&self) -> (s: String)
        ensures
            s@ == hex(self.0@).take(12),
    {
        let full = self.to_hex();
        let short = full.as_str().substring_char(0, 12).to_owned();
        assert(full@.subrange(0, 12) =~= full@.take(12));
        short
    }
}

/// An id parsed from its printed form is the id that was printed.
pub proof fn manifest_id_hex_round_trips(id: ManifestId, parsed: ManifestId)
    ensures
        hex(id.0@).len() == 64 && all_hex(hex(id.0@)),
        parsed.0@ == unhex(hex(id.0@)) ==> parsed == id,
{
    hex_round_trips(id.0@);
    if parsed.0@ == unhex(hex(id.0@)) {
        array32_ext(parsed.0, id.0);
    }
}

/// Two ids that print alike are the same id.
pub proof fn manifest_id_hex_injective(a: ManifestId, b: ManifestId)
    requires
        hex(a.0@) == hex(b.0@),
    ensures
        a == b,
{
    hex_is_injective(a.0@, b.0@);
    array32_ext(a.0, b.0);
}

/// Every logical page, and the content at it.
pub type PageMap = BTreeMap<LogicalPageNo, PageId>;

/// What an overlay records. `None` means that the logical page was removed.
pub type PageChanges = BTreeMap<LogicalPageNo, Option<PageId>>;

/// What a manifest holds.
#[derive(Debug, PartialEq, Eq)]
pub enum ManifestBody {
    /// The complete map.
    Flat(PageMap),
    /// Only what changed relative to `base`.
    Overlay { base: ManifestId, changes: PageChanges },
}

/// The complete state of a database at one instant.
#[derive(Debug, PartialEq, Eq)]
pub struct Manifest {
    /// The format version.
    pub format_version: u32,
    /// Flat, or an overlay on something flatter.
    pub body: ManifestBody,
    /// The manifest that this one was committed on top of: the edge of history.
    pub parent: Option<ManifestId>,
    /// When it was committed, in milliseconds since the Unix epoch.
    pub created_at_ms: u64,
    /// The schema version of the data in the pages, owned by the layer above.
    pub schema_version: u32,
    /// The page size of the store that produced it.
    pub page_size: u32,
    /// How many overlays deep it sits; zero for a flat one.
    pub depth: u32,
    /// How many logical pages the database has.
    pub page_count: u64,
}

/// A manifest's body with its maps as mathematical maps.
pub enum BodyView {
    Flat(Map<u64, PageId>),
    Overlay { base: ManifestId, changes: Map<u64, Option<PageId>> },
}

/// A manifest with its maps as mathematical maps.
pub struct ManifestView {
    pub format_version: u32,
    pub body: BodyView,
    pub parent: Option<ManifestId>,
    pub created_at_ms: u64,
    pub schema_version: u32,
    pub page_size: u32,
    pub depth: u32,
    pub page_count: u64,
}

impl View for ManifestBody {
    type V = BodyView;

    open spec fn view(&self) -> BodyView {
        match *self {
            ManifestBody::Flat(pages) => BodyView::Flat(pages@),
            ManifestBody::Overlay { base, changes } => BodyView::Overlay { base, changes: changes@ },
        }
    }
}

impl View for Manifest {
    type V = ManifestView;

    open spec fn view(&self) -> ManifestView {
        ManifestView {
            format_version: self.format_version,
            body: self.body@,
            parent: self.parent,
            created_at_ms: self.created_at_ms,
            schema_version: self.schema_version,
            page_size: self.page_size,
            depth: self.depth,
            page_count: self.page_count,
        }
    }
}

impl ManifestView {
    /// The manifest underneath, for an overlay.
    pub open spec fn overlay_base(self) -> Option<ManifestId> {
        match self.body {
            BodyView::Flat(_) => None,
            BodyView::Overlay { base, .. } => Some(base),
        }
    }

    /// What this manifest itself says of a page: `None` where the base has to be asked.
    pub open spec fn local_lookup(self, page_no: u64) -> Option<Option<PageId>> {
        match self.body {
            BodyView::Flat(pages) => Some(
                if pages.contains_key(page_no) {
                    Some(pages[page_no])
                } else {
                    None
                },
            ),
            BodyView::Overlay { changes, .. } => if changes.contains_key(page_no) {
                Some(changes[page_no])
            } else {
                None
            },
        }
    }

    /// Maps that a machine can hold.
    pub open spec fn fits(self) -> bool {
        match self.body {
            BodyView::Flat(pages) => pages.dom().finite() && pages.dom().len() <= usize::MAX,
            BodyView::Overlay { changes, .. } => changes.dom().finite() && changes.dom().len()
                <= usize::MAX,
        }
    }

    /// The manifest as plain values, in ascending order of logical page.
    pub open spec fn wire(self) -> ManifestWire {
        ManifestWire {
            version: self.format_version,
            body: match self.body {
                BodyView::Flat(pages) => BodyWire::Flat(pages_to_wire(entries_of(pages))),
                BodyView::Overlay { base, changes } => BodyWire::Overlay(
                    base.0,
                    changes_to_wire(entries_of(changes)),
                ),
            },
            parent: match self.parent {
                Some(p) => Some(p.0),
                None => None,
            },
            created_at_ms: self.created_at_ms,
            schema_version: self.schema_version,
            page_size: self.page_size,
            depth: self.depth,
            page_count: self.page_count,
        }
    }

    /// The bytes that the manifest is stored as.
    pub open spec fn stored(self) -> Seq<u8> {
        wire_manifest(self.wire())
    }

    /// The hash of those bytes.
    pub open spec fn id(self) -> ManifestId {
        ManifestId(array32(blake3_digest(self.stored())))
    }
}

pub open spec fn pages_to_wire(s: Seq<(u64, PageId)>) -> Seq<(u64, [u8; 32])> {
    s.map_values(|e: (u64, PageId)| (e.0, e.1.0))
}

pub open spec fn changes_to_wire(s: Seq<(u64, Option<PageId>)>) -> Seq<(u64, Option<[u8; 32]>)> {
    s.map_values(|e: (u64, Option<PageId>)| (e.0, id_bytes(e.1)))
}

pub open spec fn id_bytes(id: Option<PageId>) -> Option<[u8; 32]> {
    match id {
        Some(p) => Some(p.0),
        None => None,
    }
}

pub open spec fn pages_from_wire(s: Seq<(u64, [u8; 32])>) -> Seq<(u64, PageId)> {
    s.map_values(|e: (u64, [u8; 32])| (e.0, PageId(e.1)))
}

pub open spec fn changes_from_wire(s: Seq<(u64, Option<[u8; 32]>)>) -> Seq<(u64, Option<PageId>)> {
    s.map_values(|e: (u64, Option<[u8; 32]>)| (e.0, bytes_id(e.1)))
}

pub open spec fn bytes_id(b: Option<[u8; 32]>) -> Option<PageId> {
    match b {
        Some(p) => Some(PageId(p)),
        None => None,
    }
}

/// The manifest that plain values stand for: where a page is listed twice, the last one counts.
pub open spec fn manifest_from_wire(w: ManifestWire) -> ManifestView {
    ManifestView {
        format_version: w.version,
        body: match w.body {
            BodyWire::Flat(pages) => BodyView::Flat(map_of(pages_from_wire(pages))),
            BodyWire::Overlay(base, changes) => BodyView::Overlay {
                base: ManifestId(base),
                changes: map_of(changes_from_wire(changes)),
            },
        },
        parent: match w.parent {
            Some(p) => Some(ManifestId(p)),
            None => None,
        },
        created_at_ms: w.created_at_ms,
        schema_version: w.schema_version,
        page_size: w.page_size,
        depth: w.depth,
        page_count: w.page_count,
    }
}

/// The manifest that these bytes start with the stored form of, if there is one.
pub open spec fn decoded(bytes: Seq<u8>) -> Option<ManifestView> {
    if exists|w: ManifestWire| storable(w) && prefixed(bytes, #[trigger] wire_manifest(w)) {
        Some(
            manifest_from_wire(
                choose|w: ManifestWire|
                    storable(w) && prefixed(bytes, #[trigger] wire_manifest(w)),
            ),
        )
    } else {
        None
    }
}

proof fn lemma_wire_back(m: ManifestView)
    requires
        m.fits(),
    ensures
        storable(m.wire()),
        manifest_from_wire(m.wire()) == m,
{
    match m.body {
        BodyView::Flat(pages) => {
            lemma_entries_exist(pages);
            let s = entries_of(pages);
            assert(pages_from_wire(pages_to_wire(s)) =~= s);
        },
        BodyView::Overlay { base, changes } => {
            lemma_entries_exist(changes);
            let s = entries_of(changes);
            assert forall|i: int| 0 <= i < s.len() implies changes_from_wire(
                changes_to_wire(s),
            )[i] == s[i] by {
                assert(bytes_id(id_bytes(s[i].1)) == s[i].1);
            }
            assert(changes_from_wire(changes_to_wire(s)) =~= s);
        },
    }
}

/// Bytes that start with the stored form of a manifest decode to that manifest, whatever follows.
pub proof fn decoding_undoes_encoding(m: ManifestView, tail: Seq<u8>)
    requires
        m.fits(),
    ensures
        decoded(m.stored()) == Some(m),
        decoded(m.stored() + tail) == Some(m),
{
    lemma_wire_back(m);
    let w = m.wire();
    assert(m.stored().take(m.stored().len() as int) =~= m.stored());
    lemma_decoded(m.stored(), w);
    lemma_prefixed_extend(m.stored(), wire_manifest(w), tail);
    lemma_decoded(m.stored() + tail, w);
}

/// What bytes decode to is the one manifest whose stored form they start with.
pub proof fn lemma_decoded(bytes: Seq<u8>, w: ManifestWire)
    requires
        storable(w),
        prefixed(bytes, wire_manifest(w)),
    ensures
        decoded(bytes) == Some(manifest_from_wire(w)),
{
    let v = choose|v: ManifestWire| storable(v) && prefixed(bytes, #[trigger] wire_manifest(v));
    lemma_manifest_delimits(bytes, v, w);
}

/// Different manifests have different stored forms.
pub proof fn stored_forms_differ(a: ManifestView, b: ManifestView)
    requires
        a.fits(),
        b.fits(),
        a.stored() == b.stored(),
    ensures
        a == b,
{
    decoding_undoes_encoding(a, Seq::empty());
    decoding_undoes_encoding(b, Seq::empty());
}

/// The pages after some changes: a changed page has its new content or is gone, and every other
/// page is what it was.
pub open spec fn apply_changes(
    pages: Map<u64, PageId>,
    changes: Map<u64, Option<PageId>>,
) -> Map<u64, PageId> {
    Map::new(
        |k: u64|
            if changes.contains_key(k) {
                changes[k] is Some
            } else {
                pages.contains_key(k)
            },
        |k: u64|
            if changes.contains_key(k) {
                changes[k].unwrap()
            } else {
                pages[k]
            },
    )
}

/// The manifest that an overlay of `changes` on `base` is.
pub open spec fn overlay_view(
    base_id: ManifestId,
    base: ManifestView,
    changes: Map<u64, Option<PageId>>,
    page_count: u64,
    created_at_ms: u64,
) -> ManifestView {
    ManifestView {
        format_version: MANIFEST_FORMAT_VERSION,
        body: BodyView::Overlay { base: base_id, changes },
        parent: Some(base_id),
        created_at_ms,
        schema_version: base.schema_version,
        page_size: base.page_size,
        depth: (base.depth + 1) as u32,
        page_count,
    }
}

/// The flat manifest of these pages, committed on top of `base`.
pub open spec fn flat_view(
    base_id: ManifestId,
    base: ManifestView,
    pages: Map<u64, PageId>,
    created_at_ms: u64,
) -> ManifestView {
    ManifestView {
        format_version: MANIFEST_FORMAT_VERSION,
        body: BodyView::Flat(pages),
        parent: Some(base_id),
        created_at_ms,
        schema_version: base.schema_version,
        page_size: base.page_size,
        depth: 0,
        page_count: pages.dom().len() as u64,
    }
}

/// The empty root manifest of a store with this page size.
pub open spec fn empty_view(page_size: usize) -> ManifestView {
    ManifestView {
        format_version: MANIFEST_FORMAT_VERSION,
        body: BodyView::Flat(Map::empty()),
        parent: None,
        created_at_ms: 0,
        schema_version: 0,
        page_size: page_size as u32,
        depth: 0,
        page_count: 0,
    }
}

/// Applies changes to a page map.
pub fn apply(pages: &mut PageMap, changes: &PageChanges)
    ensures
        final(pages)@ == apply_changes(old(pages)@, changes@),
{
    broadcast use vstd::std_specs::btree::group_btree_axioms;

    let list = entries(changes);
    let ghost start = pages@;
    let n: usize = list.len();
    let mut i: usize = 0;
    proof {
        lemma_map_of_increasing(list@);
        lemma_map_of_keys(list@);
        assert(list@.take(0) =~= Seq::empty());
        assert(pages@ =~= apply_changes(start, map_of(list@.take(0))));
    }
    while i < n
        invariant
            n == list@.len(),
            i <= n,
            pages@ == apply_changes(start, map_of(list@.take(i as int))),
        decreases n - i,
    {
        let (page_no, content) = list[i];
        match content {
            Some(id) => {
                pages.insert(page_no, id);
            },
            None => {
                pages.remove(&page_no);
            },
        }
        proof {
            let t = list@.take(i as int + 1);
            assert(t.drop_last() =~= list@.take(i as int));
            assert(pages@ =~= apply_changes(start, map_of(t)));
        }
        i = i + 1;
    }
    assert(list@.take(n as int) =~= list@);
}

impl Clone for ManifestBody {
    fn clone(&self) -> (b: ManifestBody)
        ensures
            b@ == self@,
    {
        match self {
            ManifestBody::Flat(pages) => ManifestBody::Flat(pages.clone()),
            ManifestBody::Overlay { base, changes } => ManifestBody::Overlay {
                base: *base,
                changes: changes.clone(),
            },
        }
    }
}

impl Clone for Manifest {
    fn clone(&self) -> (m: Manifest)
        ensures
            m@ == self@,
    {
        Manifest {
            format_version: self.format_version,
            body: self.body.clone(),
            parent: self.parent,
            created_at_ms: self.created_at_ms,
            schema_version: self.schema_version,
            page_size: self.page_size,
            depth: self.depth,
            page_count: self.page_count,
        }
    }
}

fn plain_pages(list: &Vec<(u64, PageId)>) -> (out: Vec<(u64, [u8; 32])>)
    ensures
        out@ == pages_to_wire(list@),
{
    let mut out: Vec<(u64, [u8; 32])> = Vec::new();
    let n: usize = list.len();
    let mut i: usize = 0;
    while i < n
        invariant
            n == list@.len(),
            i <= n,
            out@ =~= pages_to_wire(list@).take(i as int),
        decreases n - i,
    {
        let (k, id) = list[i];
        out.push((k, id.0));
        i = i + 1;
    }
    out
}

fn plain_changes(list: &Vec<(u64, Option<PageId>)>) -> (out: Vec<(u64, Option<[u8; 32]>)>)
    ensures
        out@ == changes_to_wire(list@),
{
    let mut out: Vec<(u64, Option<[u8; 32]>)> = Vec::new();
    let n: usize = list.len();
    let mut i: usize = 0;
    while i < n
        invariant
            n == list@.len(),
            i <= n,
            out@ =~= changes_to_wire(list@).take(i as int),
        decreases n - i,
    {
        let (k, id) = list[i];
        match id {
            Some(p) => {
                out.push((k, Some(p.0)));
            },
            None => {
                out.push((k, None));
            },
        }
        i = i + 1;
    }
    out
}

fn typed_pages(list: &Vec<(u64, [u8; 32])>) -> (out: Vec<(u64, PageId)>)
    ensures
        out@ == pages_from_wire(list@),
{
    let mut out: Vec<(u64, PageId)> = Vec::new();
    let n: usize = list.len();
    let mut i: usize = 0;
    while i < n
        invariant
            n == list@.len(),
            i <= n,
            out@ =~= pages_from_wire(list@).take(i as int),
        decreases n - i,
    {
        let (k, id) = list[i];
        out.push((k, PageId(id)));
        i = i + 1;
    }
    out
}

fn typed_changes(list: &Vec<(u64, Option<[u8; 32]>)>) -> (out: Vec<(u64, Option<PageId>)>)
    ensures
        out@ == changes_from_wire(list@),
{
    let mut out: Vec<(u64, Option<PageId>)> = Vec::new();
    let n: usize = list.len();
    let mut i: usize = 0;
    while i < n
        invariant
            n == list@.len(),
            i <= n,
            out@ =~= changes_from_wire(list@).take(i as int),
        decreases n - i,
    {
        let (k, id) = list[i];
        match id {
            Some(p) => {
                out.push((k, Some(PageId(p))));
            },
            None => {
                out.push((k, None));
            },
        }
        i = i + 1;
    }
    out
}

impl Manifest {
    /// The empty root manifest of a store with this page size. It carries no time, so that its id
    /// depends on the page size alone.
    pub fn empty(page_size: usize) -> (m: Manifest)
        ensures
            m@ == empty_view(page_size),
    {
        Manifest {
            format_version: MANIFEST_FORMAT_VERSION,
            body: ManifestBody::Flat(BTreeMap::new()),
            parent: None,
            created_at_ms: 0,
            schema_version: 0,
            page_size: page_size as u32,
            depth: 0,
            page_count: 0,
        }
    }

    /// The hash of the manifest's stored form.
    pub fn id(&self) -> (r: Result<ManifestId, PagerError>)
        ensures
            r is Ok,
            r->Ok_0 == self@.id(),
            r->Ok_0.0@ == blake3_digest(self@.stored()),
    {
        match self.encode() {
            Ok(bytes) => {
                let d = digest(bytes.as_slice());
                proof {
                    array32_of_view(d);
                }
                Ok(ManifestId(d))
            },
            Err(e) => Err(e),
        }
    }

    /// Turns the manifest into bytes; equal manifests into equal bytes.
    pub fn encode(&self) -> (r: Result<Vec<u8>, PagerError>)
        ensures
            r is Ok,
            r->Ok_0@ == self@.stored(),
            self@.fits(),
    {
        broadcast use vstd::std_specs::btree::group_btree_axioms;

        let body: BodyTuple = match &self.body {
            ManifestBody::Flat(pages) => {
                let list = entries(pages);
                Ok(plain_pages(&list))
            },
            ManifestBody::Overlay { base, changes } => {
                let list = entries(changes);
                Err((base.0, plain_changes(&list)))
            },
        };
        let parent: Option<[u8; 32]> = match self.parent {
            Some(p) => Some(p.0),
            None => None,
        };
        let tuple: ManifestTuple = (
            self.format_version,
            body,
            parent,
            self.created_at_ms,
            self.schema_version,
            self.page_size,
            self.depth,
            self.page_count,
        );
        assert(manifest_of(tuple) == self@.wire());
        match serialize_manifest(&tuple) {
            Ok(bytes) => Ok(bytes),
            Err(source) => Err(PagerError::Codec { op: "encode", source }),
        }
    }

    /// Turns bytes into the manifest that they start with the stored form of.
    pub fn decode(bytes: &[u8]) -> (r: Result<Manifest, PagerError>)
        ensures
            match r {
                Ok(m) => decoded(bytes@) == Some(m@),
                Err(e) => decoded(bytes@) is None && e@ == (Fault::Codec { op: "decode"@ }),
            },
    {
        match deserialize_manifest(bytes) {
            Ok(tuple) => {
                proof {
                    lemma_decoded(bytes@, manifest_of(tuple));
                }
                let body = match &tuple.1 {
                    Ok(pages) => {
                        let list = typed_pages(pages);
                        ManifestBody::Flat(from_entries(&list))
                    },
                    Err((base, changes)) => {
                        let list = typed_changes(changes);
                        ManifestBody::Overlay {
                            base: ManifestId(*base),
                            changes: from_entries(&list),
                        }
                    },
                };
                let parent: Option<ManifestId> = match tuple.2 {
                    Some(p) => Some(ManifestId(p)),
                    None => None,
                };
                Ok(
                    Manifest {
                        format_version: tuple.0,
                        body,
                        parent,
                        created_at_ms: tuple.3,
                        schema_version: tuple.4,
                        page_size: tuple.5,
                        depth: tuple.6,
                        page_count: tuple.7,
                    },
                )
            },
            Err(source) => Err(PagerError::Codec { op: "decode", source }),
        }
    }

    /// How many overlays deep.
    pub fn depth(&self) -> (d: u32)
        ensures
            d == self@.depth,
    {
        self.depth
    }

    /// Whether there is no chain to walk.
    pub fn is_flat(&self) -> (r: bool)
        ensures
            r == (self@.body is Flat),
    {
        match self.body {
            ManifestBody::Flat(_) => true,
            ManifestBody::Overlay { .. } => false,
        }
    }

    /// The manifest that this one overlays, if any: the edge of storage, not of history.
    pub fn overlay_base(&self) -> (r: Option<ManifestId>)
        ensures
            r == self@.overlay_base(),
    {
        match &self.body {
            ManifestBody::Flat(_) => None,
            ManifestBody::Overlay { base, .. } => Some(*base),
        }
    }

    /// The complete map, if this manifest is flat.
    pub fn flat_pages(&self) -> (r: Option<&PageMap>)
        ensures
            match r {
                Some(pages) => self@.body == BodyView::Flat(pages@),
                None => self@.body is Overlay,
            },
    {
        match &self.body {
            ManifestBody::Flat(pages) => Some(pages),
            ManifestBody::Overlay { .. } => None,
        }
    }

    /// The changes this overlay records, if it is one.
    pub fn changes(&self) -> (r: Option<&PageChanges>)
        ensures
            match r {
                Some(c) => self@.body is Overlay && self@.body->changes == c@,
                None => self@.body is Flat,
            },
    {
        match &self.body {
            ManifestBody::Flat(_) => None,
            ManifestBody::Overlay { changes, .. } => Some(changes),
        }
    }

    /// How many logical pages the database has.
    pub fn len(&self) -> (n: usize)
        ensures
            n == self@.page_count as usize,
    {
        self.page_count as usize
    }

    /// Whether the database has no pages.
    pub fn is_empty(&self) -> (r: bool)
        ensures
            r == (self@.page_count == 0),
    {
        self.page_count == 0
    }

    /// What this manifest itself says of a page, without asking its base.
    pub fn local_lookup(&self, page_no: LogicalPageNo) -> (r: Option<Option<PageId>>)
        ensures
            r == self@.local_lookup(page_no),
    {
        broadcast use vstd::std_specs::btree::group_btree_axioms;

        match &self.body {
            ManifestBody::Flat(pages) => match pages.get(&page_no) {
                Some(id) => Some(Some(*id)),
                None => Some(None),
            },
            ManifestBody::Overlay { changes, .. } => match changes.get(&page_no) {
                Some(c) => Some(*c),
                None => None,
            },
        }
    }

    /// An overlay on top of `base` that records only what changed.
    pub fn overlay_on(
        base_id: ManifestId,
        base: &Manifest,
        changes: &PageChanges,
        page_count: u64,
        created_at_ms: u64,
    ) -> (m: Manifest)
        requires
            base@.depth < u32::MAX,
        ensures
            m@ == overlay_view(base_id, base@, changes@, page_count, created_at_ms),
    {
        Manifest {
            format_version: MANIFEST_FORMAT_VERSION,
            body: ManifestBody::Overlay { base: base_id, changes: changes.clone() },
            parent: Some(base_id),
            created_at_ms,
            schema_version: base.schema_version,
            page_size: base.page_size,
            depth: base.depth + 1,
            page_count,
        }
    }

    /// A flat manifest of everything that `resolved_base` holds after the changes.
    pub fn flatten_onto(
        base_id: ManifestId,
        base: &Manifest,
        resolved_base: &PageMap,
        changes: &PageChanges,
        created_at_ms: u64,
    ) -> (m: Manifest)
        ensures
            m@ == flat_view(
                base_id,
                base@,
                apply_changes(resolved_base@, changes@),
                created_at_ms,
            ),
    {
        broadcast use vstd::std_specs::btree::group_btree_axioms;

        let mut pages = resolved_base.clone();
        apply(&mut pages, changes);
        let page_count: u64 = pages.len() as u64;
        Manifest {
            format_version: MANIFEST_FORMAT_VERSION,
            body: ManifestBody::Flat(pages),
            parent: Some(base_id),
            created_at_ms,
            schema_version: base.schema_version,
            page_size: base.page_size,
            depth: 0,
            page_count,
        }
    }

    /// Whether a commit on top of this manifest has to flatten the chain. Its depth alone decides.
    pub fn must_flatten(&self) -> (r: bool)
        ensures
            r == (self@.depth >= MAX_OVERLAY_DEPTH),
    {
        self.depth >= MAX_OVERLAY_DEPTH
    }
}

/// The id of a manifest is the digest of the whole of its stored form, however long that is. Two
/// manifests share an id exactly where BLAKE3 gives their whole stored forms the same digest, and
/// those forms are the same only where the manifests are.
pub proof fn a_manifest_is_known_by_all_that_it_says(
    m: &Manifest,
    n: &Manifest,
    stored: Result<Vec<u8>, PagerError>,
    other: Result<Vec<u8>, PagerError>,
    x: Result<ManifestId, PagerError>,
    y: Result<ManifestId, PagerError>,
)
    requires
        call_ensures(Manifest::encode, (m,), stored),
        call_ensures(Manifest::encode, (n,), other),
        call_ensures(Manifest::id, (m,), x),
        call_ensures(Manifest::id, (n,), y),
    ensures
        stored is Ok && other is Ok && x is Ok && y is Ok,
        x->Ok_0.0@ == blake3_digest(stored->Ok_0@),
        x->Ok_0 == m@.id(),
        x->Ok_0 == y->Ok_0 <==> blake3_digest(stored->Ok_0@) == blake3_digest(other->Ok_0@),
        stored->Ok_0@ == other->Ok_0@ <==> m@ == n@,
{
    if x->Ok_0.0@ == y->Ok_0.0@ {
        array32_ext(x->Ok_0.0, y->Ok_0.0);
    }
    if stored->Ok_0@ == other->Ok_0@ {
        stored_forms_differ(m@, n@);
    }
}

/// A manifest says of a page what it holds itself: a flat one whether there is the page, and an overlay
/// what became of it, if it was changed, or else that the one underneath has to be asked. It has to be
/// flattened once there are eight overlays, and it is empty where it counts no page.
pub proof fn a_manifest_speaks_for_its_own_pages(
    m: &Manifest,
    k: u64,
    found: Option<Option<PageId>>,
    under: Option<ManifestId>,
    flat: bool,
    full: bool,
    empty: bool,
)
    requires
        call_ensures(Manifest::local_lookup, (m, k), found),
        call_ensures(Manifest::overlay_base, (m,), under),
        call_ensures(Manifest::is_flat, (m,), flat),
        call_ensures(Manifest::must_flatten, (m,), full),
        call_ensures(Manifest::is_empty, (m,), empty),
    ensures
        match m@.body {
            BodyView::Flat(pages) => flat && under is None && found == Some(pages.get(k)),
            BodyView::Overlay { base, changes } => !flat && under == Some(base) && found
                == changes.get(k),
        },
        full <==> m.depth >= 8,
        empty <==> m.page_count == 0,
{
}

/// A manifest that is laid over another holds the changes alone, counts one overlay more, and names
/// the one underneath as its base and its parent; what it says of size and schema it has from there.
pub proof fn an_overlay_is_its_changes(
    base_id: ManifestId,
    base: &Manifest,
    changes: &PageChanges,
    page_count: u64,
    now: u64,
    m: Manifest,
)
    requires
        base.depth < u32::MAX,
        call_ensures(Manifest::overlay_on, (base_id, base, changes, page_count, now), m),
    ensures
        m@.body == (BodyView::Overlay { base: base_id, changes: changes@ }),
        m.parent == Some(base_id),
        m.depth == base.depth + 1,
        m.page_count == page_count && m.created_at_ms == now && m.format_version == 2,
        m.page_size == base.page_size && m.schema_version == base.schema_version,
{
}

/// A manifest that is flattened holds every page: the changed ones as they are now, without those that
/// were removed, and the others as they were. It is no overlay, and counts its pages.
pub proof fn a_flattened_manifest_is_its_pages(
    base_id: ManifestId,
    base: &Manifest,
    pages: &PageMap,
    changes: &PageChanges,
    now: u64,
    m: Manifest,
    k: u64,
)
    requires
        call_ensures(Manifest::flatten_onto, (base_id, base, pages, changes, now), m),
    ensures
        m@.body is Flat,
        m@.body->Flat_0.get(k) == (match changes@.get(k) {
            Some(changed) => changed,
            None => pages@.get(k),
        }),
        m.parent == Some(base_id),
        m.depth == 0 && m.page_count == m@.body->Flat_0.dom().len() as u64,
        m.created_at_ms == now && m.format_version == 2,
        m.page_size == base.page_size && m.schema_version == base.schema_version,
{
}

/// What is read from a text is the id that prints as it, and what cannot be read is named.
pub proof fn a_manifest_id_is_what_its_text_says(
    text: &str,
    r: Result<ManifestId, PagerError>,
    raw: Option<[u8; 32]>,
)
    requires
        call_ensures(ManifestId::from_hex, (text,), r),
        call_ensures(from_hex, (text,), raw),
    ensures
        r is Ok <==> raw is Some,
        r is Ok ==> r->Ok_0.0@ == raw->Some_0@,
        r is Err ==> r->Err_0@ == Fault::MalformedId(text@),
{
}

} // verus!
