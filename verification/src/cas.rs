//! Where pages and manifests are kept: the two store traits, and stores in memory.

use crate::error::{Fault, PagerError};
use crate::manifest::{decoded, decoding_undoes_encoding, Manifest, ManifestId, ManifestView};
use crate::hashing::array32_ext;
use crate::ordmap::{Key, OrdMap};
use crate::page::{Page, PageHasher, PageId, MAX_PAGE_SIZE};
use crate::text::hex;
use crate::vfs::Names;
use vstd::prelude::*;
use vstd::slice::slice_to_vec;

verus! {

/// A failure of what lies under a store, as against an answer of the store.
pub open spec fn is_failure(e: Fault) -> bool {
    e is Io || e is Backend
}

/// The readable pages after a page was stored: it is readable if it hashes to its id.
pub open spec fn with_page(
    pages: Map<PageId, Seq<u8>>,
    hasher: PageHasher,
    id: PageId,
    bytes: Seq<u8>,
) -> Map<PageId, Seq<u8>> {
    if hasher.id_of(bytes) == id {
        pages.insert(id, bytes)
    } else {
        pages.remove(id)
    }
}

/// The pages, among raw bytes by id, that hash to the id that they are kept under.
pub open spec fn verified(raw: Map<PageId, Seq<u8>>, hasher: PageHasher) -> Map<PageId, Seq<u8>> {
    Map::new(
        |id: PageId| raw.contains_key(id) && hasher.id_of(raw[id]) == id,
        |id: PageId| raw[id],
    )
}

/// The manifests, among stored bytes by id, that decode to something with that id.
pub open spec fn verified_manifests(raw: Map<ManifestId, Seq<u8>>) -> Map<ManifestId, ManifestView> {
    Map::new(
        |id: ManifestId|
            raw.contains_key(id) && decoded(raw[id]) is Some && decoded(raw[id]).unwrap().id() == id,
        |id: ManifestId| decoded(raw[id]).unwrap(),
    )
}

/// What a store of pages, of manifests, or of both has to show for itself.
///
/// `held_pages` are the ids that the store has something under, and `pages` those of them that
/// read back, with their bytes; likewise for manifests. On a `steady` store nothing fails. In a
/// `tidy` one no foreign file passes for a page or a manifest. A store that leaves these as they
/// are here says nothing of itself, and nothing is proved of what runs on it.
pub trait Backing: Sized {
    open spec fn inv(&self) -> bool {
        false
    }

    open spec fn steady(&self) -> bool {
        false
    }

    open spec fn tidy(&self) -> bool {
        false
    }

    /// Whether storing a manifest leaves what is there under its id as it is.
    open spec fn keeps_manifests() -> bool {
        false
    }

    open spec fn hasher(&self) -> PageHasher {
        PageHasher::Unkeyed
    }

    open spec fn held_pages(&self) -> Set<PageId> {
        Set::empty()
    }

    open spec fn pages(&self) -> Map<PageId, Seq<u8>> {
        Map::empty()
    }

    open spec fn held_manifests(&self) -> Set<ManifestId> {
        Set::empty()
    }

    open spec fn manifests(&self) -> Map<ManifestId, ManifestView> {
        Map::empty()
    }

    /// The directories that the store keeps its files under, where it has any.
    open spec fn roots(&self) -> Seq<Names> {
        Seq::empty()
    }

    /// The files and directories outside those, which the store never touches.
    open spec fn elsewhere(&self) -> (Map<Names, Seq<u8>>, Set<Names>) {
        (Map::empty(), Set::empty())
    }

    /// What reads back is there, and hashes to the id that it is kept under.
    proof fn contents_are_what_their_ids_say(&self)
        requires
            self.inv(),
        ensures
            self.pages().dom().subset_of(self.held_pages()),
            self.manifests().dom().subset_of(self.held_manifests()),
            forall|id: PageId| #[trigger]
                self.pages().contains_key(id) ==> self.hasher().id_of(self.pages()[id]) == id,
            forall|id: ManifestId| #[trigger]
                self.manifests().contains_key(id) ==> self.manifests()[id].id() == id,
    ;
}

/// The two states agree but for their pages.
pub open spec fn same_but_pages<B: Backing>(a: B, b: B) -> bool {
    &&& b.steady() == a.steady()
    &&& b.hasher() == a.hasher()
    &&& b.held_manifests() == a.held_manifests()
    &&& b.manifests() == a.manifests()
    &&& b.roots() == a.roots()
    &&& b.elsewhere() == a.elsewhere()
    &&& a.tidy() ==> b.tidy()
}

/// The two states agree but for their manifests.
pub open spec fn same_but_manifests<B: Backing>(a: B, b: B) -> bool {
    &&& b.steady() == a.steady()
    &&& b.hasher() == a.hasher()
    &&& b.held_pages() == a.held_pages()
    &&& b.pages() == a.pages()
    &&& b.roots() == a.roots()
    &&& b.elsewhere() == a.elsewhere()
    &&& a.tidy() ==> b.tidy()
}

/// The two states have the same pages.
pub open spec fn same_pages<B: Backing>(a: B, b: B) -> bool {
    b.held_pages() == a.held_pages() && b.pages() == a.pages()
}

/// The two states have the same manifests.
pub open spec fn same_manifests<B: Backing>(a: B, b: B) -> bool {
    b.held_manifests() == a.held_manifests() && b.manifests() == a.manifests()
}

/// From `a` to `b` the page was stored, or was there before.
pub open spec fn page_put<B: Backing>(a: B, b: B, id: PageId, bytes: Seq<u8>) -> bool {
    &&& b.held_pages() == a.held_pages().insert(id)
    &&& b.pages() == with_page(a.pages(), a.hasher(), id, bytes) || (a.held_pages().contains(id)
        && b.pages() == a.pages())
}

/// From `a` to `b` the manifest was stored, or was there before.
pub open spec fn manifest_put<B: Backing>(a: B, b: B, m: ManifestView) -> bool {
    &&& b.held_manifests() == a.held_manifests().insert(m.id())
    &&& b.manifests() == (if B::keeps_manifests() && a.held_manifests().contains(m.id()) {
        a.manifests()
    } else {
        a.manifests().insert(m.id(), m)
    })
}

/// Why this manifest cannot be read: one that is not there is missing, under its id; one that is
/// there does not decode, or decodes to another.
pub open spec fn unread<B: Backing>(b: B, id: ManifestId, e: Fault) -> bool {
    !b.manifests().contains_key(id) && if b.held_manifests().contains(id) {
        e is MissingManifest || e == (Fault::Codec { op: "decode"@ })
    } else {
        e == Fault::MissingManifest(hex(id.0@))
    }
}

/// Where page bytes are stored and retrieved. A page that was put and not removed is readable.
pub trait Cas: Backing {
    /// Whether bytes can be stored under an id that they do not hash to.
    open spec fn supports_raw(&self) -> bool {
        false
    }

    /// The bytes under each id, unverified, where that is supported.
    open spec fn raw(&self) -> Map<PageId, Seq<u8>> {
        Map::empty()
    }

    /// Whether a page of this length can be stored at all.
    open spec fn takes(len: nat) -> bool {
        true
    }

    /// Where unverified bytes are supported, there are some under every id that is held; and every
    /// page that is not longer than pages can be is taken.
    proof fn raw_is_what_is_held(&self)
        requires
            self.inv(),
        ensures
            self.supports_raw() ==> self.raw().dom() == self.held_pages(),
            forall|len: nat| len <= MAX_PAGE_SIZE ==> #[trigger] Self::takes(len),
    ;

    /// Stores a page. Storing it again changes nothing.
    fn put(&mut self, page: &Page) -> (r: Result<(), PagerError>)
        requires
            old(self).inv(),
        ensures
            final(self).inv(),
            same_but_pages(*old(self), *final(self)),
            match r {
                Ok(()) => page_put(*old(self), *final(self), page.spec_id(), page@),
                Err(e) => (!old(self).steady() || !Self::takes(page@.len())) && is_failure(e@) && (
                page_put(*old(self), *final(self), page.spec_id(), page@) || (final(self).held_pages() == old(self).held_pages() && final(self).pages()
                    == old(self).pages())),
            },
    ;

    /// Retrieves a page, verifying that the bytes still hash to its id.
    fn get(&self, id: PageId) -> (r: Result<Page, PagerError>)
        requires
            self.inv(),
        ensures
            match r {
                Ok(page) => self.pages().contains_key(id) && page@ == self.pages()[id]
                    && page.spec_id() == id,
                Err(e) => (!self.steady() && is_failure(e@)) || (!self.held_pages().contains(id)
                    && e@ == Fault::MissingPage(id)) || (self.held_pages().contains(id)
                    && !self.pages().contains_key(id) && (e@ matches Fault::CorruptPage {
                    expected,
                    ..
                } && expected == id)),
            },
    ;

    /// Whether the store has the page.
    fn contains(&self, id: PageId) -> (r: Result<bool, PagerError>)
        requires
            self.inv(),
        ensures
            match r {
                Ok(b) => b == self.held_pages().contains(id),
                Err(e) => !self.steady() && is_failure(e@),
            },
    ;

    /// Removes a page; removing an absent one is success.
    fn remove(&mut self, id: PageId) -> (r: Result<(), PagerError>)
        requires
            old(self).inv(),
        ensures
            final(self).inv(),
            same_but_pages(*old(self), *final(self)),
            final(self).supports_raw() == old(self).supports_raw(),
            match r {
                Ok(()) => final(self).held_pages() == old(self).held_pages().remove(id) && final(
                    self).pages() == old(self).pages().remove(id) && final(self).raw() == old(
                    self).raw().remove(id),
                Err(e) => !old(self).steady() && is_failure(e@) && final(self).held_pages()
                    == old(self).held_pages() && final(self).pages() == old(self).pages() && final(
                    self).raw() == old(self).raw(),
            },
    ;

    /// Every page in the store.
    fn list(&self) -> (r: Result<Vec<PageId>, PagerError>)
        requires
            self.inv(),
        ensures
            match r {
                Ok(out) => {
                    &&& self.steady() ==> forall|id: PageId| #[trigger]
                        self.held_pages().contains(id) ==> out@.contains(id)
                    &&& self.tidy() ==> out@.no_duplicates() && forall|id: PageId|
                        out@.contains(id) ==> #[trigger] self.held_pages().contains(id)
                },
                Err(e) => !self.steady() && is_failure(e@),
            },
    ;

    /// Stores bytes under an id that they need not hash to.
    fn put_raw(&mut self, id: PageId, bytes: &[u8]) -> (r: Result<(), PagerError>)
        requires
            old(self).inv(),
        ensures
            final(self).inv(),
            same_but_pages(*old(self), *final(self)),
            final(self).supports_raw() == old(self).supports_raw(),
            match r {
                Ok(()) => old(self).supports_raw() && final(self).raw() == old(self).raw().insert(
                    id,
                    bytes@,
                ) && final(self).held_pages() == old(self).held_pages().insert(id) && final(
                    self).pages().remove(id) == old(self).pages().remove(id),
                Err(e) => (!old(self).supports_raw() || !old(self).steady()) && is_failure(e@)
                    && final(self).raw() == old(self).raw() && final(self).held_pages() == old(
                    self).held_pages() && final(self).pages() == old(self).pages(),
            },
    ;

    /// Retrieves the bytes under an id without verifying them.
    fn get_raw(&self, id: PageId) -> (r: Result<Vec<u8>, PagerError>)
        requires
            self.inv(),
        ensures
            match r {
                Ok(bytes) => self.supports_raw() && self.raw().contains_key(id) && bytes@
                    == self.raw()[id],
                Err(e) => if self.supports_raw() {
                    (!self.steady() && is_failure(e@)) || (!self.raw().contains_key(id) && e@
                        == Fault::MissingPage(id))
                } else {
                    is_failure(e@)
                },
            },
    ;
}

/// Where manifests are persisted.
pub trait ManifestStore: Backing {
    /// Persists a manifest and returns its id. Doing it again changes nothing.
    fn put(&mut self, manifest: &Manifest) -> (r: Result<ManifestId, PagerError>)
        requires
            old(self).inv(),
        ensures
            final(self).inv(),
            same_but_manifests(*old(self), *final(self)),
            match r {
                Ok(id) => id == manifest@.id() && manifest_put(
                    *old(self),
                    *final(self),
                    manifest@,
                ),
                Err(e) => !old(self).steady() && is_failure(e@) && (manifest_put(
                    *old(self),
                    *final(self),
                    manifest@,
                ) || (final(self).held_manifests() == old(self).held_manifests() && final(
                    self).manifests() == old(self).manifests())),
            },
    ;

    /// Loads a manifest.
    fn get(&self, id: ManifestId) -> (r: Result<Manifest, PagerError>)
        requires
            self.inv(),
        ensures
            match r {
                Ok(m) => self.manifests().contains_key(id) && m@ == self.manifests()[id],
                Err(e) => (!self.steady() && is_failure(e@)) || unread(*self, id, e@),
            },
    ;

    /// Whether the store has the manifest.
    fn contains(&self, id: ManifestId) -> (r: Result<bool, PagerError>)
        requires
            self.inv(),
        ensures
            match r {
                Ok(b) => b == self.held_manifests().contains(id),
                Err(e) => !self.steady() && is_failure(e@),
            },
    ;

    /// Removes a manifest; removing an absent one is success.
    fn remove(&mut self, id: ManifestId) -> (r: Result<(), PagerError>)
        requires
            old(self).inv(),
        ensures
            final(self).inv(),
            same_but_manifests(*old(self), *final(self)),
            match r {
                Ok(()) => final(self).held_manifests() == old(self).held_manifests().remove(id)
                    && final(self).manifests() == old(self).manifests().remove(id),
                Err(e) => !old(self).steady() && is_failure(e@) && final(self).held_manifests()
                    == old(self).held_manifests() && final(self).manifests() == old(
                    self).manifests(),
            },
    ;

    /// Every manifest in the store.
    fn list(&self) -> (r: Result<Vec<ManifestId>, PagerError>)
        requires
            self.inv(),
        ensures
            match r {
                Ok(out) => {
                    &&& self.steady() ==> forall|id: ManifestId| #[trigger]
                        self.held_manifests().contains(id) ==> out@.contains(id)
                    &&& self.tidy() ==> out@.no_duplicates() && forall|id: ManifestId|
                        out@.contains(id) ==> #[trigger] self.held_manifests().contains(id)
                },
                Err(e) => !self.steady() && is_failure(e@),
            },
    ;
}

/// Pages in memory.
pub struct MemCas {
    pages: OrdMap<PageId, Vec<u8>>,
    hasher: PageHasher,
}

/// The bytes of each value of a map.
pub open spec fn bytes_by_id<K>(m: Map<K, Vec<u8>>) -> Map<K, Seq<u8>> {
    m.map_values(|v: Vec<u8>| v@)
}

impl MemCas {
    /// A new, empty store.
    pub fn new(hasher: PageHasher) -> (c: MemCas)
        ensures
            c.inv(),
            c.hasher() == hasher,
            c.held_pages() == Set::<PageId>::empty(),
            c.pages() == Map::<PageId, Seq<u8>>::empty(),
            c.raw() == Map::<PageId, Seq<u8>>::empty(),
    {
        let c = MemCas { pages: OrdMap::new(), hasher };
        assert(c.held_pages() =~= Set::<PageId>::empty());
        assert(c.pages() =~= Map::<PageId, Seq<u8>>::empty());
        assert(c.raw() =~= Map::<PageId, Seq<u8>>::empty());
        c
    }
}

impl Backing for MemCas {
    open spec fn inv(&self) -> bool {
        true
    }

    open spec fn steady(&self) -> bool {
        true
    }

    open spec fn tidy(&self) -> bool {
        true
    }

    closed spec fn hasher(&self) -> PageHasher {
        self.hasher
    }

    closed spec fn held_pages(&self) -> Set<PageId> {
        self.pages@.dom()
    }

    closed spec fn pages(&self) -> Map<PageId, Seq<u8>> {
        verified(bytes_by_id(self.pages@), self.hasher)
    }

    open spec fn held_manifests(&self) -> Set<ManifestId> {
        Set::empty()
    }

    open spec fn manifests(&self) -> Map<ManifestId, ManifestView> {
        Map::empty()
    }

    open spec fn roots(&self) -> Seq<Names> {
        Seq::empty()
    }

    open spec fn elsewhere(&self) -> (Map<Names, Seq<u8>>, Set<Names>) {
        (Map::empty(), Set::empty())
    }

    proof fn contents_are_what_their_ids_say(&self) {
    }
}

impl Cas for MemCas {
    open spec fn supports_raw(&self) -> bool {
        true
    }

    closed spec fn raw(&self) -> Map<PageId, Seq<u8>> {
        bytes_by_id(self.pages@)
    }

    proof fn raw_is_what_is_held(&self) {
        assert(self.raw().dom() =~= self.held_pages());
    }

    fn put(&mut self, page: &Page) -> (r: Result<(), PagerError>)
        ensures
            r is Ok,
            final(self).pages() == with_page(
                old(self).pages(),
                old(self).hasher(),
                page.spec_id(),
                page@,
            ),
    {
        Cas::put_raw(self, page.id(), page.as_bytes())
    }

    fn get(&self, id: PageId) -> (r: Result<Page, PagerError>) {
        match self.pages.get(&id) {
            Some(bytes) => Page::verify(&self.hasher, id, slice_to_vec(bytes.as_slice())),
            None => Err(PagerError::MissingPage(id)),
        }
    }

    fn contains(&self, id: PageId) -> (r: Result<bool, PagerError>) {
        Ok(self.pages.contains(&id))
    }

    fn remove(&mut self, id: PageId) -> (r: Result<(), PagerError>) {
        self.pages.remove(&id);
        assert(self.pages() =~= old(self).pages().remove(id));
        assert(self.held_pages() =~= old(self).held_pages().remove(id));
        assert(self.raw() =~= old(self).raw().remove(id));
        Ok(())
    }

    fn list(&self) -> (r: Result<Vec<PageId>, PagerError>)
        ensures
            r is Ok,
    {
        let out = self.pages.keys();
        proof {
            assert forall|id: PageId| #[trigger] self.held_pages().contains(
                id,
            ) implies out@.contains(id) by {
                assert(self.pages@.contains_key(id));
                let i = choose|i: int| 0 <= i < out@.len() && (#[trigger] out@[i]).ident() == id;
                assert(out@[i] == id);
            }
            assert forall|i: int, j: int|
                0 <= i < out@.len() && 0 <= j < out@.len() && i != j implies out@[i]
                != out@[j] by {
                if i < j {
                    assert(out@[i].ident() != out@[j].ident());
                } else {
                    assert(out@[j].ident() != out@[i].ident());
                }
            }
            assert forall|id: PageId|
                out@.contains(id) implies #[trigger] self.held_pages().contains(id) by {
                let i = choose|i: int| 0 <= i < out@.len() && out@[i] == id;
                assert(self.pages@.contains_key(out@[i].ident()));
            }
        }
        Ok(out)
    }

    fn put_raw(&mut self, id: PageId, bytes: &[u8]) -> (r: Result<(), PagerError>)
        ensures
            r is Ok,
            final(self).pages() == with_page(old(self).pages(), old(self).hasher(), id, bytes@),
    {
        let v = slice_to_vec(bytes);
        self.pages.insert(id, v);
        assert(self.raw() =~= old(self).raw().insert(id, bytes@));
        assert(self.held_pages() =~= old(self).held_pages().insert(id));
        assert(self.pages() =~= with_page(old(self).pages(), old(self).hasher(), id, bytes@));
        assert(self.pages().remove(id) =~= old(self).pages().remove(id));
        Ok(())
    }

    fn get_raw(&self, id: PageId) -> (r: Result<Vec<u8>, PagerError>) {
        match self.pages.get(&id) {
            Some(bytes) => Ok(slice_to_vec(bytes.as_slice())),
            None => Err(PagerError::MissingPage(id)),
        }
    }
}

/// Manifests in memory.
pub struct MemManifestStore {
    manifests: OrdMap<ManifestId, Vec<u8>>,
}

impl MemManifestStore {
    /// A new, empty store.
    pub fn new() -> (s: MemManifestStore)
        ensures
            s.inv(),
            s.held_manifests() == Set::<ManifestId>::empty(),
            s.manifests() == Map::<ManifestId, ManifestView>::empty(),
    {
        let s = MemManifestStore { manifests: OrdMap::new() };
        assert(s.held_manifests() =~= Set::<ManifestId>::empty());
        assert(s.manifests() =~= Map::<ManifestId, ManifestView>::empty());
        s
    }
}

impl Backing for MemManifestStore {
    closed spec fn inv(&self) -> bool {
        forall|id: ManifestId| #[trigger]
            self.manifests@.contains_key(id) ==> decoded(self.manifests@[id]@) is Some && decoded(
                self.manifests@[id]@,
            ).unwrap().id() == id
    }

    open spec fn steady(&self) -> bool {
        true
    }

    open spec fn tidy(&self) -> bool {
        true
    }

    open spec fn hasher(&self) -> PageHasher {
        PageHasher::Unkeyed
    }

    open spec fn held_pages(&self) -> Set<PageId> {
        Set::empty()
    }

    open spec fn pages(&self) -> Map<PageId, Seq<u8>> {
        Map::empty()
    }

    closed spec fn held_manifests(&self) -> Set<ManifestId> {
        self.manifests@.dom()
    }

    closed spec fn manifests(&self) -> Map<ManifestId, ManifestView> {
        verified_manifests(bytes_by_id(self.manifests@))
    }

    open spec fn roots(&self) -> Seq<Names> {
        Seq::empty()
    }

    open spec fn elsewhere(&self) -> (Map<Names, Seq<u8>>, Set<Names>) {
        (Map::empty(), Set::empty())
    }

    proof fn contents_are_what_their_ids_say(&self) {
    }
}

impl ManifestStore for MemManifestStore {
    fn put(&mut self, manifest: &Manifest) -> (r: Result<ManifestId, PagerError>)
        ensures
            r is Ok,
            final(self).manifests() == old(self).manifests().insert(manifest@.id(), manifest@),
    {
        let id = match manifest.id() {
            Ok(id) => id,
            Err(e) => {
                return Err(e);
            },
        };
        let bytes = match manifest.encode() {
            Ok(bytes) => bytes,
            Err(e) => {
                return Err(e);
            },
        };
        proof {
            decoding_undoes_encoding(manifest@, Seq::empty());
        }
        self.manifests.insert(id, bytes);
        assert(self.held_manifests() =~= old(self).held_manifests().insert(id));
        assert(self.manifests() =~= old(self).manifests().insert(id, manifest@));
        Ok(id)
    }

    fn get(&self, id: ManifestId) -> (r: Result<Manifest, PagerError>) {
        match self.manifests.get(&id) {
            Some(bytes) => Manifest::decode(bytes.as_slice()),
            None => Err(PagerError::MissingManifest(id.to_hex())),
        }
    }

    fn contains(&self, id: ManifestId) -> (r: Result<bool, PagerError>) {
        Ok(self.manifests.contains(&id))
    }

    fn remove(&mut self, id: ManifestId) -> (r: Result<(), PagerError>) {
        self.manifests.remove(&id);
        assert(self.manifests() =~= old(self).manifests().remove(id));
        assert(self.held_manifests() =~= old(self).held_manifests().remove(id));
        Ok(())
    }

    fn list(&self) -> (r: Result<Vec<ManifestId>, PagerError>)
        ensures
            r is Ok,
    {
        let out = self.manifests.keys();
        proof {
            assert forall|id: ManifestId| #[trigger] self.held_manifests().contains(
                id,
            ) implies out@.contains(id) by {
                assert(self.manifests@.contains_key(id));
                let i = choose|i: int| 0 <= i < out@.len() && (#[trigger] out@[i]).ident() == id;
                assert(out@[i] == id);
            }
            assert forall|i: int, j: int|
                0 <= i < out@.len() && 0 <= j < out@.len() && i != j implies out@[i]
                != out@[j] by {
                if i < j {
                    assert(out@[i].ident() != out@[j].ident());
                } else {
                    assert(out@[j].ident() != out@[i].ident());
                }
            }
            assert forall|id: ManifestId|
                out@.contains(id) implies #[trigger] self.held_manifests().contains(id) by {
                let i = choose|i: int| 0 <= i < out@.len() && out@[i] == id;
                assert(self.manifests@.contains_key(out@[i].ident()));
            }
        }
        Ok(out)
    }
}

/// A page store and a manifest store, side by side.
pub struct Parts<C: Cas, M: ManifestStore> {
    pub cas: C,
    pub manifests: M,
}

impl<C: Cas, M: ManifestStore> Backing for Parts<C, M> {
    open spec fn inv(&self) -> bool {
        self.cas.inv() && self.manifests.inv()
    }

    open spec fn steady(&self) -> bool {
        self.cas.steady() && self.manifests.steady()
    }

    open spec fn keeps_manifests() -> bool {
        M::keeps_manifests()
    }

    open spec fn tidy(&self) -> bool {
        self.cas.tidy() && self.manifests.tidy()
    }

    open spec fn hasher(&self) -> PageHasher {
        self.cas.hasher()
    }

    open spec fn held_pages(&self) -> Set<PageId> {
        self.cas.held_pages()
    }

    open spec fn pages(&self) -> Map<PageId, Seq<u8>> {
        self.cas.pages()
    }

    open spec fn held_manifests(&self) -> Set<ManifestId> {
        self.manifests.held_manifests()
    }

    open spec fn manifests(&self) -> Map<ManifestId, ManifestView> {
        self.manifests.manifests()
    }

    open spec fn roots(&self) -> Seq<Names> {
        Seq::empty()
    }

    open spec fn elsewhere(&self) -> (Map<Names, Seq<u8>>, Set<Names>) {
        (Map::empty(), Set::empty())
    }

    proof fn contents_are_what_their_ids_say(&self) {
        self.cas.contents_are_what_their_ids_say();
        self.manifests.contents_are_what_their_ids_say();
    }
}

impl<C: Cas, M: ManifestStore> Cas for Parts<C, M> {
    open spec fn supports_raw(&self) -> bool {
        self.cas.supports_raw()
    }

    open spec fn raw(&self) -> Map<PageId, Seq<u8>> {
        self.cas.raw()
    }

    open spec fn takes(len: nat) -> bool {
        C::takes(len)
    }

    proof fn raw_is_what_is_held(&self) {
        self.cas.raw_is_what_is_held();
    }

    fn put(&mut self, page: &Page) -> (r: Result<(), PagerError>) {
        self.cas.put(page)
    }

    fn get(&self, id: PageId) -> (r: Result<Page, PagerError>) {
        self.cas.get(id)
    }

    fn contains(&self, id: PageId) -> (r: Result<bool, PagerError>) {
        self.cas.contains(id)
    }

    fn remove(&mut self, id: PageId) -> (r: Result<(), PagerError>) {
        self.cas.remove(id)
    }

    fn list(&self) -> (r: Result<Vec<PageId>, PagerError>) {
        self.cas.list()
    }

    fn put_raw(&mut self, id: PageId, bytes: &[u8]) -> (r: Result<(), PagerError>) {
        self.cas.put_raw(id, bytes)
    }

    fn get_raw(&self, id: PageId) -> (r: Result<Vec<u8>, PagerError>) {
        self.cas.get_raw(id)
    }
}

impl<C: Cas, M: ManifestStore> ManifestStore for Parts<C, M> {
    fn put(&mut self, manifest: &Manifest) -> (r: Result<ManifestId, PagerError>) {
        self.manifests.put(manifest)
    }

    fn get(&self, id: ManifestId) -> (r: Result<Manifest, PagerError>) {
        self.manifests.get(id)
    }

    fn contains(&self, id: ManifestId) -> (r: Result<bool, PagerError>) {
        self.manifests.contains(id)
    }

    fn remove(&mut self, id: ManifestId) -> (r: Result<(), PagerError>) {
        self.manifests.remove(id)
    }

    fn list(&self) -> (r: Result<Vec<ManifestId>, PagerError>) {
        self.manifests.list()
    }
}

/// Both kinds of store in memory.
pub type MemStore = Parts<MemCas, MemManifestStore>;

/// A page that was stored where there was none reads back as the bytes that it is, and no other page
/// is the worse for it.
pub proof fn what_is_put_reads_back<B: Backing>(
    a: B,
    b: B,
    id: PageId,
    bytes: Seq<u8>,
    other: PageId,
)
    requires
        page_put(a, b, id, bytes),
        a.hasher().id_of(bytes) == id,
        !a.held_pages().contains(id) || a.pages().get(id) == Some(bytes),
    ensures
        b.held_pages().contains(id) && b.pages().get(id) == Some(bytes),
        other != id ==> b.pages().get(other) == a.pages().get(other) && (b.held_pages().contains(
            other,
        ) <==> a.held_pages().contains(other)),
{
}

/// A manifest that was stored where there was none reads back as it is, and no other manifest is the
/// worse for it.
pub proof fn a_manifest_that_is_put_reads_back<B: Backing>(
    a: B,
    b: B,
    m: ManifestView,
    other: ManifestId,
)
    requires
        manifest_put(a, b, m),
        !a.held_manifests().contains(m.id()) || a.manifests().get(m.id()) == Some(m),
    ensures
        b.held_manifests().contains(m.id()) && b.manifests().get(m.id()) == Some(m),
        other != m.id() ==> b.manifests().get(other) == a.manifests().get(other) && (
        b.held_manifests().contains(other) <==> a.held_manifests().contains(other)),
{
}

/// A store in memory gives a page exactly where there are bytes under the id that hash to it, and gives
/// those bytes.
pub proof fn bytes_are_a_page_where_they_hash_to_the_id(
    c: &MemCas,
    h: &PageHasher,
    id: PageId,
    bytes: &[u8],
    hashed: PageId,
    r: Result<Page, PagerError>,
)
    requires
        call_ensures(<MemCas as Cas>::get, (c, id), r),
        c.raw().contains_key(id) ==> bytes@ == c.raw()[id],
        *h == c.hasher(),
        call_ensures(PageHasher::hash, (h, bytes), hashed),
    ensures
        r is Ok <==> c.raw().contains_key(id) && hashed.0@ == id.0@,
        r is Ok ==> r->Ok_0@ == bytes@ && r->Ok_0.spec_id() == id,
        r is Err ==> (r->Err_0@ == Fault::MissingPage(id) <==> !c.raw().contains_key(id)),
{
    if hashed.0@ == id.0@ {
        array32_ext(hashed.0, id.0);
    }
}

/// A failure is an outage, and nothing else is: what a store answers of its own contents is none. A
/// manifest that is not there is named by its id.
pub proof fn an_answer_is_no_failure<B: Backing>(
    b: B,
    id: ManifestId,
    e: &PagerError,
    outage: bool,
)
    requires
        call_ensures(PagerError::is_outage, (e,), outage),
    ensures
        is_failure(e@) <==> outage,
        unread(b, id, e@) ==> !outage && !b.manifests().contains_key(id),
        unread(b, id, e@) && !b.held_manifests().contains(id) ==> e@ == Fault::MissingManifest(
            hex(id.0@),
        ),
{
}

} // verus!
