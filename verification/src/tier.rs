//! A local page store in front of object storage.
//!
//! Fetching and uploading is for whoever runs the tier: a read that misses says what to fetch, and
//! takes what was fetched. A page may be evicted only once it is confirmed to be in object storage.

use crate::cas::{is_failure, page_put, same_but_pages, same_pages, with_page, Backing, Cas};
use crate::error::{Fault, PagerError};
use crate::hotset::{all_noted, noted, one_overflows, overflows, HotSet, HotSetSnapshot};
use crate::log::after;
use crate::ordmap::{Key, OrdMap};
use crate::page::{Page, PageHasher, PageId, PageIdSet};
use crate::pager::lemma_popped;
use crate::remote::{object_path, page_key_text, RemoteTier, StoreError};
use crate::replay::one_more;
use crate::text::{decimal, to_decimal};
use vstd::prelude::*;

verus! {

/// How many fetches of one batch should be in flight at once.
pub const BATCH_FETCH_WIDTH: usize = 16;

/// Counts of what a tier did, and what it holds.
#[derive(Clone, Copy, Debug, PartialEq, Eq)]
pub struct TierStats {
    /// Reads served from the local store.
    pub hits: u64,
    /// Reads that had to go to object storage.
    pub misses: u64,
    /// Pages uploaded.
    pub uploads: u64,
    /// Pages evicted from the local store.
    pub evictions: u64,
    /// Bytes held locally.
    pub local_bytes: u64,
    /// Pages known to be in object storage.
    pub durable: u64,
    /// Pages that are not confirmed to be there yet, and cannot be evicted.
    pub pending_upload: u64,
}

/// What the tier knows of its pages.
#[verifier::ext_equal]
pub struct TierView {
    /// Pages that are confirmed to be in object storage.
    pub durable: Set<PageId>,
    /// Pages that are not.
    pub pending: Set<PageId>,
    /// When each page was last used.
    pub touched: Map<PageId, u64>,
    /// How large each page is.
    pub sizes: Map<PageId, u64>,
    /// The bytes held locally.
    pub local_bytes: u64,
    /// The time of the last use.
    pub clock: u64,
    pub hits: u64,
    pub misses: u64,
    pub uploads: u64,
    pub evictions: u64,
}

/// A sum, as far as the machine's integers go.
pub open spec fn plus(a: u64, b: u64) -> u64 {
    if a + b <= u64::MAX {
        (a + b) as u64
    } else {
        u64::MAX
    }
}

/// A difference, or zero.
pub open spec fn less(a: u64, b: u64) -> u64 {
    if a >= b {
        (a - b) as u64
    } else {
        0
    }
}

/// A page of this size was used.
pub open spec fn used(v: TierView, id: PageId, size: u64) -> TierView {
    TierView {
        clock: after(v.clock),
        touched: v.touched.insert(id, after(v.clock)),
        sizes: v.sizes.insert(id, size),
        local_bytes: if v.sizes.contains_key(id) {
            v.local_bytes
        } else {
            plus(v.local_bytes, size)
        },
        ..v
    }
}

/// A page is confirmed to be in object storage.
pub open spec fn confirmed(v: TierView, id: PageId) -> TierView {
    TierView { durable: v.durable.insert(id), pending: v.pending.remove(id), ..v }
}

/// A page is no longer held locally.
pub open spec fn forgotten(v: TierView, id: PageId) -> TierView {
    TierView {
        durable: v.durable.remove(id),
        touched: v.touched.remove(id),
        sizes: v.sizes.remove(id),
        local_bytes: if v.sizes.contains_key(id) {
            less(v.local_bytes, v.sizes[id])
        } else {
            v.local_bytes
        },
        ..v
    }
}

/// A page was found locally.
pub open spec fn hit(v: TierView, id: PageId, size: u64) -> TierView {
    let u = used(v, id, size);
    TierView { hits: after(u.hits), ..u }
}

/// A page was fetched, and is held locally now.
pub open spec fn filled(v: TierView, id: PageId, size: u64) -> TierView {
    used(confirmed(v, id), id, size)
}

/// What a read gives: what is held locally or else, if it hashes to the id, what was fetched.
pub open spec fn answer(
    pages: Map<PageId, Seq<u8>>,
    hasher: PageHasher,
    id: PageId,
    fetched: Option<Seq<u8>>,
) -> Option<Seq<u8>> {
    if pages.contains_key(id) {
        Some(pages[id])
    } else {
        match fetched {
            Some(bytes) => if hasher.id_of(bytes) == id {
                Some(bytes)
            } else {
                None
            },
            None => None,
        }
    }
}

/// Where a read stands after the local store was asked.
pub enum Lookup {
    /// The page is held locally.
    Hit(Page),
    /// The object with this key has to be fetched.
    Fetch(String),
}

/// A local store with object storage behind it.
pub struct TieredCas<C: Cas> {
    local: C,
    remote: RemoteTier,
    hasher: PageHasher,
    durable: PageIdSet,
    pending: PageIdSet,
    touched: OrdMap<PageId, u64>,
    sizes: OrdMap<PageId, u64>,
    local_bytes: u64,
    clock: u64,
    hits: u64,
    misses: u64,
    uploads: u64,
    evictions: u64,
    hot_set: HotSet,
}

/// The optional bytes of a fetch.
pub open spec fn bytes_of(v: Option<Vec<u8>>) -> Option<Seq<u8>> {
    match v {
        Some(b) => Some(b@),
        None => None,
    }
}

impl<C: Cas> TieredCas<C> {
    /// The local store.
    pub closed spec fn spec_local(&self) -> C {
        self.local
    }

    /// The pool.
    pub closed spec fn spec_pool(&self) -> Seq<char> {
        self.remote@
    }

    /// How pages are identified.
    pub closed spec fn spec_hasher(&self) -> PageHasher {
        self.hasher
    }

    /// What was fetched, for the next wake.
    pub closed spec fn spec_hot_set(&self) -> HotSet {
        self.hot_set
    }

    /// What the tier knows of its pages.
    pub closed spec fn tier(&self) -> TierView {
        TierView {
            durable: self.durable@.dom(),
            pending: self.pending@.dom(),
            touched: self.touched@,
            sizes: self.sizes@,
            local_bytes: self.local_bytes,
            clock: self.clock,
            hits: self.hits,
            misses: self.misses,
            uploads: self.uploads,
            evictions: self.evictions,
        }
    }

    /// The local store and the warm set keep their rules.
    pub open spec fn wf(&self) -> bool {
        self.spec_local().inv() && self.spec_hot_set().wf()
    }

    /// The pool and the hasher are the same.
    pub open spec fn same_place(&self, other: &Self) -> bool {
        other.spec_pool() == self.spec_pool() && other.spec_hasher() == self.spec_hasher()
    }

    /// Puts a local store in front of object storage.
    pub fn new(local: C, remote: RemoteTier, hasher: PageHasher) -> (t: TieredCas<C>)
        requires
            local.inv(),
        ensures
            t.wf(),
            t.spec_local() == local,
            t.spec_pool() == remote@,
            t.spec_hasher() == hasher,
            t.tier() == fresh(),
            t.spec_hot_set().spec_cap() == 0,
    {
        TieredCas::with_hot_set(local, remote, hasher, HotSet::new(0))
    }

    /// The same, with a record of what is fetched.
    pub fn with_hot_set(local: C, remote: RemoteTier, hasher: PageHasher, hot_set: HotSet) -> (t:
        TieredCas<C>)
        requires
            local.inv(),
            hot_set.wf(),
        ensures
            t.wf(),
            t.spec_local() == local,
            t.spec_pool() == remote@,
            t.spec_hasher() == hasher,
            t.tier() == fresh(),
            t.spec_hot_set() == hot_set,
    {
        let t = TieredCas {
            local,
            remote,
            hasher,
            durable: OrdMap::new(),
            pending: OrdMap::new(),
            touched: OrdMap::new(),
            sizes: OrdMap::new(),
            local_bytes: 0,
            clock: 0,
            hits: 0,
            misses: 0,
            uploads: 0,
            evictions: 0,
            hot_set,
        };
        assert(t.tier() =~= fresh());
        t
    }

    /// The counts.
    pub fn stats(&self) -> (s: TierStats)
        ensures
            s == stats_of(self.tier()),
    {
        TierStats {
            hits: self.hits,
            misses: self.misses,
            uploads: self.uploads,
            evictions: self.evictions,
            local_bytes: self.local_bytes,
            durable: self.durable.len() as u64,
            pending_upload: self.pending.len() as u64,
        }
    }

    /// The pool.
    pub fn pool(&self) -> (p: &str)
        ensures
            p@ == self.spec_pool(),
    {
        self.remote.pool()
    }

    /// The local store.
    pub fn local(&self) -> (c: &C)
        ensures
            *c == self.spec_local(),
    {
        &self.local
    }

    /// What was fetched so far.
    pub fn warm_set(&self) -> (s: HotSetSnapshot)
        ensures
            s.pages@ == self.spec_hot_set().spec_pages(),
            s.manifests@ == self.spec_hot_set().spec_manifests(),
    {
        self.hot_set.snapshot()
    }

    fn touch(&mut self, id: PageId, size: u64)
        ensures
            final(self).spec_local() == old(self).spec_local(),
            final(self).spec_hot_set() == old(self).spec_hot_set(),
            old(self).same_place(final(self)),
            final(self).tier() == used(old(self).tier(), id, size),
    {
        self.clock = one_more(self.clock);
        self.touched.insert(id, self.clock);
        if !self.sizes.contains(&id) {
            self.local_bytes = match self.local_bytes.checked_add(size) {
                Some(n) => n,
                None => u64::MAX,
            };
        }
        self.sizes.insert(id, size);
        assert(self.tier() =~= used(old(self).tier(), id, size));
    }

    fn confirm(&mut self, id: PageId)
        ensures
            final(self).spec_local() == old(self).spec_local(),
            final(self).spec_hot_set() == old(self).spec_hot_set(),
            old(self).same_place(final(self)),
            final(self).tier() == confirmed(old(self).tier(), id),
    {
        self.durable.insert(id, ());
        self.pending.remove(&id);
        assert(self.tier() =~= confirmed(old(self).tier(), id));
    }

    fn forget(&mut self, id: PageId) -> (size: u64)
        ensures
            final(self).spec_local() == old(self).spec_local(),
            final(self).spec_hot_set() == old(self).spec_hot_set(),
            old(self).same_place(final(self)),
            final(self).tier() == forgotten(old(self).tier(), id),
            size == size_of(old(self).tier(), id),
    {
        let size: u64 = match self.sizes.get(&id) {
            Some(s) => *s,
            None => 0,
        };
        if self.sizes.contains(&id) {
            self.local_bytes = if self.local_bytes >= size {
                self.local_bytes - size
            } else {
                0
            };
        }
        self.durable.remove(&id);
        self.touched.remove(&id);
        self.sizes.remove(&id);
        assert(self.tier() =~= forgotten(old(self).tier(), id));
        size
    }

    /// Starts a read: the page, if it is held locally, or else the key to fetch.
    pub fn begin_get(&mut self, id: PageId) -> (r: Result<Lookup, PagerError>)
        requires
            old(self).wf(),
        ensures
            final(self).wf(),
            final(self).spec_local() == old(self).spec_local(),
            final(self).spec_hot_set() == old(self).spec_hot_set(),
            old(self).same_place(final(self)),
            ({
                let c = old(self).spec_local();
                let v = old(self).tier();
                match r {
                    Ok(Lookup::Hit(p)) => c.pages().contains_key(id) && p@ == c.pages()[id]
                        && p.spec_id() == id && final(self).tier() == hit(v, id, p@.len() as u64)
                        && final(self).tier().sizes.get(id) == Some(p@.len() as u64),
                    Ok(Lookup::Fetch(key)) => !c.held_pages().contains(id) && key@ == object_path(
                        page_key_text(old(self).spec_pool(), id),
                    ) && final(self).tier() == (TierView { misses: after(v.misses), ..v }),
                    Err(e) => final(self).tier() == v && ((!c.steady() && is_failure(e@)) || (
                    c.held_pages().contains(id) && !c.pages().contains_key(id) && (
                    e@ matches Fault::CorruptPage { expected, .. } && expected == id))),
                }
            }),
    {
        match self.local.get(id) {
            Ok(page) => {
                let n: u64 = page.len() as u64;
                self.touch(id, n);
                self.hits = one_more(self.hits);
                assert(self.tier() =~= hit(old(self).tier(), id, n));
                Ok(Lookup::Hit(page))
            },
            Err(e) => {
                if e.is_missing_page() {
                    self.misses = one_more(self.misses);
                    return Ok(Lookup::Fetch(self.remote.page_key(id)));
                }
                Err(e)
            },
        }
    }

    /// Finishes a read with what was fetched. Bytes that do not hash to the id are never kept nor
    /// given out; good ones are kept, and may be evicted at once.
    pub fn finish_get(&mut self, id: PageId, fetched: Option<Vec<u8>>) -> (r: Result<
        Page,
        PagerError,
    >)
        requires
            old(self).wf(),
        ensures
            final(self).wf(),
            same_but_pages(old(self).spec_local(), final(self).spec_local()),
            old(self).same_place(final(self)),
            ({
                let (c, d) = (old(self).spec_local(), final(self).spec_local());
                let v = old(self).tier();
                let h = old(self).spec_hasher();
                match (fetched, r) {
                    (Some(bytes), Ok(p)) => h.id_of(bytes@) == id && p@ == bytes@ && p.spec_id()
                        == id && page_put(c, d, id, bytes@) && final(self).tier() == filled(
                        v,
                        id,
                        bytes@.len() as u64,
                    ) && final(self).tier().sizes.get(id) == Some(bytes@.len() as u64) && noted_page(old(self).spec_hot_set(), final(self).spec_hot_set(), id),
                    (Some(bytes), Err(e)) => final(self).tier() == v && final(self).spec_hot_set()
                        == old(self).spec_hot_set() && if h.id_of(bytes@) == id {
                        (!c.steady() || !C::takes(bytes@.len())) && is_failure(e@) && (
                        page_put(c, d, id, bytes@) || same_pages(c, d))
                    } else {
                        d == c && e@ == (Fault::CorruptPage {
                            expected: id,
                            actual: h.id_of(bytes@),
                            len: bytes@.len(),
                        })
                    },
                    (None, _) => d == c && final(self).tier() == v && final(self).spec_hot_set()
                        == old(self).spec_hot_set() && (r matches Err(e) && e@
                        == Fault::MissingPage(id)),
                }
            }),
    {
        let bytes = match fetched {
            Some(b) => b,
            None => {
                return Err(PagerError::MissingPage(id));
            },
        };
        let page = match verified_page(&self.hasher, id, bytes) {
            Ok(p) => p,
            Err(e) => {
                return Err(e);
            },
        };
        match self.local.put(&page) {
            Ok(()) => {},
            Err(e) => {
                return Err(e);
            },
        }
        self.confirm(id);
        self.touch(id, page.len() as u64);
        self.hot_set.record_page(id);
        Ok(page)
    }

    /// Stores a page locally. It cannot be evicted before it is confirmed to be in object storage.
    pub fn put(&mut self, page: &Page) -> (r: Result<(), PagerError>)
        requires
            old(self).wf(),
        ensures
            final(self).wf(),
            same_but_pages(old(self).spec_local(), final(self).spec_local()),
            old(self).same_place(final(self)),
            final(self).spec_hot_set() == old(self).spec_hot_set(),
            match r {
                Ok(()) => page_put(
                    old(self).spec_local(),
                    final(self).spec_local(),
                    page.spec_id(),
                    page@,
                ) && final(self).tier() == used(
                    TierView {
                        pending: if old(self).tier().durable.contains(page.spec_id()) {
                            old(self).tier().pending
                        } else {
                            old(self).tier().pending.insert(page.spec_id())
                        },
                        ..old(self).tier()
                    },
                    page.spec_id(),
                    page@.len() as u64,
                ) && final(self).tier().sizes.get(page.spec_id()) == Some(page@.len() as u64),
                Err(e) => final(self).tier() == old(self).tier() && (!old(
                    self).spec_local().steady() || !C::takes(page@.len())) && is_failure(e@)
                    && (page_put(
                    old(self).spec_local(),
                    final(self).spec_local(),
                    page.spec_id(),
                    page@,
                ) || same_pages(old(self).spec_local(), final(self).spec_local())),
            },
    {
        match self.local.put(page) {
            Ok(()) => {},
            Err(e) => {
                return Err(e);
            },
        }
        let id = page.id();
        let ghost v = self.tier();
        if !self.durable.contains(&id) {
            self.pending.insert(id, ());
        }
        assert(self.tier() =~= (TierView {
            pending: if v.durable.contains(id) {
                v.pending
            } else {
                v.pending.insert(id)
            },
            ..v
        }));
        self.touch(id, page.len() as u64);
        Ok(())
    }

    /// Whether the page is held locally, or known to be in object storage.
    pub fn contains(&self, id: PageId) -> (r: Result<bool, PagerError>)
        requires
            self.wf(),
        ensures
            match r {
                Ok(b) => b == (self.spec_local().held_pages().contains(id)
                    || self.tier().durable.contains(id)),
                Err(e) => !self.spec_local().steady() && is_failure(e@),
            },
    {
        match self.local.contains(id) {
            Ok(true) => Ok(true),
            Ok(false) => Ok(self.durable.contains(&id)),
            Err(e) => Err(e),
        }
    }

    /// Removes a page locally. What is in object storage stays: a sleeping database may need it.
    pub fn remove(&mut self, id: PageId) -> (r: Result<(), PagerError>)
        requires
            old(self).wf(),
        ensures
            final(self).wf(),
            same_but_pages(old(self).spec_local(), final(self).spec_local()),
            old(self).same_place(final(self)),
            final(self).spec_hot_set() == old(self).spec_hot_set(),
            match r {
                Ok(()) => final(self).spec_local().held_pages() == old(
                    self).spec_local().held_pages().remove(id) && final(self).spec_local().pages()
                    == old(self).spec_local().pages().remove(id) && final(self).tier() == forgotten(
                    TierView { pending: old(self).tier().pending.remove(id), ..old(self).tier() },
                    id,
                ),
                Err(e) => final(self).tier() == old(self).tier() && !old(
                    self).spec_local().steady() && is_failure(e@) && same_pages(
                    old(self).spec_local(),
                    final(self).spec_local(),
                ),
            },
    {
        match self.local.remove(id) {
            Ok(()) => {},
            Err(e) => {
                return Err(e);
            },
        }
        let ghost v = self.tier();
        self.pending.remove(&id);
        assert(self.tier() =~= (TierView { pending: v.pending.remove(id), ..v }));
        let _ = self.forget(id);
        Ok(())
    }

    /// Every page that is held locally.
    pub fn list(&self) -> (r: Result<Vec<PageId>, PagerError>)
        requires
            self.wf(),
        ensures
            match r {
                Ok(out) => {
                    &&& self.spec_local().steady() ==> forall|id: PageId| #[trigger]
                        self.spec_local().held_pages().contains(id) ==> out@.contains(id)
                    &&& self.spec_local().tidy() ==> out@.no_duplicates() && forall|id: PageId|
                        out@.contains(id) ==> #[trigger] self.spec_local().held_pages().contains(id)
                },
                Err(e) => !self.spec_local().steady() && is_failure(e@),
            },
    {
        self.local.list()
    }

    /// The pages that still have to be uploaded.
    pub fn pending_uploads(&self) -> (out: Vec<PageId>)
        ensures
            out@.no_duplicates(),
            forall|id: PageId| #[trigger] out@.contains(id) <==> self.tier().pending.contains(id),
    {
        let out = self.pending.keys();
        proof {
            lemma_keys(out@, self.pending@);
        }
        out
    }

    /// The key and the bytes of an upload. The local copy is the only one.
    pub fn upload_of(&self, id: PageId) -> (r: Result<(String, Vec<u8>), PagerError>)
        requires
            self.wf(),
        ensures
            match r {
                Ok((key, bytes)) => self.spec_local().pages().contains_key(id) && bytes@
                    == self.spec_local().pages()[id] && key@ == object_path(
                    page_key_text(self.spec_pool(), id),
                ),
                Err(e) => (!self.spec_local().steady() && is_failure(e@)) || (
                !self.spec_local().pages().contains_key(id)
                    && if self.spec_local().held_pages().contains(id) {
                    e@ is CorruptPage
                } else {
                    e@ == Fault::MissingPage(id)
                }),
            },
    {
        proof {
            self.local.contents_are_what_their_ids_say();
        }
        match self.local.get(id) {
            Ok(page) => Ok((self.remote.page_key(id), page.into_bytes())),
            Err(e) => Err(e),
        }
    }

    /// An upload was confirmed.
    pub fn uploaded(&mut self, id: PageId)
        requires
            old(self).wf(),
        ensures
            final(self).wf(),
            final(self).spec_local() == old(self).spec_local(),
            final(self).spec_hot_set() == old(self).spec_hot_set(),
            old(self).same_place(final(self)),
            final(self).tier() == (TierView {
                uploads: after(old(self).tier().uploads),
                ..confirmed(old(self).tier(), id)
            }),
    {
        self.confirm(id);
        self.uploads = one_more(self.uploads);
    }
}

/// A tier that has seen nothing.
pub open spec fn fresh() -> TierView {
    TierView {
        durable: Set::empty(),
        pending: Set::empty(),
        touched: Map::empty(),
        sizes: Map::empty(),
        local_bytes: 0,
        clock: 0,
        hits: 0,
        misses: 0,
        uploads: 0,
        evictions: 0,
    }
}

/// The counts of a tier.
pub open spec fn stats_of(v: TierView) -> TierStats {
    TierStats {
        hits: v.hits,
        misses: v.misses,
        uploads: v.uploads,
        evictions: v.evictions,
        local_bytes: v.local_bytes,
        durable: v.durable.len() as u64,
        pending_upload: v.pending.len() as u64,
    }
}

/// The size of a page, if it is known.
pub open spec fn size_of(v: TierView, id: PageId) -> u64 {
    if v.sizes.contains_key(id) {
        v.sizes[id]
    } else {
        0
    }
}

/// A page was noted in the warm set.
pub open spec fn noted_page(a: HotSet, b: HotSet, id: PageId) -> bool {
    &&& b.spec_pages() == noted(a.spec_pages(), id, a.spec_cap())
    &&& b.spec_manifests() == a.spec_manifests()
    &&& b.spec_cap() == a.spec_cap()
    &&& b.spec_saturated() == (a.spec_saturated() || overflows(a.spec_pages(), id, a.spec_cap()))
}

/// Pages were noted in the warm set, in turn.
pub open spec fn noted_pages(a: HotSet, b: HotSet, ids: Seq<PageId>) -> bool {
    &&& b.spec_pages() == all_noted(a.spec_pages(), ids, a.spec_cap())
    &&& b.spec_manifests() == a.spec_manifests()
    &&& b.spec_cap() == a.spec_cap()
    &&& b.spec_saturated() == (a.spec_saturated() || one_overflows(
        a.spec_pages(),
        ids,
        a.spec_cap(),
    ))
}

/// Two stores have the same under an id, or both have nothing.
pub open spec fn same_at(a: Map<PageId, Seq<u8>>, b: Map<PageId, Seq<u8>>, id: PageId) -> bool {
    &&& a.contains_key(id) <==> b.contains_key(id)
    &&& a.contains_key(id) ==> a[id] == b[id]
}

/// From `c` to `d` these pages were stored with these bytes, or were there before.
pub open spec fn pages_put<B: Backing>(c: B, d: B, ids: Seq<PageId>, bytes: Seq<Seq<u8>>) -> bool {
    &&& d.held_pages() == c.held_pages().union(ids.to_set())
    &&& forall|id: PageId| !ids.contains(id) ==> #[trigger] same_at(d.pages(), c.pages(), id)
    &&& forall|k: int|
        0 <= k < ids.len() ==> same_at(
            d.pages(),
            with_page(c.pages(), c.hasher(), #[trigger] ids[k], bytes[k]),
            ids[k],
        ) || (c.held_pages().contains(ids[k]) && same_at(d.pages(), c.pages(), ids[k]))
}

/// Checks what was fetched before anything is done with it.
fn verified_page(hasher: &PageHasher, id: PageId, bytes: Vec<u8>) -> (r: Result<Page, PagerError>)
    ensures
        match r {
            Ok(p) => hasher.id_of(bytes@) == id && p@ == bytes@ && p.spec_id() == id,
            Err(e) => hasher.id_of(bytes@) != id && e@ == (Fault::CorruptPage {
                expected: id,
                actual: hasher.id_of(bytes@),
                len: bytes@.len(),
            }),
        },
{
    let n: usize = bytes.len();
    let page = match Page::new(hasher, bytes, usize::MAX) {
        Ok(p) => p,
        Err(e) => {
            return Err(e);
        },
    };
    if page.id() != id {
        return Err(PagerError::CorruptPage { expected: id, actual: page.id(), len: n });
    }
    Ok(page)
}

/// The keys of a set of pages, as a list.
proof fn lemma_keys<T>(out: Seq<PageId>, m: Map<PageId, T>)
    requires
        forall|i: int| 0 <= i < out.len() ==> m.contains_key((#[trigger] out[i]).ident()),
        forall|id: PageId| #[trigger]
            m.contains_key(id) ==> exists|i: int|
                0 <= i < out.len() && (#[trigger] out[i]).ident() == id,
        forall|i: int, j: int|
            0 <= i < j < out.len() ==> (#[trigger] out[i]).ident() != (#[trigger] out[j]).ident(),
    ensures
        out.no_duplicates(),
        forall|id: PageId| #[trigger] out.contains(id) <==> m.contains_key(id),
{
    assert forall|id: PageId| #[trigger] out.contains(id) <==> m.contains_key(id) by {
        if m.contains_key(id) {
            let i = choose|i: int| 0 <= i < out.len() && (#[trigger] out[i]).ident() == id;
            assert(out[i] == id);
        }
        if out.contains(id) {
            let i = choose|i: int| 0 <= i < out.len() && out[i] == id;
            assert(out[i].ident() == id);
        }
    }
    assert forall|i: int, j: int| 0 <= i < out.len() && 0 <= j < out.len() && i
        != j implies out[i] != out[j] by {
        if i < j {
            assert(out[i].ident() != out[j].ident());
        } else {
            assert(out[j].ident() != out[i].ident());
        }
    }
}

// ---------------------------------------------------------------------------------------------
// Batches.
// ---------------------------------------------------------------------------------------------

/// The tier after the local store was asked for each of the pages, once each.
pub open spec fn begun(v: TierView, pages: Map<PageId, Seq<u8>>, ids: Seq<PageId>) -> TierView
    decreases ids.len(),
{
    if ids.len() == 0 {
        v
    } else {
        let u = begun(v, pages, ids.drop_last());
        let id = ids.last();
        if ids.drop_last().contains(id) || !pages.contains_key(id) {
            u
        } else {
            hit(u, id, pages[id].len() as u64)
        }
    }
}

/// The tier after these pages were fetched and kept.
pub open spec fn all_filled(v: TierView, ids: Seq<PageId>, fetched: Seq<Seq<u8>>) -> TierView
    decreases ids.len(),
{
    if ids.len() == 0 {
        v
    } else {
        filled(
            all_filled(v, ids.drop_last(), fetched.drop_last()),
            ids.last(),
            fetched.last().len() as u64,
        )
    }
}

/// The page is held, and does not read back.
pub open spec fn damaged<B: Backing>(b: B, id: PageId) -> bool {
    b.held_pages().contains(id) && !b.pages().contains_key(id)
}

/// None of these pages is damaged.
pub open spec fn none_damaged<B: Backing>(b: B, ids: Seq<PageId>) -> bool {
    forall|i: int| 0 <= i < ids.len() ==> !damaged(b, #[trigger] ids[i])
}

/// Many reads at once: the pages that are held locally, and those that have to be fetched.
pub struct Batch {
    ids: Vec<PageId>,
    found: OrdMap<PageId, Page>,
    to_fetch: Vec<PageId>,
}

impl Batch {
    /// The pages that were asked for, in order.
    pub closed spec fn spec_ids(&self) -> Seq<PageId> {
        self.ids@
    }

    /// The pages that were found.
    pub closed spec fn spec_found(&self) -> Map<PageId, Page> {
        self.found@
    }

    /// The pages that have to be fetched.
    pub closed spec fn spec_to_fetch(&self) -> Seq<PageId> {
        self.to_fetch@
    }

    /// Every page that was asked for was found or has to be fetched; nothing else was, or has to
    /// be, and nothing has to be fetched twice.
    pub open spec fn wf(&self) -> bool {
        &&& self.spec_to_fetch().no_duplicates()
        &&& forall|id: PageId| #[trigger]
            self.spec_ids().contains(id) <==> self.spec_found().contains_key(id)
                || self.spec_to_fetch().contains(id)
        &&& forall|id: PageId| #[trigger]
            self.spec_found().contains_key(id) ==> self.spec_found()[id].spec_id() == id
                && !self.spec_to_fetch().contains(id)
    }

    /// The pages that have to be fetched, each once.
    pub fn to_fetch(&self) -> (v: &Vec<PageId>)
        ensures
            v@ == self.spec_to_fetch(),
    {
        &self.to_fetch
    }
}

/// The page that a batch gives for an id.
pub open spec fn batch_answer(b: Batch, fetched: Seq<Option<Vec<u8>>>, id: PageId, got: Seq<u8>) -> bool {
    if b.spec_found().contains_key(id) {
        got == b.spec_found()[id]@
    } else {
        exists|k: int|
            0 <= k < b.spec_to_fetch().len() && #[trigger] b.spec_to_fetch()[k] == id && bytes_of(
                fetched[k],
            ) == Some(got)
    }
}

/// Every fetched object is there and hashes to its id.
pub open spec fn all_good(
    hasher: PageHasher,
    ids: Seq<PageId>,
    fetched: Seq<Option<Vec<u8>>>,
) -> bool {
    forall|k: int|
        0 <= k < ids.len() ==> (bytes_of(#[trigger] fetched[k]) matches Some(b) && hasher.id_of(b)
            == ids[k])
}

/// What a fetch is answered in which something is missing or damaged: the first that is missing
/// or, where none is, the first that is damaged.
pub open spec fn refused(
    hasher: PageHasher,
    ids: Seq<PageId>,
    fetched: Seq<Option<Vec<u8>>>,
    e: Fault,
) -> bool {
    exists|k: int|
        0 <= k < ids.len() && (match bytes_of(#[trigger] fetched[k]) {
            None => (forall|j: int| 0 <= j < k ==> (#[trigger] fetched[j]) is Some) && e
                == Fault::MissingPage(ids[k]),
            Some(b) => {
                &&& forall|j: int| 0 <= j < fetched.len() ==> (#[trigger] fetched[j]) is Some
                &&& forall|j: int|
                    0 <= j < k ==> hasher.id_of(bytes_of(#[trigger] fetched[j]).unwrap()) == ids[j]
                &&& hasher.id_of(b) != ids[k]
                &&& e == (Fault::CorruptPage {
                    expected: ids[k],
                    actual: hasher.id_of(b),
                    len: b.len(),
                })
            },
        })
}

/// The bytes of fetches that all gave something.
pub open spec fn bytes_of_all(fetched: Seq<Option<Vec<u8>>>) -> Seq<Seq<u8>> {
    fetched.map_values(|o: Option<Vec<u8>>| bytes_of(o).unwrap())
}

impl<C: Cas> TieredCas<C> {
    /// Starts many reads: serves what is held locally, and lists what has to be fetched, each
    /// object once.
    pub fn begin_batch(&mut self, ids: &[PageId]) -> (r: Result<Batch, PagerError>)
        requires
            old(self).wf(),
        ensures
            final(self).wf(),
            final(self).spec_local() == old(self).spec_local(),
            final(self).spec_hot_set() == old(self).spec_hot_set(),
            old(self).same_place(final(self)),
            ({
                let c = old(self).spec_local();
                let v = begun(old(self).tier(), c.pages(), ids@);
                match r {
                    Ok(b) => {
                        &&& b.wf()
                        &&& b.spec_ids() == ids@
                        &&& forall|id: PageId| #[trigger]
                            b.spec_found().contains_key(id) ==> c.pages().contains_key(id)
                                && b.spec_found()[id]@ == c.pages()[id]
                        &&& forall|id: PageId| #[trigger]
                            b.spec_to_fetch().contains(id) ==> !c.held_pages().contains(id)
                        &&& final(self).tier() == (TierView {
                            misses: plus(v.misses, b.spec_to_fetch().len() as u64),
                            ..v
                        })
                    },
                    Err(e) => exists|i: int|
                        0 <= i < ids@.len() && final(self).tier() == begun(
                            old(self).tier(),
                            c.pages(),
                            #[trigger] ids@.take(i),
                        ) && none_damaged(c, ids@.take(i)) && ((!c.steady() && is_failure(e@)) || (
                        damaged(c, ids@[i]) && (e@ matches Fault::CorruptPage { expected, .. }
                            && expected == ids@[i]))),
                }
            }),
    {
        let ghost c = self.local;
        let ghost v0 = self.tier();
        let mut found: OrdMap<PageId, Page> = OrdMap::new();
        let mut to_fetch: Vec<PageId> = Vec::new();
        let mut seen: PageIdSet = OrdMap::new();
        let mut i: usize = 0;
        proof {
            c.contents_are_what_their_ids_say();
            assert(ids@.take(0) =~= Seq::empty());
        }
        while i < ids.len()
            invariant
                i <= ids@.len(),
                self.wf(),
                c == old(self).local,
                self.local == c,
                c.inv(),
                c.pages().dom().subset_of(c.held_pages()),
                self.hot_set == old(self).hot_set,
                old(self).same_place(self),
                v0 == old(self).tier(),
                self.tier() == begun(v0, c.pages(), ids@.take(i as int)),
                self.tier().durable == v0.durable,
                self.tier().pending == v0.pending,
                to_fetch@.no_duplicates(),
                forall|id: PageId| #[trigger]
                    seen@.contains_key(id) <==> ids@.take(i as int).contains(id),
                forall|id: PageId| #[trigger]
                    seen@.contains_key(id) <==> found@.contains_key(id) || to_fetch@.contains(id),
                forall|id: PageId| #[trigger]
                    found@.contains_key(id) ==> c.pages().contains_key(id) && found@[id]@
                        == c.pages()[id] && found@[id].spec_id() == id && !to_fetch@.contains(id),
                forall|id: PageId| #[trigger]
                    to_fetch@.contains(id) ==> !c.held_pages().contains(id),
            decreases ids@.len() - i,
        {
            let id = ids[i];
            let ghost (done, upto) = (ids@.take(i as int), ids@.take(i + 1));
            let ghost wanted = to_fetch@;
            proof {
                assert(upto.drop_last() =~= done);
                assert(upto.last() == id);
                assert(upto =~= done.push(id));
                lemma_one_more(done, id);
            }
            if !seen.contains(&id) {
                assert forall|k: int| 0 <= k < done.len() implies !damaged(c, #[trigger] done[k]) by {
                    assert(done.contains(done[k]));
                    assert(seen@.contains_key(done[k]));
                }
                seen.insert(id, ());
                match self.local.get(id) {
                    Ok(page) => {
                        self.touch(id, page.len() as u64);
                        self.hits = one_more(self.hits);
                        found.insert(id, page);
                    },
                    Err(e) => {
                        if !e.is_missing_page() {
                            assert(self.tier() == begun(v0, c.pages(), done));
                            return Err(e);
                        }
                        to_fetch.push(id);
                        proof {
                            lemma_one_more(wanted, id);
                        }
                    },
                }
            }
            i = i + 1;
        }
        assert(ids@.take(i as int) =~= ids@);
        let n: u64 = to_fetch.len() as u64;
        self.misses = match self.misses.checked_add(n) {
            Some(m) => m,
            None => u64::MAX,
        };
        let b = Batch { ids: vstd::slice::slice_to_vec(ids), found, to_fetch };
        proof {
            assert(b.spec_ids() == ids@);
            assert forall|id: PageId| #[trigger]
                b.spec_ids().contains(id) <==> b.spec_found().contains_key(id)
                    || b.spec_to_fetch().contains(id) by {
                assert(seen@.contains_key(id) <==> ids@.contains(id));
            }
            assert(b.wf());
        }
        Ok(b)
    }

    /// Finishes many reads with what was fetched. Every object is checked before any is kept: one
    /// that is missing or damaged fails the whole batch, and nothing has changed then.
    pub fn finish_batch(&mut self, batch: Batch, fetched: Vec<Option<Vec<u8>>>) -> (r: Result<
        Vec<Page>,
        PagerError,
    >)
        requires
            old(self).wf(),
            batch.wf(),
            fetched@.len() == batch.spec_to_fetch().len(),
        ensures
            final(self).wf(),
            same_but_pages(old(self).spec_local(), final(self).spec_local()),
            old(self).same_place(final(self)),
            ({
                let (c, d) = (old(self).spec_local(), final(self).spec_local());
                let h = old(self).spec_hasher();
                let wanted = batch.spec_to_fetch();
                match r {
                    Ok(out) => {
                        &&& all_good(h, wanted, fetched@)
                        &&& out@.len() == batch.spec_ids().len()
                        &&& forall|i: int|
                            0 <= i < out@.len() ==> (#[trigger] out@[i]).spec_id()
                                == batch.spec_ids()[i] && batch_answer(
                                batch,
                                fetched@,
                                batch.spec_ids()[i],
                                out@[i]@,
                            )
                        &&& final(self).tier() == all_filled(
                            old(self).tier(),
                            wanted,
                            bytes_of_all(fetched@),
                        )
                        &&& pages_put(c, d, wanted, bytes_of_all(fetched@))
                        &&& noted_pages(
                            old(self).spec_hot_set(),
                            final(self).spec_hot_set(),
                            wanted,
                        )
                    },
                    Err(e) => if all_good(h, wanted, fetched@) {
                        &&& is_failure(e@)
                        &&& !c.steady() || exists|k: int|
                            0 <= k < wanted.len() && !C::takes(
                                bytes_of(#[trigger] fetched@[k]).unwrap().len(),
                            )
                        &&& exists|k: int|
                            0 <= k < wanted.len() && final(self).tier() == all_filled(
                                old(self).tier(),
                                #[trigger] wanted.take(k),
                                bytes_of_all(fetched@).take(k),
                            ) && noted_pages(
                                old(self).spec_hot_set(),
                                final(self).spec_hot_set(),
                                wanted.take(k),
                            ) && (pages_put(
                                c,
                                d,
                                wanted.take(k),
                                bytes_of_all(fetched@).take(k),
                            ) || pages_put(
                                c,
                                d,
                                wanted.take(k + 1),
                                bytes_of_all(fetched@).take(k + 1),
                            ))
                    } else {
                        &&& d == c
                        &&& final(self).tier() == old(self).tier()
                        &&& final(self).spec_hot_set() == old(self).spec_hot_set()
                        &&& refused(h, wanted, fetched@, e@)
                    },
                }
            }),
    {
        let Batch { ids, found, to_fetch } = batch;
        let ghost wanted = to_fetch@;
        let ghost all = fetched@;
        let ghost c = self.local;
        let ghost h = self.hasher;
        assert(wanted == batch.spec_to_fetch() && found@ == batch.spec_found());
        let good = match Self::verify_all(&self.hasher, &to_fetch, fetched) {
            Ok(g) => g,
            Err(e) => {
                return Err(e);
            },
        };
        let ghost v0 = self.tier();
        let mut found = found;
        let ghost found0 = found@;
        let mut i: usize = 0;
        proof {
            assert forall|id: PageId| #[trigger] found0.contains_key(id) implies found0[id].spec_id()
                == id && !wanted.contains(id) by {
                assert(batch.spec_found().contains_key(id));
            }
            assert(wanted.take(0) =~= Seq::empty());
            assert(bytes_of_all(all).take(0) =~= Seq::empty());
            assert(c.held_pages().union(wanted.take(0).to_set()) =~= c.held_pages());
            assert(pages_put(c, self.local, wanted.take(0), bytes_of_all(all).take(0)));
        }
        while i < good.len()
            invariant
                i <= good@.len(),
                good@.len() == wanted.len(),
                wanted == to_fetch@,
                wanted == batch.spec_to_fetch(),
                all == fetched@,
                all.len() == wanted.len(),
                wanted.no_duplicates(),
                all_good(h, wanted, all),
                h == old(self).hasher,
                c == old(self).local,
                forall|k: int|
                    0 <= k < good@.len() ==> (#[trigger] good@[k]).spec_id() == wanted[k]
                        && bytes_of(all[k]) == Some(good@[k]@),
                self.wf(),
                old(self).same_place(self),
                same_but_pages(c, self.local),
                v0 == old(self).tier(),
                self.tier() == all_filled(v0, wanted.take(i as int), bytes_of_all(all).take(i as int)),
                pages_put(c, self.local, wanted.take(i as int), bytes_of_all(all).take(i as int)),
                noted_pages(old(self).hot_set, self.hot_set, wanted.take(i as int)),
                forall|id: PageId| #[trigger]
                    found@.contains_key(id) <==> found0.contains_key(id) || wanted.take(
                        i as int,
                    ).contains(id),
                forall|id: PageId| #[trigger]
                    found0.contains_key(id) ==> found@[id] == found0[id] && found0[id].spec_id()
                        == id && !wanted.contains(id),
                forall|k: int|
                    0 <= k < i ==> found@[#[trigger] wanted[k]]@ == good@[k]@
                        && found@[wanted[k]].spec_id() == wanted[k],
            decreases good@.len() - i,
        {
            let id = to_fetch[i];
            let ghost (done, upto) = (wanted.take(i as int), wanted.take(i + 1));
            let ghost before = found@;
            let ghost held = self.local;
            match self.local.put(&good[i]) {
                Ok(()) => {},
                Err(e) => {
                    proof {
                        let bs = bytes_of_all(all);
                        assert(bytes_of(all[i as int]).unwrap().len() == good@[i as int]@.len());
                        if page_put(held, self.local, id, good@[i as int]@) {
                            assert(upto =~= done.push(id));
                            lemma_one_more(done, id);
                            lemma_one_page_put(
                                c,
                                held,
                                self.local,
                                done,
                                bs.take(i as int),
                                id,
                                bs[i as int],
                            );
                            assert(bs.take(i + 1) =~= bs.take(i as int).push(bs[i as int]));
                        }
                        assert(self.tier() == all_filled(
                            v0,
                            wanted.take(i as int),
                            bytes_of_all(all).take(i as int),
                        ));
                    }
                    return Err(e);
                },
            }
            self.confirm(id);
            self.touch(id, good[i].len() as u64);
            self.hot_set.record_page(id);
            found.insert(id, good[i].clone());
            proof {
                let bs = bytes_of_all(all);
                assert(upto.drop_last() =~= done);
                assert(bs.take(i + 1).drop_last() =~= bs.take(i as int));
                assert(bs.take(i + 1).last() == bs[i as int]);
                assert(bs[i as int] == bytes_of(all[i as int]).unwrap());
                assert(upto =~= done.push(id));
                lemma_one_more(done, id);
                lemma_one_page_put(c, held, self.local, done, bs.take(i as int), id, bs[i as int]);
                assert(bs.take(i + 1) =~= bs.take(i as int).push(bs[i as int]));
                assert forall|k: int| 0 <= k < i + 1 implies found@[#[trigger] wanted[k]]@
                    == good@[k]@ && found@[wanted[k]].spec_id() == wanted[k] by {
                    if k < i {
                        assert(wanted[k] != wanted[i as int]);
                    }
                }
                assert forall|q: PageId| #[trigger] found0.contains_key(q) implies found@[q]
                    == found0[q] by {
                    assert(wanted.contains(wanted[i as int]));
                }
            }
            i = i + 1;
        }
        proof {
            assert(wanted.take(i as int) =~= wanted);
            assert(bytes_of_all(all).take(i as int) =~= bytes_of_all(all));
        }
        let mut out: Vec<Page> = Vec::new();
        let mut j: usize = 0;
        while j < ids.len()
            invariant
                j <= ids@.len(),
                out@.len() == j,
                all.len() == wanted.len(),
                batch.spec_ids() == ids@,
                batch.spec_found() == found0,
                batch.spec_to_fetch() == wanted,
                batch.wf(),
                good@.len() == wanted.len(),
                forall|id: PageId| #[trigger]
                    found@.contains_key(id) <==> found0.contains_key(id) || wanted.contains(id),
                forall|id: PageId| #[trigger]
                    found0.contains_key(id) ==> found@[id] == found0[id],
                forall|k: int|
                    0 <= k < wanted.len() ==> found@[#[trigger] wanted[k]]@ == good@[k]@
                        && found@[wanted[k]].spec_id() == wanted[k],
                forall|k: int|
                    0 <= k < good@.len() ==> (#[trigger] good@[k]).spec_id() == wanted[k]
                        && bytes_of(all[k]) == Some(good@[k]@),
                forall|k: int|
                    0 <= k < j ==> (#[trigger] out@[k]).spec_id() == ids@[k] && batch_answer(
                        batch,
                        all,
                        ids@[k],
                        out@[k]@,
                    ),
            decreases ids@.len() - j,
        {
            let id = ids[j];
            assert(ids@.contains(id));
            if let Some(page) = found.get(&id) {
                out.push(page.clone());
                proof {
                    if !found0.contains_key(id) {
                        let k = choose|k: int| 0 <= k < wanted.len() && wanted[k] == id;
                        assert(found@[wanted[k]]@ == good@[k]@);
                        assert(batch.spec_to_fetch()[k] == id);
                    }
                    assert(batch_answer(batch, all, id, out@[j as int]@));
                }
            } else {
                return Err(PagerError::MissingPage(id));
            }
            j = j + 1;
        }
        Ok(out)
    }

    /// Checks every fetched object.
    fn verify_all(hasher: &PageHasher, ids: &Vec<PageId>, fetched: Vec<Option<Vec<u8>>>) -> (r:
        Result<Vec<Page>, PagerError>)
        requires
            fetched@.len() == ids@.len(),
        ensures
            match r {
                Ok(good) => all_good(*hasher, ids@, fetched@) && good@.len() == ids@.len()
                    && forall|k: int|
                    0 <= k < good@.len() ==> (#[trigger] good@[k]).spec_id() == ids@[k] && bytes_of(
                        fetched@[k],
                    ) == Some(good@[k]@),
                Err(e) => !all_good(*hasher, ids@, fetched@) && refused(
                    *hasher,
                    ids@,
                    fetched@,
                    e@,
                ),
            },
    {
        let ghost all = fetched@;
        let n: usize = ids.len();
        let mut i: usize = 0;
        while i < n
            invariant
                i <= n,
                n == ids@.len(),
                all == fetched@,
                all.len() == n,
                forall|k: int| 0 <= k < i ==> (#[trigger] all[k]) is Some,
            decreases n - i,
        {
            if fetched[i].is_none() {
                proof {
                    lemma_refused(*hasher, ids@, all, i as int, Fault::MissingPage(ids@[i as int]));
                }
                return Err(PagerError::MissingPage(ids[i]));
            }
            i = i + 1;
        }
        let mut rest = fetched;
        let mut back: Vec<Vec<u8>> = Vec::new();
        while rest.len() > 0
            invariant
                all.len() == n,
                forall|k: int| 0 <= k < n ==> (#[trigger] all[k]) is Some,
                rest@.len() <= n,
                rest@ == all.take(rest@.len() as int),
                back@.len() == n - rest@.len(),
                forall|k: int|
                    0 <= k < back@.len() ==> bytes_of(all[n - 1 - k]) == Some(
                        (#[trigger] back@[k])@,
                    ),
            decreases rest@.len(),
        {
            let ghost left = rest@.len() as int;
            let o = rest.pop();
            proof {
                assert(o == Some(all[left - 1]));
                assert(rest@ =~= all.take(left - 1));
            }
            if let Some(Some(b)) = o {
                back.push(b);
            }
        }
        let mut good: Vec<Page> = Vec::new();
        while good.len() < n
            invariant
                all == fetched@,
                n == ids@.len(),
                all.len() == n,
                forall|k: int| 0 <= k < n ==> (#[trigger] all[k]) is Some,
                good@.len() + back@.len() == n,
                forall|k: int|
                    0 <= k < back@.len() ==> bytes_of(all[n - 1 - k]) == Some(
                        (#[trigger] back@[k])@,
                    ),
                forall|k: int|
                    0 <= k < good@.len() ==> (#[trigger] good@[k]).spec_id() == ids@[k] && bytes_of(
                        all[k],
                    ) == Some(good@[k]@) && hasher.id_of(good@[k]@) == ids@[k],
            decreases n - good@.len(),
        {
            let ghost at = good@.len() as int;
            let id = ids[good.len()];
            if let Some(bytes) = back.pop() {
                assert(bytes_of(all[at]) == Some(bytes@));
                match verified_page(hasher, id, bytes) {
                    Ok(p) => {
                        good.push(p);
                    },
                    Err(e) => {
                        proof {
                            assert forall|j: int| 0 <= j < at implies hasher.id_of(
                                bytes_of(#[trigger] all[j]).unwrap(),
                            ) == ids@[j] by {
                                assert(good@[j].spec_id() == ids@[j]);
                            }
                            lemma_refused(*hasher, ids@, all, at, e@);
                        }
                        return Err(e);
                    },
                }
            }
        }
        proof {
            assert forall|k: int| 0 <= k < n implies (bytes_of(#[trigger] all[k]) matches Some(b)
                && hasher.id_of(b) == ids@[k]) by {
                assert(good@[k].spec_id() == ids@[k]);
            }
        }
        Ok(good)
    }
}

/// One more page was stored.
proof fn lemma_one_page_put<B: Backing>(
    c: B,
    d: B,
    e: B,
    ids: Seq<PageId>,
    bytes: Seq<Seq<u8>>,
    id: PageId,
    more: Seq<u8>,
)
    requires
        pages_put(c, d, ids, bytes),
        page_put(d, e, id, more),
        d.hasher() == c.hasher(),
        ids.len() == bytes.len(),
        !ids.contains(id),
    ensures
        pages_put(c, e, ids.push(id), bytes.push(more)),
{
    let (longer, all) = (ids.push(id), bytes.push(more));
    lemma_one_more(ids, id);
    assert(e.held_pages() =~= c.held_pages().union(longer.to_set()));
    assert forall|p: PageId| !longer.contains(p) implies #[trigger] same_at(
        e.pages(),
        c.pages(),
        p,
    ) by {
        assert(!ids.contains(p));
        assert(same_at(d.pages(), c.pages(), p));
    }
    assert forall|k: int| 0 <= k < longer.len() implies same_at(
        e.pages(),
        with_page(c.pages(), c.hasher(), #[trigger] longer[k], all[k]),
        longer[k],
    ) || (c.held_pages().contains(longer[k]) && same_at(e.pages(), c.pages(), longer[k])) by {
        if k < ids.len() {
            assert(ids.contains(ids[k]));
            assert(longer[k] == ids[k] && all[k] == bytes[k]);
            assert(same_at(e.pages(), d.pages(), ids[k]));
        } else {
            assert(same_at(d.pages(), c.pages(), id));
            assert(d.held_pages().contains(id) == c.held_pages().contains(id));
        }
    }
}

proof fn lemma_refused(
    hasher: PageHasher,
    ids: Seq<PageId>,
    fetched: Seq<Option<Vec<u8>>>,
    k: int,
    e: Fault,
)
    requires
        0 <= k < ids.len(),
        fetched.len() == ids.len(),
        match bytes_of(fetched[k]) {
            None => (forall|j: int| 0 <= j < k ==> (#[trigger] fetched[j]) is Some) && e
                == Fault::MissingPage(ids[k]),
            Some(b) => {
                &&& forall|j: int| 0 <= j < fetched.len() ==> (#[trigger] fetched[j]) is Some
                &&& forall|j: int|
                    0 <= j < k ==> hasher.id_of(bytes_of(#[trigger] fetched[j]).unwrap()) == ids[j]
                &&& hasher.id_of(b) != ids[k]
                &&& e == (Fault::CorruptPage {
                    expected: ids[k],
                    actual: hasher.id_of(b),
                    len: b.len(),
                })
            },
        },
    ensures
        refused(hasher, ids, fetched, e),
        !all_good(hasher, ids, fetched),
{
    assert(bytes_of(fetched[k]) == bytes_of(fetched[k]));
}

/// What a list has after one more was pushed.
proof fn lemma_one_more(s: Seq<PageId>, x: PageId)
    ensures
        forall|y: PageId| #[trigger] s.push(x).contains(y) <==> s.contains(y) || y == x,
        s.no_duplicates() && !s.contains(x) ==> s.push(x).no_duplicates(),
{
    let t = s.push(x);
    assert forall|y: PageId| #[trigger] t.contains(y) <==> s.contains(y) || y == x by {
        if s.contains(y) {
            let q = choose|q: int| 0 <= q < s.len() && s[q] == y;
            assert(t[q] == y);
        }
        assert(t[s.len() as int] == x);
        if t.contains(y) && y != x {
            let q = choose|q: int| 0 <= q < t.len() && t[q] == y;
            assert(s[q] == y);
        }
    }
    if s.no_duplicates() && !s.contains(x) {
        assert forall|i: int, j: int| 0 <= i < t.len() && 0 <= j < t.len() && i != j implies t[i]
            != t[j] by {
            if i < s.len() {
                assert(s.contains(s[i]));
            }
            if j < s.len() {
                assert(s.contains(s[j]));
            }
        }
    }
}

/// A batch gives for each page what reading that page alone would give.
pub proof fn a_batch_is_many_reads(
    pages: Map<PageId, Seq<u8>>,
    hasher: PageHasher,
    batch: Batch,
    fetched: Seq<Option<Vec<u8>>>,
    k: int,
    id: PageId,
    got: Seq<u8>,
)
    requires
        batch.wf(),
        fetched.len() == batch.spec_to_fetch().len(),
        all_good(hasher, batch.spec_to_fetch(), fetched),
        forall|p: PageId| #[trigger]
            batch.spec_found().contains_key(p) ==> pages.contains_key(p) && batch.spec_found()[p]@
                == pages[p],
        forall|p: PageId| #[trigger] batch.spec_to_fetch().contains(p) ==> !pages.contains_key(p),
        batch_answer(batch, fetched, id, got),
        batch.spec_found().contains_key(id) || (0 <= k < fetched.len() && batch.spec_to_fetch()[k]
            == id),
    ensures
        answer(
            pages,
            hasher,
            id,
            if batch.spec_found().contains_key(id) {
                None
            } else {
                bytes_of(fetched[k])
            },
        ) == Some(got),
{
    if !batch.spec_found().contains_key(id) {
        let j = choose|j: int|
            0 <= j < batch.spec_to_fetch().len() && #[trigger] batch.spec_to_fetch()[j] == id
                && bytes_of(fetched[j]) == Some(got);
        assert(j == k);
        assert(batch.spec_to_fetch().contains(id));
        assert(bytes_of(fetched[k]) is Some);
    }
}

// ---------------------------------------------------------------------------------------------
// Eviction.
// ---------------------------------------------------------------------------------------------

/// A page may be evicted: it is confirmed to be in object storage, and nothing is left to upload.
pub open spec fn evictable(v: TierView, id: PageId) -> bool {
    v.durable.contains(id) && !v.pending.contains(id)
}

/// When a page was last used; one that never was counts as the coldest.
pub open spec fn last_used(v: TierView, id: PageId) -> u64 {
    if v.touched.contains_key(id) {
        v.touched[id]
    } else {
        0
    }
}

/// No page that may be evicted was used longer ago.
pub open spec fn coldest(v: TierView, id: PageId) -> bool {
    evictable(v, id) && forall|q: PageId| #[trigger]
        evictable(v, q) ==> last_used(v, id) <= last_used(v, q)
}

/// The tier after these pages were evicted in turn.
pub open spec fn after_evicting(v: TierView, gone: Seq<PageId>) -> TierView
    decreases gone.len(),
{
    if gone.len() == 0 {
        v
    } else {
        let u = after_evicting(v, gone.drop_last());
        let w = forgotten(u, gone.last());
        TierView { evictions: after(w.evictions), ..w }
    }
}

/// The bytes that evicting these pages in turn gives back.
pub open spec fn reclaimed(v: TierView, gone: Seq<PageId>) -> u64
    decreases gone.len(),
{
    if gone.len() == 0 {
        0
    } else {
        plus(
            reclaimed(v, gone.drop_last()),
            size_of(after_evicting(v, gone.drop_last()), gone.last()),
        )
    }
}

/// Each of these pages was, when its turn came, the coldest that may be evicted, and the tier was
/// still over its budget.
pub open spec fn eviction_run(v: TierView, gone: Seq<PageId>, max_bytes: u64) -> bool
    decreases gone.len(),
{
    gone.len() > 0 ==> {
        let u = after_evicting(v, gone.drop_last());
        &&& eviction_run(v, gone.drop_last(), max_bytes)
        &&& coldest(u, gone.last())
        &&& u.local_bytes > max_bytes
    }
}

/// From `c` to `d` these pages were removed and nothing else.
pub open spec fn pages_gone<B: Backing>(c: B, d: B, gone: Seq<PageId>) -> bool {
    &&& forall|id: PageId| #[trigger]
        d.held_pages().contains(id) <==> c.held_pages().contains(id) && !gone.contains(id)
    &&& forall|id: PageId| #[trigger]
        d.pages().contains_key(id) <==> c.pages().contains_key(id) && !gone.contains(id)
    &&& forall|id: PageId| #[trigger] d.pages().contains_key(id) ==> d.pages()[id] == c.pages()[id]
}

/// How an eviction went: these pages are gone, and where it succeeded the tier is within its
/// budget or there is nothing more to evict.
pub open spec fn evicted<C: Cas>(
    a: TieredCas<C>,
    b: TieredCas<C>,
    max_bytes: u64,
    gone: Seq<PageId>,
    r: Result<u64, StoreError>,
) -> bool {
    let v = a.tier();
    &&& eviction_run(v, gone, max_bytes)
    &&& b.tier() == after_evicting(v, gone)
    &&& pages_gone(a.spec_local(), b.spec_local(), gone)
    &&& match r {
        Ok(n) => n == reclaimed(v, gone) && (b.tier().local_bytes <= max_bytes || forall|q: PageId|
            !(#[trigger] evictable(b.tier(), q))),
        Err(e) => !a.spec_local().steady() && (e matches StoreError::Pager(f) && is_failure(f@)),
    }
}

/// A page that is held locally, or known to wait for its upload, and not confirmed to be in object
/// storage.
pub open spec fn unconfirmed(v: TierView, held: Set<PageId>, id: PageId) -> bool {
    v.pending.contains(id) || (held.contains(id) && !v.durable.contains(id))
}

/// Dropping the local pages now would lose this many: those that wait for their upload or, where
/// none does, those that are held and were never confirmed.
pub open spec fn would_lose<C: Cas>(v: TierView, c: C, n: nat) -> bool {
    if v.pending.len() > 0 {
        n == v.pending.len()
    } else {
        &&& exists|id: PageId| #[trigger] unconfirmed(v, c.held_pages(), id)
        &&& c.steady() && c.tidy() ==> n == c.held_pages().difference(v.durable).len()
    }
}

/// What dropping the local pages does: nothing where one of them is not confirmed to be in object
/// storage. Otherwise they go, and the tier starts afresh. Whatever fails, a page that is not
/// confirmed stays.
pub open spec fn dropped<C: Cas>(
    a: TieredCas<C>,
    b: TieredCas<C>,
    r: Result<(), StoreError>,
) -> bool {
    let (c, d) = (a.spec_local(), b.spec_local());
    let v = a.tier();
    &&& same_but_pages(c, d)
    &&& d.held_pages().subset_of(c.held_pages())
    &&& forall|id: PageId| #[trigger]
        d.pages().contains_key(id) <==> c.pages().contains_key(id) && d.held_pages().contains(id)
    &&& forall|id: PageId| #[trigger]
        d.pages().contains_key(id) ==> d.pages()[id] == c.pages()[id]
    &&& a.same_place(&b)
    &&& b.spec_hot_set() == a.spec_hot_set()
    &&& forall|id: PageId| #[trigger]
        c.held_pages().contains(id) && !v.durable.contains(id) ==> d.held_pages().contains(id)
    &&& match r {
        Ok(()) => v.pending.len() == 0 && (c.steady() ==> c.held_pages().subset_of(v.durable)
            && d.held_pages() == Set::<PageId>::empty()) && b.tier() == (TierView {
            durable: Set::empty(),
            touched: Map::empty(),
            sizes: Map::empty(),
            local_bytes: 0,
            ..v
        }),
        Err(StoreError::PageLost(s)) => d == c && b.tier() == v && exists|n: nat|
            #[trigger] would_lose(v, c, n) && s@ == decimal(n)
                + " page(s) are not yet durable in object storage; dropping local state now would lose them"@,
        Err(e) => !c.steady() && b.tier() == v && (e matches StoreError::Pager(f) && is_failure(
            f@,
        )),
    }
}

/// Refusing to drop pages leaves everything as it is.
proof fn lemma_not_dropped<C: Cas>(a: TieredCas<C>, e: StoreError, n: nat)
    requires
        a.wf(),
        would_lose(a.tier(), a.spec_local(), n),
        e matches StoreError::PageLost(s) && s@ == decimal(n)
            + " page(s) are not yet durable in object storage; dropping local state now would lose them"@,
    ensures
        dropped(a, a, Err(e)),
{
    a.local.contents_are_what_their_ids_say();
}

impl<C: Cas> TieredCas<C> {
    /// The page that was not used for longest, of those that may be evicted.
    fn coldest_page(&self) -> (r: Option<PageId>)
        ensures
            match r {
                Some(id) => coldest(self.tier(), id),
                None => forall|q: PageId| !(#[trigger] evictable(self.tier(), q)),
            },
    {
        let keys = self.durable.keys();
        let ghost v = self.tier();
        proof {
            lemma_keys(keys@, self.durable@);
        }
        let mut best: Option<PageId> = None;
        let mut best_used: u64 = 0;
        let mut i: usize = 0;
        while i < keys.len()
            invariant
                i <= keys@.len(),
                v == self.tier(),
                forall|id: PageId| #[trigger] keys@.contains(id) <==> v.durable.contains(id),
                match best {
                    Some(id) => evictable(v, id) && best_used == last_used(v, id) && forall|k: int|
                        0 <= k < i && evictable(v, #[trigger] keys@[k]) ==> best_used <= last_used(
                            v,
                            keys@[k],
                        ),
                    None => forall|k: int|
                        0 <= k < i ==> !evictable(v, #[trigger] keys@[k]),
                },
            decreases keys@.len() - i,
        {
            let id = keys[i];
            assert(keys@.contains(id));
            if !self.pending.contains(&id) {
                let at: u64 = match self.touched.get(&id) {
                    Some(t) => *t,
                    None => 0,
                };
                let better = match best {
                    Some(_) => at < best_used,
                    None => true,
                };
                if better {
                    best = Some(id);
                    best_used = at;
                }
            }
            i = i + 1;
        }
        proof {
            assert forall|q: PageId| #[trigger] evictable(v, q) implies (best matches Some(id)
                && last_used(v, id) <= last_used(v, q)) by {
                assert(keys@.contains(q));
                let k = choose|k: int| 0 <= k < keys@.len() && keys@[k] == q;
                assert(evictable(v, keys@[k]));
            }
        }
        best
    }

    /// Evicts the pages that were not used for longest, until the local store is within its
    /// budget. A page that is not confirmed to be in object storage stays, however cold it is and
    /// however far over the budget the store is.
    pub fn evict_to(&mut self, max_bytes: u64) -> (r: Result<u64, StoreError>)
        requires
            old(self).wf(),
        ensures
            final(self).wf(),
            same_but_pages(old(self).spec_local(), final(self).spec_local()),
            old(self).same_place(final(self)),
            final(self).spec_hot_set() == old(self).spec_hot_set(),
            exists|gone: Seq<PageId>| #[trigger]
                evicted(*old(self), *final(self), max_bytes, gone, r),
    {
        let ghost v = self.tier();
        let ghost mut gone: Seq<PageId> = Seq::empty();
        let mut total: u64 = 0;
        loop
            invariant
                self.wf(),
                same_but_pages(old(self).spec_local(), self.spec_local()),
                old(self).same_place(self),
                self.spec_hot_set() == old(self).spec_hot_set(),
                v == old(self).tier(),
                eviction_run(v, gone, max_bytes),
                self.tier() == after_evicting(v, gone),
                pages_gone(old(self).spec_local(), self.spec_local(), gone),
                total == reclaimed(v, gone),
            decreases self.durable@.dom().len(),
        {
            if self.local_bytes <= max_bytes {
                assert(evicted(*old(self), *self, max_bytes, gone, Ok(total)));
                return Ok(total);
            }
            let id = match self.coldest_page() {
                Some(id) => id,
                None => {
                    assert(evicted(*old(self), *self, max_bytes, gone, Ok(total)));
                    return Ok(total);
                },
            };
            let ghost before = *self;
            match self.local.remove(id) {
                Ok(()) => {},
                Err(e) => {
                    proof {
                        let r = Err::<u64, StoreError>(StoreError::Pager(e));
                        assert(pages_gone(old(self).spec_local(), self.spec_local(), gone));
                        assert(evicted(*old(self), *self, max_bytes, gone, r));
                    }
                    return Err(StoreError::Pager(e));
                },
            }
            let size = self.forget(id);
            self.evictions = one_more(self.evictions);
            total = match total.checked_add(size) {
                Some(n) => n,
                None => u64::MAX,
            };
            let left: usize = self.durable.len();
            proof {
                let more = gone.push(id);
                assert(more.drop_last() =~= gone);
                assert(self.tier() =~= after_evicting(v, more));
                lemma_one_more(gone, id);
                assert(before.durable@.dom().contains(id));
                assert(before.durable@.dom().finite());
                assert(self.durable@.dom() =~= before.durable@.dom().remove(id));
                gone = more;
            }
        }
    }

    /// The refusal to drop this many pages.
    fn still_waiting(n: usize) -> (e: StoreError)
        ensures
            e matches StoreError::PageLost(s) && s@ == decimal(n as nat)
                + " page(s) are not yet durable in object storage; dropping local state now would lose them"@,
    {
        StoreError::PageLost(
            to_decimal(n as u64).concat(
                " page(s) are not yet durable in object storage; dropping local state now would lose them",
            ),
        )
    }

    /// Of these pages those that are held locally and not confirmed to be in object storage.
    fn not_confirmed(&self, list: &Vec<PageId>) -> (r: Result<Vec<PageId>, PagerError>)
        requires
            self.wf(),
        ensures
            match r {
                Ok(out) => {
                    &&& list@.no_duplicates() ==> out@.no_duplicates()
                    &&& forall|id: PageId| #[trigger]
                        out@.contains(id) <==> list@.contains(id)
                            && self.spec_local().held_pages().contains(id)
                            && !self.tier().durable.contains(id)
                },
                Err(e) => !self.spec_local().steady() && is_failure(e@),
            },
    {
        let mut out: Vec<PageId> = Vec::new();
        let mut i: usize = 0;
        while i < list.len()
            invariant
                i <= list@.len(),
                self.wf(),
                list@.no_duplicates() ==> out@.no_duplicates(),
                forall|id: PageId| #[trigger]
                    out@.contains(id) <==> list@.take(i as int).contains(id)
                        && self.spec_local().held_pages().contains(id)
                        && !self.tier().durable.contains(id),
            decreases list@.len() - i,
        {
            let id = list[i];
            let ghost before = out@;
            let ghost done = list@.take(i as int);
            let held = match self.local.contains(id) {
                Ok(b) => b,
                Err(e) => {
                    return Err(e);
                },
            };
            if held && !self.durable.contains(&id) {
                out.push(id);
            }
            proof {
                let next = list@.take(i + 1);
                assert(next.drop_last() =~= done);
                assert forall|x: PageId| #[trigger] next.contains(x) <==> done.contains(x) || x
                    == id by {
                    lemma_popped(next, x);
                }
                assert forall|x: PageId| #[trigger] out@.contains(x) <==> next.contains(x)
                    && self.spec_local().held_pages().contains(x)
                    && !self.tier().durable.contains(x) by {
                    if out@ != before {
                        assert(out@.drop_last() =~= before);
                        lemma_popped(out@, x);
                    }
                }
                if list@.no_duplicates() && out@ != before {
                    assert(!done.contains(id)) by {
                        if done.contains(id) {
                            let k = choose|k: int| 0 <= k < done.len() && done[k] == id;
                            assert(list@[k] == list@[i as int]);
                        }
                    }
                    assert(!before.contains(id));
                    assert(out@.no_duplicates());
                }
            }
            i = i + 1;
        }
        assert(list@.take(i as int) =~= list@);
        Ok(out)
    }

    /// The pages that are not confirmed to be in object storage, and so have to be uploaded before
    /// the local ones can be dropped: those that wait for it, and whatever else is held locally.
    pub fn unconfirmed_pages(&self) -> (r: Result<Vec<PageId>, PagerError>)
        requires
            self.wf(),
        ensures
            match r {
                Ok(out) => {
                    &&& out@.no_duplicates()
                    &&& forall|id: PageId| #[trigger]
                        out@.contains(id) ==> unconfirmed(
                            self.tier(),
                            self.spec_local().held_pages(),
                            id,
                        )
                    &&& forall|id: PageId| #[trigger]
                        self.tier().pending.contains(id) ==> out@.contains(id)
                    &&& self.spec_local().steady() ==> forall|id: PageId| #[trigger]
                        unconfirmed(self.tier(), self.spec_local().held_pages(), id)
                            ==> out@.contains(id)
                },
                Err(e) => !self.spec_local().steady() && is_failure(e@),
            },
    {
        let list = match self.local.list() {
            Ok(l) => l,
            Err(e) => {
                return Err(e);
            },
        };
        let lone = match self.not_confirmed(&list) {
            Ok(l) => l,
            Err(e) => {
                return Err(e);
            },
        };
        let waiting = self.pending_uploads();
        let mut set: OrdMap<PageId, ()> = OrdMap::new();
        let mut i: usize = 0;
        while i < waiting.len()
            invariant
                i <= waiting@.len(),
                forall|id: PageId| #[trigger]
                    set@.contains_key(id) <==> waiting@.take(i as int).contains(id),
            decreases waiting@.len() - i,
        {
            set.insert(waiting[i], ());
            proof {
                let next = waiting@.take(i + 1);
                assert(next.drop_last() =~= waiting@.take(i as int));
                assert forall|x: PageId| #[trigger] set@.contains_key(x) <==> next.contains(x) by {
                    lemma_popped(next, x);
                }
            }
            i = i + 1;
        }
        assert(waiting@.take(i as int) =~= waiting@);
        let mut j: usize = 0;
        while j < lone.len()
            invariant
                j <= lone@.len(),
                forall|id: PageId| #[trigger]
                    set@.contains_key(id) <==> waiting@.contains(id) || lone@.take(
                        j as int,
                    ).contains(id),
            decreases lone@.len() - j,
        {
            set.insert(lone[j], ());
            proof {
                let next = lone@.take(j + 1);
                assert(next.drop_last() =~= lone@.take(j as int));
                assert forall|x: PageId| #[trigger] set@.contains_key(x) <==> waiting@.contains(x)
                    || next.contains(x) by {
                    lemma_popped(next, x);
                }
            }
            j = j + 1;
        }
        assert(lone@.take(j as int) =~= lone@);
        let out = set.keys();
        proof {
            lemma_keys(out@, set@);
        }
        Ok(out)
    }

    /// Drops every page that is held locally, unless one of them is not confirmed to be in object
    /// storage: then it refuses.
    pub fn drop_local(&mut self) -> (r: Result<(), StoreError>)
        requires
            old(self).wf(),
        ensures
            final(self).wf(),
            dropped(*old(self), *final(self), r),
    {
        proof {
            self.local.contents_are_what_their_ids_say();
        }
        let waiting: usize = self.pending.len();
        if waiting != 0 {
            let refusal = Self::still_waiting(waiting);
            proof {
                lemma_not_dropped(*self, refusal, waiting as nat);
            }
            return Err(refusal);
        }
        let ghost c = self.local;
        let ghost v = self.tier();
        let list = match self.local.list() {
            Ok(l) => l,
            Err(e) => {
                return Err(StoreError::Pager(e));
            },
        };
        let lone = match self.not_confirmed(&list) {
            Ok(l) => l,
            Err(e) => {
                return Err(StoreError::Pager(e));
            },
        };
        if lone.len() != 0 {
            proof {
                assert(lone@.contains(lone@[0]));
                assert(unconfirmed(v, c.held_pages(), lone@[0]));
                if c.steady() && c.tidy() {
                    lone@.unique_seq_to_set();
                    assert forall|id: PageId| #[trigger] lone@.to_set().contains(id)
                        <==> c.held_pages().difference(v.durable).contains(id) by {
                        assert(lone@.to_set().contains(id) <==> lone@.contains(id));
                        if c.held_pages().contains(id) {
                            assert(list@.contains(id));
                        }
                    }
                    assert(lone@.to_set() =~= c.held_pages().difference(v.durable));
                }
            }
            let n: usize = lone.len();
            assert(would_lose(v, c, n as nat));
            let refusal = Self::still_waiting(n);
            proof {
                lemma_not_dropped(*self, refusal, n as nat);
            }
            return Err(refusal);
        }
        proof {
            assert forall|k: int| 0 <= k < list@.len() implies v.durable.contains(#[trigger] list@[k])
                || !c.held_pages().contains(list@[k]) by {
                if c.held_pages().contains(list@[k]) && !v.durable.contains(list@[k]) {
                    assert(list@.contains(list@[k]));
                    assert(lone@.contains(list@[k]));
                }
            }
        }
        let mut i: usize = 0;
        while i < list.len()
            invariant
                i <= list@.len(),
                c == old(self).local,
                v == old(self).tier(),
                forall|k: int|
                    0 <= k < list@.len() ==> v.durable.contains(#[trigger] list@[k])
                        || !c.held_pages().contains(list@[k]),
                forall|id: PageId| #[trigger]
                    c.held_pages().contains(id) && !v.durable.contains(id)
                        ==> self.local.held_pages().contains(id),
                self.wf(),
                same_but_pages(c, self.local),
                old(self).same_place(self),
                self.spec_hot_set() == old(self).spec_hot_set(),
                self.tier() == old(self).tier(),
                forall|id: PageId| #[trigger]
                    self.local.held_pages().contains(id) ==> c.held_pages().contains(id),
                forall|id: PageId| #[trigger]
                    self.local.pages().contains_key(id) <==> c.pages().contains_key(id)
                        && self.local.held_pages().contains(id),
                forall|id: PageId| #[trigger]
                    self.local.pages().contains_key(id) ==> self.local.pages()[id]
                        == c.pages()[id],
                forall|k: int|
                    0 <= k < i ==> !self.local.held_pages().contains(#[trigger] list@[k]),
            decreases list@.len() - i,
        {
            match self.local.remove(list[i]) {
                Ok(()) => {},
                Err(e) => {
                    return Err(StoreError::Pager(e));
                },
            }
            i = i + 1;
        }
        self.durable.clear();
        self.touched.clear();
        self.sizes.clear();
        self.local_bytes = 0;
        proof {
            if c.steady() {
                assert forall|id: PageId| #[trigger]
                    c.held_pages().contains(id) implies v.durable.contains(id) by {
                    assert(list@.contains(id));
                    let k = choose|k: int| 0 <= k < list@.len() && list@[k] == id;
                }
                assert forall|id: PageId| !(#[trigger] self.local.held_pages().contains(id)) by {
                    if self.local.held_pages().contains(id) {
                        assert(list@.contains(id));
                        let k = choose|k: int| 0 <= k < list@.len() && list@[k] == id;
                    }
                }
                assert(self.local.held_pages() =~= Set::<PageId>::empty());
            }
            assert(self.tier() =~= (TierView {
                durable: Set::empty(),
                touched: Map::empty(),
                sizes: Map::empty(),
                local_bytes: 0,
                ..old(self).tier()
            }));
        }
        Ok(())
    }
}

proof fn lemma_evicting_keeps_pending(v: TierView, gone: Seq<PageId>)
    ensures
        after_evicting(v, gone).pending == v.pending,
        after_evicting(v, gone).durable.subset_of(v.durable),
    decreases gone.len(),
{
    if gone.len() > 0 {
        lemma_evicting_keeps_pending(v, gone.drop_last());
    }
}

/// Whatever eviction drops was confirmed to be in object storage, and was not waiting for an
/// upload. So as long as object storage has what was confirmed, eviction loses nothing.
pub proof fn eviction_never_drops_the_only_copy(
    v: TierView,
    gone: Seq<PageId>,
    max_bytes: u64,
    id: PageId,
)
    requires
        eviction_run(v, gone, max_bytes),
        gone.contains(id),
    ensures
        v.durable.contains(id),
        !v.pending.contains(id),
    decreases gone.len(),
{
    let init = gone.drop_last();
    let k = choose|k: int| 0 <= k < gone.len() && gone[k] == id;
    if k < init.len() {
        assert(init[k] == id);
        eviction_never_drops_the_only_copy(v, init, max_bytes, id);
    } else {
        lemma_evicting_keeps_pending(v, init);
    }
}

/// Colder pages go first: a page that may still be evicted was not used before any that went.
pub proof fn the_coldest_pages_go_first(
    v: TierView,
    gone: Seq<PageId>,
    max_bytes: u64,
    id: PageId,
    stays: PageId,
)
    requires
        eviction_run(v, gone, max_bytes),
        gone.contains(id),
        evictable(after_evicting(v, gone), stays),
    ensures
        last_used(v, id) <= last_used(v, stays),
    decreases gone.len(),
{
    let init = gone.drop_last();
    let u = after_evicting(v, init);
    let k = choose|k: int| 0 <= k < gone.len() && gone[k] == id;
    lemma_use_is_kept(v, gone, stays);
    lemma_use_is_kept(v, init, stays);
    assert(evictable(u, stays));
    if k < init.len() {
        assert(init[k] == id);
        the_coldest_pages_go_first(v, init, max_bytes, id, stays);
    } else {
        lemma_evicting_keeps_pending(v, init);
        lemma_use_is_kept(v, init, id);
    }
}

/// What is still durable after an eviction was used when it was used before.
proof fn lemma_use_is_kept(v: TierView, gone: Seq<PageId>, id: PageId)
    requires
        after_evicting(v, gone).durable.contains(id),
    ensures
        last_used(after_evicting(v, gone), id) == last_used(v, id),
    decreases gone.len(),
{
    if gone.len() > 0 {
        lemma_use_is_kept(v, gone.drop_last(), id);
    }
}

// ---------------------------------------------------------------------------------------------
// What is counted.
// ---------------------------------------------------------------------------------------------

/// Sizes added up.
pub open spec fn byte_total(sizes: Map<PageId, u64>) -> int
    decreases sizes.dom().len(),
    when sizes.dom().finite()
{
    if sizes.dom().len() == 0 {
        0
    } else {
        let id = sizes.dom().choose();
        sizes[id] + byte_total(sizes.remove(id))
    }
}

/// The bytes that are counted as local are those of the pages that are counted.
pub open spec fn well_counted(v: TierView) -> bool {
    v.sizes.dom().finite() && v.local_bytes == byte_total(v.sizes)
}

proof fn lemma_total_without(sizes: Map<PageId, u64>, id: PageId)
    requires
        sizes.dom().finite(),
        sizes.contains_key(id),
    ensures
        sizes.remove(id).dom().finite(),
        byte_total(sizes) == sizes[id] + byte_total(sizes.remove(id)),
        byte_total(sizes.remove(id)) >= 0,
    decreases sizes.dom().len(),
{
    let g = sizes.dom().choose();
    assert(sizes.dom().contains(id));
    assert(sizes.dom().contains(g));
    let (x, y) = (sizes.remove(g), sizes.remove(id));
    assert(x.dom() =~= sizes.dom().remove(g));
    assert(y.dom() =~= sizes.dom().remove(id));
    lemma_total_is_positive(y);
    if id != g {
        lemma_total_without(x, id);
        lemma_total_without(y, g);
        assert(x.remove(id) =~= y.remove(g));
    }
}

proof fn lemma_total_is_positive(sizes: Map<PageId, u64>)
    requires
        sizes.dom().finite(),
    ensures
        byte_total(sizes) >= 0,
    decreases sizes.dom().len(),
{
    if sizes.dom().len() > 0 {
        let g = sizes.dom().choose();
        assert(sizes.dom().contains(g));
        assert(sizes.remove(g).dom() =~= sizes.dom().remove(g));
        lemma_total_is_positive(sizes.remove(g));
    }
}

proof fn lemma_total_with(sizes: Map<PageId, u64>, id: PageId, size: u64)
    requires
        sizes.dom().finite(),
        sizes.contains_key(id) ==> sizes[id] == size,
    ensures
        sizes.insert(id, size).dom().finite(),
        byte_total(sizes.insert(id, size)) == byte_total(sizes) + (if sizes.contains_key(id) {
            0
        } else {
            size as int
        }),
{
    let more = sizes.insert(id, size);
    if sizes.contains_key(id) {
        assert(more =~= sizes);
    } else {
        assert(more.dom() =~= sizes.dom().insert(id));
        lemma_total_without(more, id);
        assert(more.remove(id) =~= sizes);
    }
}

/// A page that was fetched is counted like one that was stored: with its own size, once, and nothing
/// else changes its size. It is confirmed to be in object storage, waits for no upload, and is the
/// page that was used last.
pub proof fn a_fetched_page_is_counted_with_its_size(v: TierView, id: PageId, size: u64)
    requires
        well_counted(v),
        v.sizes.contains_key(id) ==> v.sizes[id] == size,
        v.local_bytes + size <= u64::MAX,
        forall|q: PageId| #[trigger] v.touched.contains_key(q) ==> v.touched[q] <= v.clock,
        v.clock < u64::MAX,
    ensures
        ({
            let w = filled(v, id, size);
            &&& well_counted(w)
            &&& w.sizes == v.sizes.insert(id, size)
            &&& w.local_bytes == v.local_bytes + (if v.sizes.contains_key(id) {
                0
            } else {
                size as int
            })
            &&& w.durable == v.durable.insert(id)
            &&& w.pending == v.pending.remove(id)
            &&& w.touched.dom() == v.touched.dom().insert(id)
            &&& w.touched[id] == w.clock
            &&& forall|q: PageId|
                q != id && #[trigger] w.touched.contains_key(q) ==> w.touched[q] == v.touched[q]
                    && w.touched[q] < w.touched[id]
            &&& (w.hits, w.misses, w.uploads, w.evictions) == (
                v.hits,
                v.misses,
                v.uploads,
                v.evictions,
            )
        }),
{
    lemma_total_with(v.sizes, id, size);
}

/// A page that is used where it is held keeps its place in the count, and is then the page that was
/// used last. Whether it is confirmed does not change, and the read counts as a hit.
pub proof fn a_page_that_is_found_counts_once(v: TierView, id: PageId, size: u64)
    requires
        well_counted(v),
        v.sizes.contains_key(id) ==> v.sizes[id] == size,
        v.local_bytes + size <= u64::MAX,
        forall|q: PageId| #[trigger] v.touched.contains_key(q) ==> v.touched[q] <= v.clock,
        v.clock < u64::MAX,
        v.hits < u64::MAX,
    ensures
        ({
            let w = hit(v, id, size);
            &&& well_counted(w)
            &&& w.sizes == v.sizes.insert(id, size)
            &&& w.durable == v.durable && w.pending == v.pending
            &&& w.touched[id] == w.clock
            &&& forall|q: PageId|
                q != id && #[trigger] w.touched.contains_key(q) ==> w.touched[q] == v.touched[q]
                    && w.touched[q] < w.touched[id]
            &&& w.hits == v.hits + 1
            &&& (w.misses, w.uploads, w.evictions) == (v.misses, v.uploads, v.evictions)
        }),
{
    lemma_total_with(v.sizes, id, size);
}

/// What a batch fetched is counted page by page, each with its own size.
pub proof fn a_fetched_batch_is_counted_with_its_sizes(
    v: TierView,
    ids: Seq<PageId>,
    fetched: Seq<Seq<u8>>,
)
    requires
        well_counted(v),
        ids.no_duplicates(),
        ids.len() == fetched.len(),
        forall|k: int|
            0 <= k < ids.len() && v.sizes.contains_key(#[trigger] ids[k]) ==> v.sizes[ids[k]]
                == fetched[k].len(),
        byte_total(v.sizes) + length_total(fetched) <= u64::MAX,
    ensures
        ({
            let w = all_filled(v, ids, fetched);
            &&& well_counted(w)
            &&& forall|k: int|
                0 <= k < ids.len() ==> w.sizes.contains_key(#[trigger] ids[k]) && w.sizes[ids[k]]
                    == fetched[k].len() && w.durable.contains(ids[k]) && !w.pending.contains(ids[k])
            &&& forall|q: PageId|
                !ids.contains(q) ==> (#[trigger] w.sizes.contains_key(q)
                    <==> v.sizes.contains_key(q)) && (v.sizes.contains_key(q) ==> w.sizes[q]
                    == v.sizes[q])
            &&& w.local_bytes <= v.local_bytes + length_total(fetched)
        }),
    decreases ids.len(),
{
    if ids.len() > 0 {
        let (init, got) = (ids.drop_last(), fetched.drop_last());
        let last = ids.len() - 1;
        let u = all_filled(v, init, got);
        assert forall|k: int|
            0 <= k < init.len() && v.sizes.contains_key(#[trigger] init[k]) implies v.sizes[init[k]]
            == got[k].len() by {
            assert(init[k] == ids[k]);
        }
        a_fetched_batch_is_counted_with_its_sizes(v, init, got);
        assert(ids[last] == ids.last());
        assert(fetched[last] == fetched.last());
        assert(!init.contains(ids.last())) by {
            if init.contains(ids.last()) {
                let k = choose|k: int| 0 <= k < init.len() && init[k] == ids.last();
                assert(ids[k] == ids[last]);
            }
        }
        assert(u.sizes.contains_key(ids.last()) <==> v.sizes.contains_key(ids.last()));
        let size = fetched.last().len();
        lemma_lengths(got);
        assert(0 <= size <= u64::MAX);
        lemma_total_with(u.sizes, ids.last(), size as u64);
        let w = all_filled(v, ids, fetched);
        assert forall|k: int| 0 <= k < ids.len() implies w.sizes.contains_key(#[trigger] ids[k])
            && w.sizes[ids[k]] == fetched[k].len() && w.durable.contains(ids[k])
            && !w.pending.contains(ids[k]) by {
            if k < last {
                assert(init[k] == ids[k]);
                assert(got[k] == fetched[k]);
            }
        }
        assert forall|q: PageId| !ids.contains(q) implies (#[trigger] w.sizes.contains_key(q)
            <==> v.sizes.contains_key(q)) && (v.sizes.contains_key(q) ==> w.sizes[q]
            == v.sizes[q]) by {
            assert(q != ids.last());
            if init.contains(q) {
                let k = choose|k: int| 0 <= k < init.len() && init[k] == q;
                assert(ids[k] == q);
            }
            assert(u.sizes.contains_key(q) <==> v.sizes.contains_key(q));
        }
    }
}

/// Lengths added up.
pub open spec fn length_total(s: Seq<Seq<u8>>) -> int
    decreases s.len(),
{
    if s.len() == 0 {
        0
    } else {
        length_total(s.drop_last()) + s.last().len()
    }
}

proof fn lemma_lengths(s: Seq<Seq<u8>>)
    ensures
        length_total(s) >= 0,
    decreases s.len(),
{
    if s.len() > 0 {
        lemma_lengths(s.drop_last());
    }
}

/// A page that is no longer held is no longer counted, and nothing else changes.
pub proof fn a_page_that_is_gone_is_not_counted(v: TierView, id: PageId)
    requires
        well_counted(v),
    ensures
        ({
            let w = forgotten(v, id);
            &&& well_counted(w)
            &&& w.sizes == v.sizes.remove(id)
            &&& w.touched == v.touched.remove(id)
            &&& w.durable == v.durable.remove(id)
            &&& w.pending == v.pending
            &&& byte_total(v.sizes) == byte_total(w.sizes) + (if v.sizes.contains_key(id) {
                v.sizes[id] as int
            } else {
                0
            })
        }),
{
    if v.sizes.contains_key(id) {
        lemma_total_without(v.sizes, id);
    } else {
        assert(v.sizes.remove(id) =~= v.sizes);
    }
}

proof fn lemma_evicted_total(v: TierView, gone: Seq<PageId>)
    requires
        well_counted(v),
    ensures
        well_counted(after_evicting(v, gone)),
        reclaimed(v, gone) == byte_total(v.sizes) - byte_total(after_evicting(v, gone).sizes),
        forall|q: PageId|
            #![trigger after_evicting(v, gone).sizes.contains_key(q)]
            #![trigger v.sizes.contains_key(q)]
            after_evicting(v, gone).sizes.contains_key(q) <==> v.sizes.contains_key(q)
                && !gone.contains(q),
        forall|q: PageId| #[trigger]
            after_evicting(v, gone).sizes.contains_key(q) ==> after_evicting(v, gone).sizes[q]
                == v.sizes[q],
        forall|q: PageId| #[trigger]
            after_evicting(v, gone).durable.contains(q) <==> v.durable.contains(q)
                && !gone.contains(q),
        after_evicting(v, gone).pending == v.pending,
    decreases gone.len(),
{
    if gone.len() > 0 {
        let init = gone.drop_last();
        let u = after_evicting(v, init);
        lemma_evicted_total(v, init);
        a_page_that_is_gone_is_not_counted(u, gone.last());
        lemma_total_is_positive(after_evicting(v, gone).sizes);
        assert forall|q: PageId| #[trigger] gone.contains(q) <==> init.contains(q) || q
            == gone.last() by {
            lemma_popped(gone, q);
        }
        assert(gone.contains(gone.last()));
    } else {
        lemma_total_is_positive(v.sizes);
    }
}

/// What an eviction that succeeded does, in terms of the pages and their sizes: what is still counted
/// has at most so many bytes in all, or nothing that is left may go. It says exactly how many bytes
/// went, takes no page that waits for an upload or is not confirmed, takes none while the rest would
/// have fitted, and every page that it took is out of the local store, while every other page is
/// still there.
pub proof fn an_eviction_gets_within_the_budget<C: Cas>(
    a: TieredCas<C>,
    b: TieredCas<C>,
    max_bytes: u64,
    gone: Seq<PageId>,
    n: u64,
)
    requires
        evicted(a, b, max_bytes, gone, Ok(n)),
        well_counted(a.tier()),
    ensures
        well_counted(b.tier()),
        byte_total(b.tier().sizes) <= max_bytes || forall|q: PageId| #[trigger]
            b.tier().durable.contains(q) ==> b.tier().pending.contains(q),
        n == byte_total(a.tier().sizes) - byte_total(b.tier().sizes),
        b.tier().pending == a.tier().pending,
        forall|q: PageId| #[trigger]
            gone.contains(q) ==> a.tier().durable.contains(q) && !a.tier().pending.contains(q)
                && !b.tier().sizes.contains_key(q) && !b.spec_local().held_pages().contains(q),
        forall|q: PageId|
            !gone.contains(q) ==> (#[trigger] b.spec_local().held_pages().contains(q)
                <==> a.spec_local().held_pages().contains(q)),
        forall|q: PageId|
            !gone.contains(q) ==> (#[trigger] b.tier().sizes.contains_key(q)
                <==> a.tier().sizes.contains_key(q)),
        byte_total(a.tier().sizes) <= max_bytes ==> gone.len() == 0 && n == 0,
{
    let v = a.tier();
    lemma_evicted_total(v, gone);
    assert forall|q: PageId| #[trigger] gone.contains(q) implies v.durable.contains(q)
        && !v.pending.contains(q) && !b.tier().sizes.contains_key(q)
        && !b.spec_local().held_pages().contains(q) by {
        eviction_never_drops_the_only_copy(v, gone, max_bytes, q);
    }
    if !(b.tier().local_bytes <= max_bytes) {
        assert forall|q: PageId| #[trigger] b.tier().durable.contains(q) implies b.tier().pending.contains(
            q,
        ) by {
            assert(!evictable(b.tier(), q));
        }
    }
    if byte_total(v.sizes) <= max_bytes && gone.len() > 0 {
        lemma_first_is_over(v, gone, max_bytes);
    }
}

proof fn lemma_first_is_over(v: TierView, gone: Seq<PageId>, max_bytes: u64)
    requires
        eviction_run(v, gone, max_bytes),
        gone.len() > 0,
    ensures
        v.local_bytes > max_bytes,
    decreases gone.len(),
{
    if gone.len() > 1 {
        lemma_first_is_over(v, gone.drop_last(), max_bytes);
    }
}

/// The page that goes is the one that was not used for longest: of two pages that both might go, and
/// of which one went and the other is still there, the one that went was used no later. One that was
/// never used goes before any that was.
pub proof fn the_page_that_was_used_longest_ago_goes_first<C: Cas>(
    a: TieredCas<C>,
    b: TieredCas<C>,
    max_bytes: u64,
    gone: Seq<PageId>,
    r: Result<u64, StoreError>,
    went: PageId,
    stays: PageId,
)
    requires
        evicted(a, b, max_bytes, gone, r),
        gone.contains(went),
        a.tier().durable.contains(stays) && !a.tier().pending.contains(stays) && !gone.contains(
            stays,
        ),
        forall|q: PageId| #[trigger] a.tier().touched.contains_key(q) ==> a.tier().touched[q] > 0,
    ensures
        a.tier().touched.contains_key(went) ==> a.tier().touched.contains_key(stays)
            && a.tier().touched[went] <= a.tier().touched[stays],
{
    let v = a.tier();
    lemma_left(v, gone, stays);
    the_coldest_pages_go_first(v, gone, max_bytes, went, stays);
}

proof fn lemma_left(v: TierView, gone: Seq<PageId>, id: PageId)
    ensures
        after_evicting(v, gone).durable.contains(id) <==> v.durable.contains(id) && !gone.contains(
            id,
        ),
        after_evicting(v, gone).pending == v.pending,
    decreases gone.len(),
{
    if gone.len() > 0 {
        lemma_left(v, gone.drop_last(), id);
        lemma_popped(gone, id);
    }
}

/// Dropping the local pages succeeds on a steady store exactly where every one of them is confirmed
/// to be in object storage and none waits for its upload. Then none is left and nothing is counted.
/// Otherwise all of them stay.
pub proof fn local_pages_are_dropped_only_where_all_are_confirmed<C: Cas>(
    a: TieredCas<C>,
    b: TieredCas<C>,
    r: Result<(), StoreError>,
)
    requires
        dropped(a, b, r),
        a.spec_local().steady(),
        a.tier().pending.finite(),
    ensures
        r is Ok <==> a.tier().pending == Set::<PageId>::empty() && forall|id: PageId| #[trigger]
            a.spec_local().held_pages().contains(id) ==> a.tier().durable.contains(id),
        r is Ok ==> b.spec_local().held_pages() == Set::<PageId>::empty() && b.tier().local_bytes
            == 0 && b.tier().sizes == Map::<PageId, u64>::empty(),
        r is Err ==> b.spec_local() == a.spec_local() && b.tier() == a.tier(),
{
    let v = a.tier();
    if v.pending.len() == 0 {
        assert(v.pending =~= Set::<PageId>::empty());
    } else if v.pending == Set::<PageId>::empty() {
        assert(v.pending.len() == 0);
    }
    if let Err(StoreError::PageLost(s)) = r {
        let n = choose|n: nat| #[trigger] would_lose(v, a.spec_local(), n) && s@ == decimal(n)
            + " page(s) are not yet durable in object storage; dropping local state now would lose them"@;
        if v.pending.len() == 0 {
            let id = choose|id: PageId| #[trigger] unconfirmed(v, a.spec_local().held_pages(), id);
            assert(a.spec_local().held_pages().contains(id));
        }
    }
}

/// A read gives what is held locally, where it is held; else what was fetched, if it is what the id
/// says, and nothing where nothing was fetched.
pub proof fn a_read_gives_the_local_page_or_a_good_copy(
    pages: Map<PageId, Seq<u8>>,
    hasher: PageHasher,
    id: PageId,
    fetched: Option<Seq<u8>>,
)
    ensures
        pages.contains_key(id) ==> answer(pages, hasher, id, fetched) == Some(pages[id]),
        !pages.contains_key(id) && fetched is Some && hasher.id_of(fetched.unwrap()) == id
            ==> answer(pages, hasher, id, fetched) == fetched,
        !pages.contains_key(id) && !(fetched is Some && hasher.id_of(fetched.unwrap()) == id)
            ==> answer(pages, hasher, id, fetched) is None,
{
}

/// The figures are those of the tier: what waits and what is confirmed is counted page by page.
pub proof fn the_figures_are_those_of_the_tier<C: Cas>(t: &TieredCas<C>, s: TierStats)
    requires
        call_ensures(TieredCas::<C>::stats, (t,), s),
        t.tier().durable.len() <= u64::MAX,
        t.tier().pending.len() <= u64::MAX,
    ensures
        s.local_bytes == t.tier().local_bytes,
        s.durable == t.tier().durable.len(),
        s.pending_upload == t.tier().pending.len(),
        s.hits == t.tier().hits,
        s.misses == t.tier().misses,
        s.uploads == t.tier().uploads,
        s.evictions == t.tier().evictions,
{
}

/// A new tier holds nothing, knows nothing, and has counted nothing.
pub proof fn a_new_tier_is_empty<C: Cas>(
    local: C,
    remote: RemoteTier,
    hasher: PageHasher,
    t: TieredCas<C>,
)
    requires
        call_ensures(TieredCas::<C>::new, (local, remote, hasher), t),
    ensures
        t.spec_local() == local,
        t.tier().durable == Set::<PageId>::empty() && t.tier().pending == Set::<PageId>::empty(),
        t.tier().sizes == Map::<PageId, u64>::empty() && t.tier().local_bytes == 0,
        t.tier().touched == Map::<PageId, u64>::empty() && t.tier().clock == 0,
        t.tier().hits + t.tier().misses + t.tier().uploads + t.tier().evictions == 0,
        well_counted(t.tier()),
{
    assert(t.tier().sizes.dom() =~= Set::<PageId>::empty());
}

/// On a steady store a page is known to be there where it is held or confirmed; what is to be uploaded is
/// the page's own bytes, under its own key; and the list of pending uploads has each of them once.
pub proof fn an_upload_is_the_page_under_its_key<C: Cas>(
    t: &TieredCas<C>,
    id: PageId,
    known: Result<bool, PagerError>,
    r: Result<(String, Vec<u8>), PagerError>,
    pending: Vec<PageId>,
)
    requires
        call_ensures(TieredCas::<C>::contains, (t, id), known),
        call_ensures(TieredCas::<C>::upload_of, (t, id), r),
        call_ensures(TieredCas::<C>::pending_uploads, (t,), pending),
        t.spec_local().steady(),
    ensures
        known is Ok && (known->Ok_0 <==> t.spec_local().held_pages().contains(id)
            || t.tier().durable.contains(id)),
        r is Ok <==> t.spec_local().pages().contains_key(id),
        r matches Ok(u) ==> t.spec_local().pages().get(id) == Some(u.1@) && u.0@ == object_path(
            page_key_text(t.spec_pool(), id),
        ),
        r is Err && !t.spec_local().held_pages().contains(id) ==> r->Err_0@ == Fault::MissingPage(id),
        pending@.contains(id) <==> t.tier().pending.contains(id),
        pending@.no_duplicates(),
{
}

/// No page goes that need not: with the last one that went the rest would have been over the budget. None
/// goes twice, and every one that went is counted as an eviction.
pub proof fn no_page_goes_that_need_not<C: Cas>(
    a: TieredCas<C>,
    b: TieredCas<C>,
    max_bytes: u64,
    gone: Seq<PageId>,
    r: Result<u64, StoreError>,
)
    requires
        evicted(a, b, max_bytes, gone, r),
        well_counted(a.tier()),
    ensures
        gone.len() > 0 ==> byte_total(b.tier().sizes) + (match a.tier().sizes.get(gone.last()) {
            Some(size) => size as int,
            None => 0,
        }) > max_bytes,
        gone.no_duplicates(),
        a.tier().evictions + gone.len() <= u64::MAX ==> b.tier().evictions == a.tier().evictions
            + gone.len(),
{
    let v = a.tier();
    lemma_none_goes_twice(v, gone, max_bytes);
    if gone.len() > 0 {
        let init = gone.drop_last();
        let u = after_evicting(v, init);
        lemma_evicted_total(v, init);
        lemma_evicted_total(v, gone);
        lemma_none_goes_twice(v, init, max_bytes);
        assert(!init.contains(gone.last()));
        if u.sizes.contains_key(gone.last()) {
            lemma_total_without(u.sizes, gone.last());
            assert(b.tier().sizes =~= u.sizes.remove(gone.last()));
        } else {
            assert(b.tier().sizes =~= u.sizes);
        }
    }
}

proof fn lemma_none_goes_twice(v: TierView, gone: Seq<PageId>, max_bytes: u64)
    requires
        eviction_run(v, gone, max_bytes),
        well_counted(v),
    ensures
        gone.no_duplicates(),
        gone.len() > 0 ==> !gone.drop_last().contains(gone.last()),
        v.evictions + gone.len() <= u64::MAX ==> after_evicting(v, gone).evictions == v.evictions
            + gone.len(),
    decreases gone.len(),
{
    if gone.len() > 0 {
        let init = gone.drop_last();
        lemma_none_goes_twice(v, init, max_bytes);
        lemma_evicted_total(v, init);
        assert(evictable(after_evicting(v, init), gone.last()));
        assert(!init.contains(gone.last()));
        assert forall|i: int, j: int|
            0 <= i < gone.len() && 0 <= j < gone.len() && i != j implies gone[i] != gone[j] by {
            if i < init.len() && j < init.len() {
                assert(init[i] != init[j]);
            } else if i < init.len() {
                assert(init[i] == gone[i]);
                assert(init.contains(gone[i]));
            } else {
                assert(init[j] == gone[j]);
                assert(init.contains(gone[j]));
            }
        }
    }
}

/// A batch counts as a hit every page that is held and asked for, once however often it is asked for, and
/// knows its size from then on. What it is told of other pages, and what is confirmed or waits, stays.
pub proof fn a_batch_counts_every_page_once(
    v: TierView,
    pages: Map<PageId, Seq<u8>>,
    ids: Seq<PageId>,
    q: PageId,
)
    requires
        v.hits + ids.len() <= u64::MAX,
    ensures
        ({
            let w = begun(v, pages, ids);
            &&& w.hits == v.hits + ids.to_set().filter(|p: PageId| pages.contains_key(p)).len()
            &&& w.sizes.get(q) == (if ids.contains(q) && pages.contains_key(q) {
                Some(pages[q].len() as u64)
            } else {
                v.sizes.get(q)
            })
            &&& w.durable == v.durable && w.pending == v.pending
            &&& (w.misses, w.uploads, w.evictions) == (v.misses, v.uploads, v.evictions)
        }),
        ids.to_set().filter(|p: PageId| pages.contains_key(p)).finite(),
        ids.to_set().filter(|p: PageId| pages.contains_key(p)).len() <= ids.len(),
    decreases ids.len(),
{
    let there = |p: PageId| pages.contains_key(p);
    if ids.len() == 0 {
        assert(ids.to_set().filter(there) =~= Set::empty());
        assert(!ids.contains(q));
    } else {
        let (init, id) = (ids.drop_last(), ids.last());
        a_batch_counts_every_page_once(v, pages, init, q);
        lemma_popped(ids, q);
        assert forall|p: PageId| #[trigger] ids.to_set().contains(p) <==> init.to_set().contains(p)
            || p == id by {
            lemma_popped(ids, p);
        }
        let (few, all) = (init.to_set().filter(there), ids.to_set().filter(there));
        if init.contains(id) || !pages.contains_key(id) {
            assert(all =~= few);
        } else {
            assert(all =~= few.insert(id));
            assert(!few.contains(id));
        }
    }
}

/// A batch is refused for a page that is at fault: one for which nothing was fetched or, where something
/// was for each, one whose bytes hash to something else. A good fetch is never refused.
pub proof fn a_batch_is_refused_for_what_is_missing_or_damaged(
    hasher: PageHasher,
    ids: Seq<PageId>,
    fetched: Seq<Option<Vec<u8>>>,
    e: Fault,
) -> (k: int)
    requires
        refused(hasher, ids, fetched, e),
        ids.len() == fetched.len(),
    ensures
        0 <= k < ids.len(),
        !all_good(hasher, ids, fetched),
        e is MissingPage || e is CorruptPage,
        e is MissingPage ==> e == Fault::MissingPage(ids[k]) && fetched[k] is None,
        e is CorruptPage ==> e->CorruptPage_expected == ids[k] && fetched[k] is Some && hasher.id_of(
            fetched[k].unwrap()@,
        ) != ids[k] && e->CorruptPage_actual == hasher.id_of(fetched[k].unwrap()@) && forall|j: int|
            0 <= j < fetched.len() ==> (#[trigger] fetched[j]) is Some,
{
    let k = choose|k: int|
        0 <= k < ids.len() && (match bytes_of(#[trigger] fetched[k]) {
            None => (forall|j: int| 0 <= j < k ==> (#[trigger] fetched[j]) is Some) && e
                == Fault::MissingPage(ids[k]),
            Some(b) => {
                &&& forall|j: int| 0 <= j < fetched.len() ==> (#[trigger] fetched[j]) is Some
                &&& forall|j: int|
                    0 <= j < k ==> hasher.id_of(bytes_of(#[trigger] fetched[j]).unwrap()) == ids[j]
                &&& hasher.id_of(b) != ids[k]
                &&& e == (Fault::CorruptPage {
                    expected: ids[k],
                    actual: hasher.id_of(b),
                    len: b.len(),
                })
            },
        });
    assert(bytes_of(fetched[k]) is None <==> fetched[k] is None);
    k
}

} // verus!
