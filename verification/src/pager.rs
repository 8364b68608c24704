//! The page store: manifests over pages, with a head, forks, history and garbage collection.
//!
//! A fork is a second head over the same pages and manifests. Its commits write new manifests and
//! move its own head; nothing that another head points at changes.

use crate::cas::{
    is_failure, manifest_put, page_put, same_but_manifests, same_but_pages, unread, Backing, Cas, ManifestStore, MemCas, MemManifestStore, MemStore, Parts,
};
use crate::chain::{
    added, ancestor, changes_something, derivable, derived, has_history, is_ancestor, is_merge_base,
    lemma_ancestor_chain, lemma_closed_set, lemma_history_ends, lemma_reachable_step,
    lemma_root_reachable, live, looked_up, lookup_within, nearest_at, points_at, reachable,
    refers_to, related, removed, resolve_within, resolved, Manifests, Writes, MAX_HOPS,
};
use crate::clock::{may_say, Clock};
use crate::diff::{change_at, class_at, tabulates, PageDiff, ThreeWayDiff};
use crate::error::{Fault, PagerError};
use crate::fsstore::{other_files_do_not_matter, same_under, FsStore};
use crate::gc::GcStats;
use crate::manifest::{
    apply, apply_changes, empty_view, BodyView, Manifest, ManifestId, ManifestView, PageChanges,
    PageMap,
};
use crate::ordmap::{Key, OrdMap};
use crate::page::{
    page_size_ok, validate_page_size, LogicalPageNo, Page, PageHasher, PageId, DEFAULT_PAGE_SIZE,
    MAX_PAGE_SIZE,
};
use crate::pagemap::{entries, increasing, lemma_map_of_increasing, lemma_map_of_keys, map_of};
use crate::path::VPath;
use crate::text::hex;
use crate::vfs::{dirs_made, Vfs};
use std::collections::BTreeMap;
use std::sync::Arc;
use vstd::prelude::*;

verus! {

/// Which identity schemes a store may be created with.
#[derive(Clone, Copy, Debug, PartialEq, Eq, Structural)]
pub enum IdentityPolicy {
    /// Keyed or not.
    Any,
    /// Keyed only: page identity that cannot be confirmed by guessing the plaintext.
    KeyedOnly,
}

/// How a store is created.
pub struct StoreConfig {
    /// The page size in bytes, fixed for the life of the store.
    pub page_size: usize,
    /// How page identity is computed.
    pub hasher: PageHasher,
    /// The pool that the store belongs to. Pools never share pages.
    pub pool: String,
    /// Whether an unkeyed store may be created at all.
    pub policy: IdentityPolicy,
}

impl Default for StoreConfig {
    fn default() -> (c: StoreConfig)
        ensures
            c.page_size == DEFAULT_PAGE_SIZE,
            c.hasher == PageHasher::Unkeyed,
            c.pool@ == "default"@,
            c.policy == IdentityPolicy::Any,
    {
        StoreConfig {
            page_size: DEFAULT_PAGE_SIZE,
            hasher: PageHasher::Unkeyed,
            pool: "default".to_owned(),
            policy: IdentityPolicy::Any,
        }
    }
}

impl Clone for StoreConfig {
    fn clone(&self) -> (c: StoreConfig)
        ensures
            c.page_size == self.page_size,
            c.hasher == self.hasher,
            c.pool@ == self.pool@,
            c.policy == self.policy,
    {
        StoreConfig {
            page_size: self.page_size,
            hasher: self.hasher.clone(),
            pool: self.pool.clone(),
            policy: self.policy,
        }
    }
}

impl StoreConfig {
    /// Why a store cannot be created like this, if it cannot.
    pub open spec fn refusal(&self) -> Option<Fault> {
        if !page_size_ok(self.page_size as int) {
            Some(Fault::InvalidPageSize(self.page_size))
        } else if self.policy == IdentityPolicy::KeyedOnly && self.hasher is Unkeyed {
            Some(Fault::UnkeyedStoreInKeyedBuild)
        } else {
            None
        }
    }

    /// Refuses what no store may be created with.
    pub fn check(&self) -> (r: Result<(), PagerError>)
        ensures
            match r {
                Ok(()) => self.refusal() is None,
                Err(e) => self.refusal() == Some(e@),
            },
    {
        match validate_page_size(self.page_size) {
            Ok(()) => {},
            Err(e) => {
                return Err(e);
            },
        }
        if self.policy == IdentityPolicy::KeyedOnly && !self.hasher.is_keyed() {
            return Err(PagerError::UnkeyedStoreInKeyedBuild);
        }
        Ok(())
    }
}

/// A set of page writes in progress. No reader sees it before it is committed.
///
/// Staged pages are pinned: they are stored but nothing refers to them yet, and a collection in
/// between must not take them.
pub struct Txn {
    writes: PageChanges,
    base: ManifestId,
    pinned: Vec<PageId>,
}

impl Txn {
    /// The staged writes.
    pub closed spec fn staged(&self) -> Writes {
        self.writes@
    }

    /// The manifest that the transaction is layered on.
    pub closed spec fn spec_base(&self) -> ManifestId {
        self.base
    }

    /// The pages it has pinned, each as often as it was staged.
    pub closed spec fn spec_pinned(&self) -> Seq<PageId> {
        self.pinned@
    }

    /// How many logical pages the transaction touches.
    pub fn len(&self) -> (n: usize)
        ensures
            n == self.staged().dom().len(),
    {
        broadcast use vstd::std_specs::btree::group_btree_axioms;

        self.writes.len()
    }

    /// Whether it touches none.
    pub fn is_empty(&self) -> (r: bool)
        ensures
            r == self.staged().is_empty(),
    {
        self.writes.is_empty()
    }

    /// The manifest that the transaction is layered on.
    pub fn base(&self) -> (id: ManifestId)
        ensures
            id == self.spec_base(),
    {
        self.base
    }

    /// The staged writes; `None` means that the page is being removed.
    pub fn writes(&self) -> (w: &PageChanges)
        ensures
            w@ == self.staged(),
    {
        &self.writes
    }
}

/// Pages that must not be collected though no manifest refers to them yet, with how often each
/// was pinned.
pub struct PinRegistry {
    pins: OrdMap<PageId, usize>,
}

/// The counts after one more pin of `id`.
pub open spec fn pinned_once(pins: Map<PageId, usize>, id: PageId) -> Map<PageId, usize> {
    let n = if pins.contains_key(id) {
        pins[id] as int
    } else {
        0
    };
    pins.insert(
        id,
        if n < usize::MAX {
            (n + 1) as usize
        } else {
            usize::MAX
        },
    )
}

/// The counts after one pin of `id` was released.
pub open spec fn unpinned_once(pins: Map<PageId, usize>, id: PageId) -> Map<PageId, usize> {
    if !pins.contains_key(id) {
        pins
    } else if pins[id] <= 1 {
        pins.remove(id)
    } else {
        pins.insert(id, (pins[id] - 1) as usize)
    }
}

/// The counts after one pin of each of `ids` was released.
pub open spec fn unpinned(pins: Map<PageId, usize>, ids: Seq<PageId>) -> Map<PageId, usize>
    decreases ids.len(),
{
    if ids.len() == 0 {
        pins
    } else {
        unpinned_once(unpinned(pins, ids.drop_last()), ids.last())
    }
}

impl View for PinRegistry {
    type V = Map<PageId, usize>;

    closed spec fn view(&self) -> Map<PageId, usize> {
        self.pins@
    }
}

impl PinRegistry {
    /// No pins.
    pub fn new() -> (p: PinRegistry)
        ensures
            p@ == Map::<PageId, usize>::empty(),
    {
        PinRegistry { pins: OrdMap::new() }
    }

    /// Pins a page once more.
    pub fn pin(&mut self, id: PageId)
        ensures
            final(self)@ == pinned_once(old(self)@, id),
    {
        let n: usize = match self.pins.get(&id) {
            Some(n) => *n,
            None => 0,
        };
        self.pins.insert(id, n.saturating_add(1));
    }

    /// Releases one pin of a page.
    pub fn unpin(&mut self, id: PageId)
        ensures
            final(self)@ == unpinned_once(old(self)@, id),
    {
        let n: usize = match self.pins.get(&id) {
            Some(n) => *n,
            None => {
                return ;
            },
        };
        if n <= 1 {
            self.pins.remove(&id);
        } else {
            self.pins.insert(id, n - 1);
        }
    }

    /// Releases one pin of each page.
    pub fn unpin_all(&mut self, ids: &Vec<PageId>)
        ensures
            final(self)@ == unpinned(old(self)@, ids@),
    {
        let n: usize = ids.len();
        let mut i: usize = 0;
        assert(ids@.take(0) =~= Seq::empty());
        while i < n
            invariant
                n == ids@.len(),
                i <= n,
                self@ == unpinned(old(self)@, ids@.take(i as int)),
            decreases n - i,
        {
            self.unpin(ids[i]);
            assert(ids@.take(i as int + 1).drop_last() =~= ids@.take(i as int));
            i = i + 1;
        }
        assert(ids@.take(n as int) =~= ids@);
    }

    /// Every pinned page.
    pub fn pinned(&self) -> (out: Vec<PageId>)
        ensures
            forall|id: PageId| #[trigger] out@.contains(id) <==> self@.contains_key(id),
    {
        let out = self.pins.keys();
        proof {
            assert forall|id: PageId| #[trigger]
                out@.contains(id) <==> self@.contains_key(id) by {
                if self@.contains_key(id) {
                    let i = choose|i: int|
                        0 <= i < out@.len() && (#[trigger] out@[i]).ident() == id;
                    assert(out@[i] == id);
                }
                if out@.contains(id) {
                    let i = choose|i: int| 0 <= i < out@.len() && out@[i] == id;
                    assert(self@.contains_key(out@[i].ident()));
                }
            }
        }
        out
    }
}

/// Pinning and releasing again leaves everything as it was.
pub proof fn releasing_undoes_pinning(pins: Map<PageId, usize>, id: PageId)
    requires
        pins.contains_key(id) ==> 0 < pins[id] < usize::MAX,
    ensures
        unpinned_once(pinned_once(pins, id), id) == pins,
{
    assert(unpinned_once(pinned_once(pins, id), id) =~= pins);
}

/// `Arc::clone` of the standard library: another handle to the same manifest.
#[verifier::external_body]
fn share(m: &Arc<Manifest>) -> (r: Arc<Manifest>)
    ensures
        r == *m,
{
    Arc::clone(m)
}

/// How many decoded manifests are kept in memory.
pub const CACHE_CAPACITY: usize = 2048;

/// A bounded cache of decoded manifests. When it is full it is cleared.
pub struct ManifestCache {
    entries: OrdMap<ManifestId, Arc<Manifest>>,
}

impl View for ManifestCache {
    type V = Map<ManifestId, Arc<Manifest>>;

    closed spec fn view(&self) -> Map<ManifestId, Arc<Manifest>> {
        self.entries@
    }
}

impl ManifestCache {
    /// An empty cache.
    pub fn new() -> (c: ManifestCache)
        ensures
            c@ == Map::<ManifestId, Arc<Manifest>>::empty(),
    {
        ManifestCache { entries: OrdMap::new() }
    }

    /// A cached manifest.
    pub fn get(&self, id: &ManifestId) -> (r: Option<Arc<Manifest>>)
        ensures
            match r {
                Some(m) => self@.contains_key(*id) && m == self@[*id],
                None => !self@.contains_key(*id),
            },
    {
        match self.entries.get(id) {
            Some(m) => Some(share(m)),
            None => None,
        }
    }

    /// Caches a manifest, clearing the cache first where it is full.
    pub fn insert(&mut self, id: ManifestId, manifest: Arc<Manifest>)
        ensures
            final(self)@ == (if old(self)@.dom().len() >= CACHE_CAPACITY {
                Map::<ManifestId, Arc<Manifest>>::empty()
            } else {
                old(self)@
            }).insert(id, manifest),
    {
        if self.entries.len() >= CACHE_CAPACITY {
            self.entries.clear();
        }
        self.entries.insert(id, manifest);
    }

    /// Drops a manifest.
    pub fn forget(&mut self, id: &ManifestId)
        ensures
            final(self)@ == old(self)@.remove(*id),
    {
        self.entries.remove(id);
    }
}

/// A manifest cannot be read for a reason that lies in what is stored.
pub open spec fn unreadable(e: Fault) -> bool {
    e is MissingManifest || e is Codec
}

/// Why the chain of a manifest cannot be walked down to its pages within `hops` bases: the first
/// base that cannot be read, or that there are more of them.
pub open spec fn chain_breaks<B: Backing>(
    b: B,
    id: ManifestId,
    m: ManifestView,
    hops: nat,
    e: Fault,
) -> bool
    decreases hops,
{
    match m.overlay_base() {
        None => false,
        Some(base) => if !b.manifests().contains_key(base) {
            unread(b, base, e)
        } else if hops == 0 {
            e == Fault::MissingManifest(
                hex(id.0@).take(12) + ": "@ + "overlay chain exceeds the maximum depth of 8"@,
            )
        } else {
            chain_breaks(b, id, b.manifests()[base], (hops - 1) as nat, e)
        },
    }
}

/// Why the pages of this manifest cannot be told: it or what it is built on cannot be read.
pub open spec fn unresolvable<B: Backing>(b: B, id: ManifestId, e: Fault) -> bool {
    unread(b, id, e) || (b.manifests().contains_key(id) && chain_breaks(
        b,
        id,
        b.manifests()[id],
        MAX_HOPS as nat,
        e,
    ))
}

/// Why it cannot be told within `hops` bases what is at one page.
pub open spec fn lookup_breaks<B: Backing>(b: B, m: ManifestView, k: u64, hops: nat, e: Fault) -> bool
    decreases hops,
{
    match (m.local_lookup(k), m.overlay_base()) {
        (None, Some(base)) => if hops == 0 {
            e == Fault::MissingManifest("overlay chain exceeds the maximum depth of 8"@)
        } else if !b.manifests().contains_key(base) {
            unread(b, base, e)
        } else {
            lookup_breaks(b, b.manifests()[base], k, (hops - 1) as nat, e)
        },
        _ => false,
    }
}

/// Why it cannot be told what is at one page of this manifest.
pub open spec fn unfindable<B: Backing>(b: B, id: ManifestId, k: u64, e: Fault) -> bool {
    unread(b, id, e) || (b.manifests().contains_key(id) && lookup_breaks(
        b,
        b.manifests()[id],
        k,
        MAX_HOPS as nat,
        e,
    ))
}

/// Why nothing can be derived from this base: it cannot be told what is at one of the pages that are
/// written, or what all its pages are.
pub open spec fn underivable<B: Backing>(b: B, base: ManifestId, writes: Writes, e: Fault) -> bool {
    ||| unresolvable(b, base, e)
    ||| exists|k: u64| #[trigger] writes.contains_key(k) && unfindable(b, base, k, e)
}

/// Why the history of this manifest cannot be told: one of its ancestors cannot be read.
pub open spec fn forgotten<B: Backing>(b: B, id: ManifestId, e: Fault) -> bool {
    exists|x: ManifestId| #[trigger] is_ancestor(b.manifests(), x, id) && unread(b, x, e)
}

proof fn lemma_chain_breaks<B: Backing>(b: B, id: ManifestId, m: ManifestView, hops: nat, e: Fault)
    requires
        chain_breaks(b, id, m, hops, e),
    ensures
        unreadable(e),
        resolve_within(b.manifests(), m, hops) is None,
    decreases hops,
{
    if let Some(base) = m.overlay_base() {
        if b.manifests().contains_key(base) && hops > 0 {
            lemma_chain_breaks(b, id, b.manifests()[base], (hops - 1) as nat, e);
        }
    }
}

proof fn lemma_lookup_breaks<B: Backing>(b: B, m: ManifestView, k: u64, hops: nat, e: Fault)
    requires
        lookup_breaks(b, m, k, hops, e),
    ensures
        unreadable(e),
        lookup_within(b.manifests(), m, k, hops) is None,
    decreases hops,
{
    if let Some(base) = m.overlay_base() {
        if b.manifests().contains_key(base) && hops > 0 {
            lemma_lookup_breaks(b, b.manifests()[base], k, (hops - 1) as nat, e);
        }
    }
}

/// A manifest whose pages cannot be told for this reason does not resolve.
pub proof fn lemma_unresolvable<B: Backing>(b: B, id: ManifestId, e: Fault)
    requires
        unresolvable(b, id, e),
    ensures
        unreadable(e),
        resolved(b.manifests(), id) is None,
{
    if b.manifests().contains_key(id) {
        lemma_chain_breaks(b, id, b.manifests()[id], MAX_HOPS as nat, e);
    }
}

/// Where it cannot be told what is at a page, no lookup tells it.
proof fn lemma_no_lookup<B: Backing>(
    b: B,
    id: ManifestId,
    k: u64,
    r: Result<Option<PageId>, PagerError>,
)
    ensures
        r matches Err(e) ==> unfindable(b, id, k, e@) ==> looked_up(b.manifests(), id, k) is None,
{
    if r is Err && b.manifests().contains_key(id) {
        if lookup_breaks(b, b.manifests()[id], k, MAX_HOPS as nat, r->Err_0@) {
            lemma_lookup_breaks(b, b.manifests()[id], k, MAX_HOPS as nat, r->Err_0@);
        }
    }
}

/// The reason why nothing can be derived lies in what is stored.
pub proof fn lemma_underivable<B: Backing>(b: B, base: ManifestId, writes: Writes, e: Fault)
    requires
        underivable(b, base, writes, e),
    ensures
        unreadable(e),
{
    if unresolvable(b, base, e) {
        lemma_unresolvable(b, base, e);
    } else {
        let k = choose|k: u64| #[trigger] writes.contains_key(k) && unfindable(b, base, k, e);
        if b.manifests().contains_key(base) {
            lemma_lookup_breaks(b, b.manifests()[base], k, MAX_HOPS as nat, e);
        }
    }
}

/// The reference implementation of [`PageStore`].
pub struct Pager<S: Cas + ManifestStore, C: Clock> {
    store: S,
    cache: ManifestCache,
    pins: PinRegistry,
    head: ManifestId,
    config: StoreConfig,
    clock: C,
}

impl<S: Cas + ManifestStore, C: Clock> Pager<S, C> {
    /// The pages and manifests underneath.
    pub closed spec fn backing(&self) -> S {
        self.store
    }

    /// The manifests that can be read.
    pub open spec fn ms(&self) -> Manifests {
        self.backing().manifests()
    }

    /// The current manifest.
    pub closed spec fn spec_head(&self) -> ManifestId {
        self.head
    }

    /// The pages that are pinned, and how often.
    pub closed spec fn pin_counts(&self) -> Map<PageId, usize> {
        self.pins@
    }

    /// How the store was created.
    pub closed spec fn spec_config(&self) -> StoreConfig {
        self.config
    }

    /// The clock.
    pub closed spec fn spec_clock(&self) -> C {
        self.clock
    }

    /// The store keeps its own rules, and the cache holds only what the store would give.
    pub closed spec fn wf(&self) -> bool {
        &&& self.store.inv()
        &&& self.config.page_size <= MAX_PAGE_SIZE
        &&& forall|id: ManifestId| #[trigger]
            self.cache@.contains_key(id) ==> self.store.manifests().contains_key(id) && (
            *self.cache@[id])@ == self.store.manifests()[id]
    }

    /// The manifests that were decoded and kept.
    pub closed spec fn cached(&self) -> Map<ManifestId, Arc<Manifest>> {
        self.cache@
    }

    /// What the clock says.
    pub(crate) fn now_ms(&self) -> (ms: u64)
        ensures
            may_say(self.spec_clock(), ms),
    {
        self.clock.now_ms()
    }

    /// A well-formed pager's store keeps its rules.
    pub proof fn lemma_wf(&self)
        requires
            self.wf(),
        ensures
            self.backing().inv(),
    {
    }

    /// Nothing but the cache may differ.
    pub open spec fn same_but_cache(&self, other: &Self) -> bool {
        &&& other.backing() == self.backing()
        &&& other.spec_head() == self.spec_head()
        &&& other.pin_counts() == self.pin_counts()
        &&& other.spec_config() == self.spec_config()
        &&& other.spec_clock() == self.spec_clock()
    }

    /// Nothing but the cache and the head may differ.
    pub open spec fn same_but_head(&self, other: &Self) -> bool {
        &&& other.backing() == self.backing()
        &&& other.pin_counts() == self.pin_counts()
        &&& other.spec_config() == self.spec_config()
        &&& other.spec_clock() == self.spec_clock()
    }

    /// Nothing but the cache and the stored manifests may differ.
    pub open spec fn same_but_stored_manifests(&self, other: &Self) -> bool {
        &&& other.spec_head() == self.spec_head()
        &&& other.pin_counts() == self.pin_counts()
        &&& other.spec_config() == self.spec_config()
        &&& other.spec_clock() == self.spec_clock()
        &&& same_but_manifests(self.backing(), other.backing())
    }

    /// A store at its empty root manifest.
    fn assemble(store: S, config: StoreConfig, clock: C) -> (r: Result<Self, PagerError>)
        requires
            store.inv(),
            config.page_size <= MAX_PAGE_SIZE,
        ensures
            match r {
                Ok(p) => p.wf() && p.spec_config() == config && p.spec_clock() == clock
                    && p.pin_counts() == Map::<PageId, usize>::empty() && p.spec_head()
                    == empty_view(config.page_size).id() && same_but_manifests(store, p.backing())
                    && manifest_put(store, p.backing(), empty_view(config.page_size)),
                Err(e) => !store.steady() && is_failure(e@),
            },
    {
        let mut store = store;
        let root = Manifest::empty(config.page_size);
        match ManifestStore::put(&mut store, &root) {
            Ok(head) => Ok(
                Pager {
                    store,
                    cache: ManifestCache::new(),
                    pins: PinRegistry::new(),
                    head,
                    config,
                    clock,
                },
            ),
            Err(e) => Err(e),
        }
    }

    /// Assembles a store from pages and manifests that are kept by whoever calls.
    pub fn from_parts(store: S, config: StoreConfig, clock: C) -> (r: Result<Self, PagerError>)
        requires
            store.inv(),
        ensures
            match r {
                Ok(p) => config.refusal() is None && p.wf() && p.spec_config() == config
                    && p.spec_clock() == clock && p.pin_counts() == Map::<PageId, usize>::empty()
                    && p.spec_head() == empty_view(config.page_size).id() && same_but_manifests(
                    store,
                    p.backing(),
                ) && manifest_put(store, p.backing(), empty_view(config.page_size)),
                Err(e) => config.refusal() == Some(e@) || (config.refusal() is None
                    && !store.steady() && is_failure(e@)),
            },
    {
        match config.check() {
            Ok(()) => {},
            Err(e) => {
                return Err(e);
            },
        }
        Pager::assemble(store, config, clock)
    }

    /// Loads a manifest, decoding it at most once while it is cached.
    fn fetch(&mut self, id: ManifestId) -> (r: Result<Arc<Manifest>, PagerError>)
        requires
            old(self).wf(),
        ensures
            final(self).wf(),
            old(self).same_but_cache(final(self)),
            match r {
                Ok(m) => old(self).ms().contains_key(id) && (*m)@ == old(self).ms()[id],
                Err(e) => (!old(self).backing().steady() && is_failure(e@)) || unread(
                    old(self).backing(),
                    id,
                    e@,
                ),
            },
    {
        match self.cache.get(&id) {
            Some(hit) => {
                return Ok(hit);
            },
            None => {},
        }
        match ManifestStore::get(&self.store, id) {
            Ok(manifest) => {
                let shared = Arc::new(manifest);
                self.cache.insert(id, share(&shared));
                Ok(shared)
            },
            Err(e) => {
                proof {
                    self.store.contents_are_what_their_ids_say();
                }
                Err(e)
            },
        }
    }

    /// Walks an overlay chain to the complete page map.
    fn resolve_manifest(&mut self, id: ManifestId, manifest: &Manifest) -> (r: Result<
        PageMap,
        PagerError,
    >)
        requires
            old(self).wf(),
        ensures
            final(self).wf(),
            old(self).same_but_cache(final(self)),
            match r {
                Ok(pages) => resolve_within(old(self).ms(), manifest@, MAX_HOPS as nat) == Some(
                    pages@,
                ),
                Err(e) => (!old(self).backing().steady() && is_failure(e@)) || chain_breaks(
                    old(self).backing(),
                    id,
                    manifest@,
                    MAX_HOPS as nat,
                    e@,
                ),
            },
    {
        broadcast use vstd::std_specs::btree::group_btree_axioms;

        let ghost ms = self.ms();
        let ghost b = self.backing();
        let mut layers: Vec<Arc<Manifest>> = Vec::new();
        let mut current = Arc::new(manifest.clone());
        proof {
            assert(layers@ =~= Seq::empty());
        }
        loop
            invariant
                self.wf(),
                old(self).same_but_cache(self),
                ms == old(self).ms(),
                b == old(self).backing(),
                forall|e: Fault| #[trigger]
                    chain_breaks(b, id, manifest@, MAX_HOPS as nat, e) <==> chain_breaks(
                        b,
                        id,
                        (*current)@,
                        (MAX_HOPS - layers@.len()) as nat,
                        e,
                    ),
                layers@.len() <= MAX_HOPS,
                forall|i: int| 0 <= i < layers@.len() ==> (*#[trigger] layers@[i])@.body is Overlay,
                resolve_within(ms, manifest@, MAX_HOPS as nat) == stacked(
                    layers@,
                    resolve_within(ms, (*current)@, (MAX_HOPS - layers@.len()) as nat),
                ),
            ensures
                (*current)@.body is Flat,
            decreases MAX_HOPS - layers@.len(),
        {
            match current.overlay_base() {
                None => {
                    break ;
                },
                Some(base) => {
                    let next = match self.fetch(base) {
                        Ok(m) => m,
                        Err(e) => {
                            return Err(e);
                        },
                    };
                    if layers.len() >= MAX_HOPS {
                        let text = id.abbreviated().concat(": ").concat(
                            "overlay chain exceeds the maximum depth of 8",
                        );
                        return Err(PagerError::MissingManifest(text));
                    }
                    proof {
                        lemma_stacked_push(
                            layers@,
                            current,
                            resolve_within(
                                ms,
                                (*next)@,
                                (MAX_HOPS - layers@.len() - 1) as nat,
                            ),
                        );
                    }
                    layers.push(current);
                    current = next;
                },
            }
        }
        let mut pages: PageMap = match current.flat_pages() {
            Some(p) => p.clone(),
            None => BTreeMap::new(),
        };
        let mut n: usize = layers.len();
        proof {
            assert(layers@.take(n as int) =~= layers@);
        }
        while n > 0
            invariant
                n <= layers@.len(),
                forall|i: int| 0 <= i < layers@.len() ==> (*#[trigger] layers@[i])@.body is Overlay,
                resolve_within(ms, manifest@, MAX_HOPS as nat) == stacked(
                    layers@.take(n as int),
                    Some(pages@),
                ),
            decreases n,
        {
            n = n - 1;
            proof {
                assert(layers@.take(n as int + 1).drop_last() =~= layers@.take(n as int));
            }
            match layers[n].changes() {
                Some(changes) => {
                    apply(&mut pages, changes);
                },
                None => {},
            }
        }
        Ok(pages)
    }

    /// Resolves one page through the chain.
    fn lookup_page(&mut self, id: ManifestId, page_no: LogicalPageNo) -> (r: Result<
        Option<PageId>,
        PagerError,
    >)
        requires
            old(self).wf(),
        ensures
            final(self).wf(),
            old(self).same_but_cache(final(self)),
            match r {
                Ok(answer) => looked_up(old(self).ms(), id, page_no) == Some(answer),
                Err(e) => (!old(self).backing().steady() && is_failure(e@)) || unfindable(
                    old(self).backing(),
                    id,
                    page_no,
                    e@,
                ),
            },
    {
        let ghost ms = self.ms();
        let ghost b = self.backing();
        let mut current = match self.fetch(id) {
            Ok(m) => m,
            Err(e) => {
                return Err(e);
            },
        };
        let mut hops: usize = 0;
        loop
            invariant
                self.wf(),
                old(self).same_but_cache(self),
                ms == old(self).ms(),
                b == old(self).backing(),
                ms.contains_key(id),
                hops <= MAX_HOPS,
                forall|e: Fault| #[trigger]
                    lookup_breaks(b, ms[id], page_no, MAX_HOPS as nat, e) <==> lookup_breaks(
                        b,
                        (*current)@,
                        page_no,
                        (MAX_HOPS - hops) as nat,
                        e,
                    ),
                looked_up(ms, id, page_no) == lookup_within(
                    ms,
                    (*current)@,
                    page_no,
                    (MAX_HOPS - hops) as nat,
                ),
            decreases MAX_HOPS - hops,
        {
            match current.local_lookup(page_no) {
                Some(answer) => {
                    return Ok(answer);
                },
                None => match current.overlay_base() {
                    Some(base) => {
                        if hops >= MAX_HOPS {
                            return Err(
                                PagerError::MissingManifest(
                                    "overlay chain exceeds the maximum depth of 8".to_owned(),
                                ),
                            );
                        }
                        hops = hops + 1;
                        current = match self.fetch(base) {
                            Ok(m) => m,
                            Err(e) => {
                                return Err(e);
                            },
                        };
                    },
                    None => {
                        return Ok(None);
                    },
                },
            }
        }
    }
}

/// The first `i` keys of a list that have a property.
spec fn keys_where(list: Seq<(u64, Option<PageId>)>, i: int, f: spec_fn(u64) -> bool) -> Set<u64> {
    Set::new(|k: u64| crate::diff::has_key(list.take(i), k) && f(k))
}

proof fn lemma_keys_where(list: Seq<(u64, Option<PageId>)>, i: int, f: spec_fn(u64) -> bool)
    requires
        increasing(list),
        0 <= i < list.len(),
        keys_where(list, i, f).finite(),
    ensures
        keys_where(list, i + 1, f).finite(),
        keys_where(list, i + 1, f).len() == keys_where(list, i, f).len() + (if f(list[i].0) {
            1int
        } else {
            0int
        }),
{
    let a = keys_where(list, i, f);
    let b = keys_where(list, i + 1, f);
    let k0 = list[i].0;
    assert(!a.contains(k0)) by {
        if a.contains(k0) {
            let q = choose|q: int| 0 <= q < i && (#[trigger] list.take(i)[q]).0 == k0;
            assert(list[q].0 < list[i].0);
        }
    }
    assert forall|k: u64| b.contains(k) <==> a.contains(k) || (k == k0 && f(k0)) by {
        if b.contains(k) {
            let q = choose|q: int| 0 <= q < i + 1 && (#[trigger] list.take(i + 1)[q]).0 == k;
            if q < i {
                assert(list.take(i)[q].0 == k);
            }
        }
        if a.contains(k) {
            let q = choose|q: int| 0 <= q < i && (#[trigger] list.take(i)[q]).0 == k;
            assert(list.take(i + 1)[q].0 == k);
        }
        if k == k0 {
            assert(list.take(i + 1)[i].0 == k);
        }
    }
    if f(k0) {
        assert(b =~= a.insert(k0));
    } else {
        assert(b =~= a);
    }
}

impl<S: Cas + ManifestStore, C: Clock> Pager<S, C> {
    /// Computes the manifest that a transaction would produce, without storing anything.
    pub fn derive_next(&mut self, base: ManifestId, writes: &PageChanges, created_at_ms: u64) -> (r:
        Result<Option<(Manifest, ManifestId)>, PagerError>)
        requires
            old(self).wf(),
        ensures
            final(self).wf(),
            old(self).same_but_cache(final(self)),
            match r {
                Ok(None) => derivable(old(self).ms(), base, writes@) && !changes_something(
                    old(self).ms(),
                    base,
                    writes@,
                ),
                Ok(Some((m, id))) => derivable(old(self).ms(), base, writes@) && changes_something(
                    old(self).ms(),
                    base,
                    writes@,
                ) && m@ == derived(old(self).ms(), base, writes@, created_at_ms) && id == m@.id(),
                Err(e) => (!old(self).backing().steady() && is_failure(e@)) || (!derivable(
                    old(self).ms(),
                    base,
                    writes@,
                ) && underivable(old(self).backing(), base, writes@, e@)),
            },
    {
        broadcast use vstd::std_specs::btree::group_btree_axioms;

        let ghost ms = self.ms();
        let base_manifest = match self.fetch(base) {
            Ok(m) => m,
            Err(e) => {
                return Err(e);
            },
        };
        let list = entries(writes);
        let n: usize = list.len();
        let ghost is_added = |k: u64|
            looked_up(ms, base, k) == Some(None::<PageId>) && writes@[k] is Some;
        let ghost is_removed = |k: u64|
            (looked_up(ms, base, k) matches Some(Some(_))) && writes@[k] is None;
        proof {
            lemma_map_of_keys(list@);
            lemma_map_of_increasing(list@);
            assert(keys_where(list@, 0, is_added) =~= Set::empty());
            assert(keys_where(list@, 0, is_removed) =~= Set::empty());
        }
        let mut changes_anything = false;
        let mut plus: usize = 0;
        let mut minus: usize = 0;
        let mut i: usize = 0;
        while i < n
            invariant
                n == list@.len(),
                i <= n,
                self.wf(),
                old(self).same_but_cache(self),
                ms == old(self).ms(),
                ms.contains_key(base),
                increasing(list@),
                map_of(list@) == writes@,
                forall|q: int|
                    0 <= q < list@.len() ==> writes@.contains_key((#[trigger] list@[q]).0)
                        && writes@[list@[q].0] == list@[q].1,
                is_added == (|k: u64|
                    looked_up(ms, base, k) == Some(None::<PageId>) && writes@[k] is Some),
                is_removed == (|k: u64|
                    (looked_up(ms, base, k) matches Some(Some(_))) && writes@[k] is None),
                keys_where(list@, i as int, is_added).finite(),
                keys_where(list@, i as int, is_removed).finite(),
                plus == keys_where(list@, i as int, is_added).len(),
                minus == keys_where(list@, i as int, is_removed).len(),
                plus <= i,
                minus <= i,
                forall|q: int|
                    0 <= q < i ==> looked_up(ms, base, (#[trigger] list@[q]).0) is Some,
                changes_anything <==> exists|q: int|
                    0 <= q < i && looked_up(ms, base, (#[trigger] list@[q]).0) != Some(list@[q].1),
            decreases n - i,
        {
            let (page_no, content) = list[i];
            let existing = match self.lookup_page(base, page_no) {
                Ok(found) => found,
                Err(e) => {
                    proof {
                        assert(writes@.contains_key(list@[i as int].0));
                        if unfindable(old(self).backing(), base, page_no, e@) {
                            lemma_lookup_breaks(
                                old(self).backing(),
                                ms[base],
                                page_no,
                                MAX_HOPS as nat,
                                e@,
                            );
                        }
                    }
                    return Err(e);
                },
            };
            proof {
                lemma_keys_where(list@, i as int, is_added);
                lemma_keys_where(list@, i as int, is_removed);
                assert(list@[i as int].0 == page_no);
            }
            let ghost before = changes_anything;
            match (existing, content) {
                (Some(was), Some(new)) => {
                    if was != new {
                        changes_anything = true;
                    }
                },
                (None, None) => {},
                (None, Some(_)) => {
                    changes_anything = true;
                    plus = plus + 1;
                },
                (Some(_), None) => {
                    changes_anything = true;
                    minus = minus + 1;
                },
            }
            proof {
                if changes_anything && before {
                    let q = choose|q: int|
                        0 <= q < i && looked_up(ms, base, (#[trigger] list@[q]).0) != Some(
                            list@[q].1,
                        );
                    assert(looked_up(ms, base, list@[q].0) != Some(list@[q].1));
                }
            }
            i = i + 1;
        }
        proof {
            assert(list@.take(n as int) =~= list@);
            assert forall|k: u64| #[trigger] writes@.contains_key(k) implies looked_up(
                ms,
                base,
                k,
            ) is Some by {
                let q = choose|q: int| 0 <= q < list@.len() && (#[trigger] list@[q]).0 == k;
            }
            assert(changes_anything == changes_something(ms, base, writes@)) by {
                if changes_something(ms, base, writes@) {
                    let k = choose|k: u64| #[trigger]
                        writes@.contains_key(k) && looked_up(ms, base, k) != Some(writes@[k]);
                    let q = choose|q: int| 0 <= q < list@.len() && (#[trigger] list@[q]).0 == k;
                    assert(looked_up(ms, base, list@[q].0) != Some(list@[q].1));
                }
                if changes_anything {
                    let q = choose|q: int|
                        0 <= q < n && looked_up(ms, base, (#[trigger] list@[q]).0) != Some(
                            list@[q].1,
                        );
                    assert(writes@.contains_key(list@[q].0));
                }
            }
            assert forall|k: u64| crate::diff::has_key(list@, k) <==> writes@.contains_key(k) by {
                if writes@.contains_key(k) {
                    let q = choose|q: int| 0 <= q < list@.len() && (#[trigger] list@[q]).0 == k;
                }
            }
            assert(keys_where(list@, n as int, is_added) =~= added(ms, base, writes@));
            assert(keys_where(list@, n as int, is_removed) =~= removed(ms, base, writes@));
        }
        if !changes_anything {
            return Ok(None);
        }
        let next = if base_manifest.must_flatten() {
            let pages = match self.resolve_manifest(base, &base_manifest) {
                Ok(pages) => pages,
                Err(e) => {
                    proof {
                        if unresolvable(old(self).backing(), base, e@) {
                            lemma_unresolvable(old(self).backing(), base, e@);
                        }
                    }
                    return Err(e);
                },
            };
            Manifest::flatten_onto(base, &base_manifest, &pages, writes, created_at_ms)
        } else {
            let count: u64 = base_manifest.page_count;
            let start: i128 = if count <= 0x7fff_ffff_ffff_ffff {
                count as i128
            } else {
                count as i128 - 0x1_0000_0000_0000_0000
            };
            let sum: i128 = start + plus as i128 - minus as i128;
            let page_count: u64 = if sum < 0 {
                0
            } else {
                sum as u64
            };
            Manifest::overlay_on(base, &base_manifest, writes, page_count, created_at_ms)
        };
        match next.id() {
            Ok(id) => Ok(Some((next, id))),
            Err(e) => Err(e),
        }
    }

    /// Stores a manifest and returns its id. Only one that was not there before is cached as it
    /// is; one that was is read back from the store when it is needed.
    pub(crate) fn put_manifest(&mut self, manifest: &Manifest) -> (r: Result<ManifestId, PagerError>)
        requires
            old(self).wf(),
        ensures
            final(self).wf(),
            old(self).same_but_stored_manifests(final(self)),
            match r {
                Ok(id) => id == manifest@.id() && manifest_put(
                    old(self).backing(),
                    final(self).backing(),
                    manifest@,
                ),
                Err(e) => !old(self).backing().steady() && is_failure(e@) && (manifest_put(
                    old(self).backing(),
                    final(self).backing(),
                    manifest@,
                ) || (final(self).backing().held_manifests() == old(
                    self).backing().held_manifests() && final(self).ms() == old(self).ms())),
            },
    {
        let id = match manifest.id() {
            Ok(id) => id,
            Err(e) => {
                return Err(e);
            },
        };
        let held = match ManifestStore::contains(&self.store, id) {
            Ok(b) => b,
            Err(e) => {
                return Err(e);
            },
        };
        proof {
            self.store.contents_are_what_their_ids_say();
        }
        if held {
            self.cache.forget(&id);
        }
        assert(!self.cache@.contains_key(id)) by {
            if self.cache@.contains_key(id) {
                assert(self.store.manifests().dom().contains(id));
            }
        }
        match ManifestStore::put(&mut self.store, manifest) {
            Ok(_) => {},
            Err(e) => {
                return Err(e);
            },
        }
        if !held {
            self.cache.insert(id, Arc::new(manifest.clone()));
        }
        Ok(id)
    }

    /// Stores a manifest and makes it the head.
    pub fn install(&mut self, manifest: &Manifest) -> (r: Result<ManifestId, PagerError>)
        requires
            old(self).wf(),
        ensures
            final(self).wf(),
            final(self).pin_counts() == old(self).pin_counts(),
            final(self).spec_config() == old(self).spec_config(),
            final(self).spec_clock() == old(self).spec_clock(),
            same_but_manifests(old(self).backing(), final(self).backing()),
            match r {
                Ok(id) => id == manifest@.id() && final(self).spec_head() == id && manifest_put(
                    old(self).backing(),
                    final(self).backing(),
                    manifest@,
                ),
                Err(e) => final(self).spec_head() == old(self).spec_head() && !old(
                    self).backing().steady() && is_failure(e@) && (manifest_put(
                    old(self).backing(),
                    final(self).backing(),
                    manifest@,
                ) || (final(self).backing().held_manifests() == old(
                    self).backing().held_manifests() && final(self).ms() == old(self).ms())),
            },
    {
        match self.put_manifest(manifest) {
            Ok(id) => {
                self.head = id;
                Ok(id)
            },
            Err(e) => Err(e),
        }
    }

    /// The empty root manifest of this store, stored if need be: the fixed base of every replay.
    pub fn root_manifest(&mut self) -> (r: Result<ManifestId, PagerError>)
        requires
            old(self).wf(),
        ensures
            final(self).wf(),
            old(self).same_but_stored_manifests(final(self)),
            match r {
                Ok(id) => id == empty_view(old(self).spec_config().page_size).id() && manifest_put(
                    old(self).backing(),
                    final(self).backing(),
                    empty_view(old(self).spec_config().page_size),
                ),
                Err(e) => !old(self).backing().steady() && is_failure(e@) && (manifest_put(
                    old(self).backing(),
                    final(self).backing(),
                    empty_view(old(self).spec_config().page_size),
                ) || (final(self).backing().held_manifests() == old(
                    self).backing().held_manifests() && final(self).ms() == old(self).ms())),
            },
    {
        let root = Manifest::empty(self.config.page_size);
        self.put_manifest(&root)
    }

    /// Points the store at a manifest that is already stored.
    pub fn set_head_to(&mut self, id: ManifestId) -> (r: Result<(), PagerError>)
        requires
            old(self).wf(),
        ensures
            final(self).wf(),
            old(self).same_but_head(final(self)),
            match r {
                Ok(()) => old(self).backing().held_manifests().contains(id) && final(
                    self).spec_head() == id,
                Err(e) => final(self).spec_head() == old(self).spec_head() && ((!old(
                    self).backing().held_manifests().contains(id) && e@ == Fault::MissingManifest(
                    hex(id.0@),
                )) || (!old(self).backing().steady() && is_failure(e@))),
            },
    {
        match ManifestStore::contains(&self.store, id) {
            Ok(true) => {
                self.head = id;
                Ok(())
            },
            Ok(false) => Err(PagerError::MissingManifest(id.to_hex())),
            Err(e) => Err(e),
        }
    }

    /// A second head over the same store, positioned at a stored manifest.
    pub fn at(&self, manifest: ManifestId) -> (r: Result<Fork, PagerError>)
        requires
            self.wf(),
        ensures
            match r {
                Ok(f) => self.backing().held_manifests().contains(manifest) && f.spec_head()
                    == manifest,
                Err(e) => (!self.backing().held_manifests().contains(manifest) && e@
                    == Fault::MissingManifest(hex(manifest.0@))) || (!self.backing().steady()
                    && is_failure(e@)),
            },
    {
        match ManifestStore::contains(&self.store, manifest) {
            Ok(true) => Ok(Fork { head: manifest }),
            Ok(false) => Err(PagerError::MissingManifest(manifest.to_hex())),
            Err(e) => Err(e),
        }
    }

    /// The pages and manifests underneath.
    pub fn manifest_store(&self) -> (s: &S)
        ensures
            *s == self.backing(),
    {
        &self.store
    }

    /// The pages and manifests underneath.
    pub fn cas(&self) -> (s: &S)
        ensures
            *s == self.backing(),
    {
        &self.store
    }

    /// Every manifest that the roots lead to, through parents and overlay bases.
    fn reachable_manifests(&mut self, roots: &[ManifestId]) -> (r: Result<
        OrdMap<ManifestId, ()>,
        PagerError,
    >)
        requires
            old(self).wf(),
        ensures
            final(self).wf(),
            old(self).same_but_cache(final(self)),
            match r {
                Ok(seen) => forall|id: ManifestId| #[trigger]
                    seen@.contains_key(id) <==> reachable(old(self).ms(), roots@, id),
                Err(e) => (!old(self).backing().steady() && is_failure(e@)) || (exists|
                    id: ManifestId,
                | #[trigger]
                    reachable(old(self).ms(), roots@, id) && unread(old(self).backing(), id, e@)),
            },
            r is Ok ==> forall|id: ManifestId| #[trigger]
                reachable(old(self).ms(), roots@, id) ==> old(self).ms().contains_key(id),
    {
        let ghost ms = self.ms();
        let mut seen: OrdMap<ManifestId, ()> = OrdMap::new();
        let mut stack: Vec<ManifestId> = Vec::new();
        let mut i: usize = 0;
        while i < roots.len()
            invariant
                i <= roots.len(),
                stack@ =~= roots@.take(i as int),
            decreases roots.len() - i,
        {
            stack.push(roots[i]);
            i = i + 1;
        }
        proof {
            assert(stack@ =~= roots@);
            assert(seen@.dom() =~= Set::empty());
            lemma_closing_start(ms, roots@);
        }
        while stack.len() > 0
            invariant
                self.wf(),
                old(self).same_but_cache(self),
                ms == old(self).ms(),
                seen@.dom().finite(),
                seen@.dom().len() <= usize::MAX,
                closing(ms, roots@, seen@.dom(), stack@),
            decreases usize::MAX - seen@.dom().len(), stack@.len(),
        {
            let ghost before = stack@;
            let id = stack[stack.len() - 1];
            let _ = stack.pop();
            if seen.contains(&id) {
                proof {
                    lemma_closing_skip(ms, roots@, seen@.dom(), before);
                }
            } else {
                let manifest = match self.fetch(id) {
                    Ok(m) => m,
                    Err(e) => {
                        proof {
                            assert(before[before.len() - 1] == id);
                            assert(before.contains(id));
                        }
                        return Err(e);
                    },
                };
                let ghost seen_before = seen@.dom();
                seen.insert(id, ());
                match manifest.parent {
                    Some(parent) => {
                        stack.push(parent);
                    },
                    None => {},
                }
                match manifest.overlay_base() {
                    Some(base) => {
                        stack.push(base);
                    },
                    None => {},
                }
                proof {
                    lemma_closing_expand(ms, roots@, seen_before, before, stack@);
                    assert(seen@.dom() =~= seen_before.insert(id));
                }
            }
        }
        proof {
            assert(stack@ =~= Seq::empty());
            lemma_closing_done(ms, roots@, seen@.dom());
            assert forall|id: ManifestId| #[trigger]
                seen@.contains_key(id) <==> reachable(ms, roots@, id) by {
                assert(seen@.dom().contains(id) <==> seen@.contains_key(id));
            }
        }
        Ok(seen)
    }

    /// The ids from a manifest back to its root, newest first. Where history goes in a circle the
    /// walk ends when it comes round.
    fn ancestors(&mut self, id: ManifestId) -> (r: Result<Vec<ManifestId>, PagerError>)
        requires
            old(self).wf(),
        ensures
            final(self).wf(),
            old(self).same_but_cache(final(self)),
            match r {
                Ok(out) => {
                    &&& forall|n: int|
                        0 <= n < out@.len() ==> ancestor(old(self).ms(), id, n as nat) == Some(
                            #[trigger] out@[n],
                        )
                    &&& forall|x: ManifestId| #[trigger]
                        is_ancestor(old(self).ms(), x, id) <==> out@.contains(x)
                    &&& has_history(old(self).ms(), id)
                },
                Err(e) => (!old(self).backing().steady() && is_failure(e@)) || (!has_history(
                    old(self).ms(),
                    id,
                ) && forgotten(old(self).backing(), id, e@)),
            },
    {
        let ghost ms = self.ms();
        let mut out: Vec<ManifestId> = Vec::new();
        let mut seen: OrdMap<ManifestId, ()> = OrdMap::new();
        let mut current: Option<ManifestId> = Some(id);
        let mut round = false;
        while current.is_some() && !round
            invariant
                self.wf(),
                old(self).same_but_cache(self),
                ms == old(self).ms(),
                seen@.dom().finite(),
                seen@.dom().len() <= usize::MAX,
                current == ancestor(ms, id, out@.len()),
                forall|n: int|
                    0 <= n < out@.len() ==> ancestor(ms, id, n as nat) == Some(#[trigger] out@[n])
                        && ms.contains_key(out@[n]),
                forall|x: ManifestId| #[trigger] seen@.contains_key(x) <==> out@.contains(x),
                round ==> current is Some && out@.contains(current.unwrap()),
            decreases usize::MAX - seen@.dom().len(), !round as int,
        {
            let next = match current {
                Some(next) => next,
                None => id,
            };
            if seen.contains(&next) {
                round = true;
            } else {
                let manifest = match self.fetch(next) {
                    Ok(m) => m,
                    Err(e) => {
                        proof {
                            assert(ancestor(ms, id, out@.len()) == Some(next));
                            assert(is_ancestor(ms, next, id));
                        }
                        return Err(e);
                    },
                };
                let ghost before = out@;
                seen.insert(next, ());
                out.push(next);
                proof {
                    assert forall|x: ManifestId| #[trigger]
                        seen@.contains_key(x) <==> out@.contains(x) by {
                        if out@.contains(x) {
                            let q = choose|q: int| 0 <= q < out@.len() && out@[q] == x;
                            if q < before.len() {
                                assert(before[q] == x);
                                assert(before.contains(x));
                            }
                        }
                        if before.contains(x) {
                            let q = choose|q: int| 0 <= q < before.len() && before[q] == x;
                            assert(out@[q] == x);
                        }
                        if x == next {
                            assert(out@[before.len() as int] == x);
                        }
                    }
                }
                current = manifest.parent;
            }
        }
        proof {
            assert forall|n: nat| #[trigger] ancestor(ms, id, n) is Some implies out@.contains(
                ancestor(ms, id, n).unwrap(),
            ) by {
                lemma_walk_covers(ms, id, out@, n);
            }
            assert forall|x: ManifestId| #[trigger]
                is_ancestor(ms, x, id) <==> out@.contains(x) by {
                if is_ancestor(ms, x, id) {
                    let n = choose|n: nat| #[trigger] ancestor(ms, id, n) == Some(x);
                }
                if out@.contains(x) {
                    let q = choose|q: int| 0 <= q < out@.len() && out@[q] == x;
                    assert(ancestor(ms, id, q as nat) == Some(x));
                }
            }
            assert forall|n: nat|
                (#[trigger] ancestor(ms, id, n)) matches Some(x) implies ms.contains_key(
                ancestor(ms, id, n).unwrap(),
            ) by {
                let x = ancestor(ms, id, n).unwrap();
                let q = choose|q: int| 0 <= q < out@.len() && out@[q] == x;
                assert(ms.contains_key(out@[q]));
            }
        }
        Ok(out)
    }
}

/// A search from the roots in progress: what was seen is reachable and readable, and whatever it
/// points at was seen or is still on the stack.
pub open spec fn closing(
    ms: Manifests,
    roots: Seq<ManifestId>,
    seen: Set<ManifestId>,
    stack: Seq<ManifestId>,
) -> bool {
    &&& forall|x: ManifestId| #[trigger] stack.contains(x) ==> reachable(ms, roots, x)
    &&& forall|x: ManifestId| #[trigger]
        seen.contains(x) ==> reachable(ms, roots, x) && ms.contains_key(x)
    &&& forall|x: ManifestId| #[trigger]
        roots.contains(x) ==> seen.contains(x) || stack.contains(x)
    &&& forall|x: ManifestId, y: ManifestId|
        seen.contains(x) && #[trigger] points_at(ms, x, y) ==> seen.contains(y) || stack.contains(y)
}

/// A search starts with the roots on the stack.
pub proof fn lemma_closing_start(ms: Manifests, roots: Seq<ManifestId>)
    ensures
        closing(ms, roots, Set::empty(), roots),
{
    assert forall|x: ManifestId| #[trigger] roots.contains(x) implies reachable(ms, roots, x) by {
        lemma_root_reachable(ms, roots, x);
    }
}

/// A search that has nothing more on its stack has seen what is reachable.
pub proof fn lemma_closing_done(ms: Manifests, roots: Seq<ManifestId>, seen: Set<ManifestId>)
    requires
        closing(ms, roots, seen, Seq::empty()),
    ensures
        forall|id: ManifestId|
            #![trigger seen.contains(id)]
            #![trigger reachable(ms, roots, id)]
            seen.contains(id) <==> reachable(ms, roots, id),
        forall|id: ManifestId| #[trigger] reachable(ms, roots, id) ==> ms.contains_key(id),
{
    assert forall|id: ManifestId| #[trigger] reachable(ms, roots, id) implies seen.contains(id) by {
        lemma_closed_set(ms, roots, seen, id);
    }
}

/// What a stack has without its top.
pub proof fn lemma_popped<T>(stack: Seq<T>, x: T)
    requires
        stack.len() > 0,
    ensures
        stack.contains(x) <==> stack.drop_last().contains(x) || x == stack.last(),
{
    if stack.contains(x) {
        let q = choose|q: int| 0 <= q < stack.len() && stack[q] == x;
        if q < stack.len() - 1 {
            assert(stack.drop_last()[q] == x);
        }
    }
    if stack.drop_last().contains(x) {
        let q = choose|q: int| 0 <= q < stack.len() - 1 && stack.drop_last()[q] == x;
        assert(stack[q] == x);
    }
    assert(stack[stack.len() - 1] == stack.last());
}

/// A manifest that was seen before is passed over.
pub proof fn lemma_closing_skip(
    ms: Manifests,
    roots: Seq<ManifestId>,
    seen: Set<ManifestId>,
    stack: Seq<ManifestId>,
)
    requires
        closing(ms, roots, seen, stack),
        stack.len() > 0,
        seen.contains(stack.last()),
    ensures
        closing(ms, roots, seen, stack.drop_last()),
{
    assert forall|x: ManifestId| stack.contains(x) <==> #[trigger] stack.drop_last().contains(x)
        || x == stack.last() by {
        lemma_popped(stack, x);
    }
    let rest = stack.drop_last();
    assert forall|x: ManifestId| #[trigger] roots.contains(x) implies seen.contains(x)
        || rest.contains(x) by {
        lemma_popped(stack, x);
    }
    assert forall|x: ManifestId, y: ManifestId|
        seen.contains(x) && #[trigger] points_at(ms, x, y) implies seen.contains(y)
        || rest.contains(y) by {
        lemma_popped(stack, y);
    }
}

/// A manifest is seen, and what it points at goes on the stack.
pub proof fn lemma_closing_expand(
    ms: Manifests,
    roots: Seq<ManifestId>,
    seen: Set<ManifestId>,
    stack: Seq<ManifestId>,
    next: Seq<ManifestId>,
)
    requires
        closing(ms, roots, seen, stack),
        stack.len() > 0,
        ms.contains_key(stack.last()),
        pushed_next(ms[stack.last()].parent, ms[stack.last()].overlay_base(), stack, next)
            || pushed_next(ms[stack.last()].overlay_base(), ms[stack.last()].parent, stack, next),
    ensures
        closing(ms, roots, seen.insert(stack.last()), next),
{
    let id = stack.last();
    let m = ms[id];
    let rest = stack.drop_last();
    assert forall|x: ManifestId| #[trigger] next.contains(x) <==> rest.contains(x) || m.parent
        == Some(x) || m.overlay_base() == Some(x) by {
        if pushed_next(m.parent, m.overlay_base(), stack, next) {
            lemma_pushed_next(m.parent, m.overlay_base(), stack, next, x);
        } else {
            lemma_pushed_next(m.overlay_base(), m.parent, stack, next, x);
        }
    }
    assert forall|x: ManifestId| #[trigger] next.contains(x) implies reachable(ms, roots, x) by {
        lemma_popped(stack, x);
        lemma_popped(stack, id);
        if !rest.contains(x) {
            assert(points_at(ms, id, x));
            lemma_reachable_step(ms, roots, id, x);
        }
    }
    assert forall|x: ManifestId| #[trigger] seen.insert(id).contains(x) implies reachable(
        ms,
        roots,
        x,
    ) && ms.contains_key(x) by {
        lemma_popped(stack, id);
    }
    assert forall|x: ManifestId| #[trigger] roots.contains(x) implies seen.insert(id).contains(x)
        || next.contains(x) by {
        lemma_popped(stack, x);
    }
    assert forall|x: ManifestId, y: ManifestId|
        seen.insert(id).contains(x) && #[trigger] points_at(ms, x, y) implies seen.insert(
        id,
    ).contains(y) || next.contains(y) by {
        lemma_popped(stack, y);
    }
}

/// The stack without its top, and with these two on it, if they are there.
pub open spec fn pushed_next(
    first: Option<ManifestId>,
    second: Option<ManifestId>,
    stack: Seq<ManifestId>,
    next: Seq<ManifestId>,
) -> bool {
    let a = match first {
        Some(p) => stack.drop_last().push(p),
        None => stack.drop_last(),
    };
    next == match second {
        Some(b) => a.push(b),
        None => a,
    }
}

proof fn lemma_pushed_next(
    first: Option<ManifestId>,
    second: Option<ManifestId>,
    stack: Seq<ManifestId>,
    next: Seq<ManifestId>,
    x: ManifestId,
)
    requires
        stack.len() > 0,
        pushed_next(first, second, stack, next),
    ensures
        next.contains(x) <==> stack.drop_last().contains(x) || first == Some(x) || second == Some(x),
{
    let rest = stack.drop_last();
    let a = match first {
        Some(p) => rest.push(p),
        None => rest,
    };
    if first is Some {
        lemma_popped(a, x);
        assert(a.drop_last() =~= rest);
    }
    if second is Some {
        lemma_popped(next, x);
        assert(next.drop_last() =~= a);
    }
}

/// A walk that ended, or came round, has seen every ancestor.
proof fn lemma_walk_covers(ms: Manifests, id: ManifestId, out: Seq<ManifestId>, n: nat)
    requires
        forall|k: int|
            0 <= k < out.len() ==> ancestor(ms, id, k as nat) == Some(#[trigger] out[k]),
        ancestor(ms, id, out.len()) matches Some(x) ==> out.contains(x),
        ancestor(ms, id, n) is Some,
    ensures
        out.contains(ancestor(ms, id, n).unwrap()),
    decreases n,
{
    if n < out.len() {
        assert(out[n as int] == ancestor(ms, id, n).unwrap());
    } else if ancestor(ms, id, out.len()) is None {
        lemma_history_ends(ms, id, out.len(), n);
    } else {
        let x = ancestor(ms, id, out.len()).unwrap();
        let j = choose|j: int| 0 <= j < out.len() && out[j] == x;
        let k = (n - out.len()) as nat;
        lemma_ancestor_chain(ms, id, x, out.len(), k);
        lemma_ancestor_chain(ms, id, x, j as nat, k);
        lemma_walk_covers(ms, id, out, (j + k) as nat);
    }
}

/// A second head over a store: what [`Pager::at`] and `fork` give.
#[derive(Clone, Copy, Debug)]
pub struct Fork {
    head: ManifestId,
}

impl Fork {
    /// Where the fork is.
    pub closed spec fn spec_head(&self) -> ManifestId {
        self.head
    }
}

/// Layers of changes put on top of each other, the first on top.
pub closed spec fn stacked(layers: Seq<Arc<Manifest>>, bottom: Option<Map<u64, PageId>>) -> Option<
    Map<u64, PageId>,
>
    decreases layers.len(),
{
    if layers.len() == 0 {
        bottom
    } else {
        stacked(
            layers.drop_last(),
            match bottom {
                Some(pages) => match (*layers.last())@.body {
                    BodyView::Overlay { changes, .. } => Some(apply_changes(pages, changes)),
                    BodyView::Flat(_) => Some(pages),
                },
                None => None,
            },
        )
    }
}

proof fn lemma_stacked_push(
    layers: Seq<Arc<Manifest>>,
    top: Arc<Manifest>,
    bottom: Option<Map<u64, PageId>>,
)
    ensures
        stacked(layers.push(top), bottom) == stacked(
            layers,
            match bottom {
                Some(pages) => match (*top)@.body {
                    BodyView::Overlay { changes, .. } => Some(apply_changes(pages, changes)),
                    BodyView::Flat(_) => Some(pages),
                },
                None => None,
            },
        ),
{
    assert(layers.push(top).drop_last() =~= layers);
}


// ---------------------------------------------------------------------------------------------
// Garbage collection.
// ---------------------------------------------------------------------------------------------

/// From `a` to `b` things were dropped, none of them to be kept, and nothing else happened.
pub open spec fn trimmed<K, T>(
    a_held: Set<K>,
    a: Map<K, T>,
    b_held: Set<K>,
    b: Map<K, T>,
    keep: Set<K>,
) -> bool {
    &&& b_held.subset_of(a_held)
    &&& forall|k: K| #[trigger] keep.contains(k) && a_held.contains(k) ==> b_held.contains(k)
    &&& forall|k: K| #[trigger] b.contains_key(k) ==> a.contains_key(k) && a[k] == b[k]
    &&& forall|k: K|
        #![trigger keep.contains(k)]
        #![trigger b.contains_key(k)]
        keep.contains(k) && a.contains_key(k) ==> b.contains_key(k)
}

/// How many of the first `i` are to be kept, where none occurs twice.
pub open spec fn first_kept<K>(list: Seq<K>, i: int, keep: Set<K>) -> Set<K> {
    list.take(i).to_set().intersect(keep)
}

/// How many of the first `i` are not to be kept, where none occurs twice.
pub open spec fn first_dropped<K>(list: Seq<K>, i: int, keep: Set<K>) -> Set<K> {
    list.take(i).to_set().difference(keep)
}

/// One more of the list is to be kept, or not.
pub proof fn lemma_first_step<K>(list: Seq<K>, i: int, keep: Set<K>)
    requires
        0 <= i < list.len(),
        list.no_duplicates(),
    ensures
        first_kept(list, i + 1, keep).len() == first_kept(list, i, keep).len() + (if keep.contains(
            list[i],
        ) {
            1int
        } else {
            0int
        }),
        first_dropped(list, i + 1, keep).len() == first_dropped(list, i, keep).len() + (
        if keep.contains(list[i]) {
            0int
        } else {
            1int
        }),
{
    let a = list.take(i);
    let b = list.take(i + 1);
    vstd::seq_lib::seq_to_set_is_finite(a);
    vstd::seq_lib::seq_to_set_is_finite(b);
    assert(b =~= a.push(list[i]));
    assert forall|x: K| b.to_set().contains(x) <==> a.to_set().contains(x) || x == list[i] by {
        if b.contains(x) {
            let q = choose|q: int| 0 <= q < b.len() && b[q] == x;
            if q < i {
                assert(a[q] == x);
            }
        }
        if a.contains(x) {
            let q = choose|q: int| 0 <= q < a.len() && a[q] == x;
            assert(b[q] == x);
        }
        assert(b[i] == list[i]);
    }
    assert(!a.to_set().contains(list[i])) by {
        if a.contains(list[i]) {
            let q = choose|q: int| 0 <= q < a.len() && a[q] == list[i];
            assert(list[q] == list[i]);
        }
    }
    if keep.contains(list[i]) {
        assert(first_kept(list, i + 1, keep) =~= first_kept(list, i, keep).insert(list[i]));
        assert(first_dropped(list, i + 1, keep) =~= first_dropped(list, i, keep));
    } else {
        assert(first_kept(list, i + 1, keep) =~= first_kept(list, i, keep));
        assert(first_dropped(list, i + 1, keep) =~= first_dropped(list, i, keep).insert(list[i]));
    }
}

/// Adds every page of a map to a set of pages.
pub(crate) fn add_values(set: &mut OrdMap<PageId, ()>, pages: &PageMap)
    ensures
        forall|p: PageId| #[trigger]
            final(set)@.contains_key(p) <==> old(set)@.contains_key(p) || pages@.contains_value(p),
{
    let list = entries(pages);
    proof {
        lemma_map_of_keys(list@);
        lemma_map_of_increasing(list@);
    }
    let n: usize = list.len();
    let mut i: usize = 0;
    while i < n
        invariant
            n == list@.len(),
            i <= n,
            forall|p: PageId| #[trigger]
                set@.contains_key(p) <==> old(set)@.contains_key(p) || has_value(
                    list@.take(i as int),
                    p,
                ),
        decreases n - i,
    {
        let ghost before = set@;
        set.insert(list[i].1, ());
        proof {
            assert forall|p: PageId| #[trigger] has_value(list@.take(i as int + 1), p) <==> has_value(
                list@.take(i as int),
                p,
            ) || p == list@[i as int].1 by {
                let a = list@.take(i as int);
                let b = list@.take(i as int + 1);
                if has_value(b, p) {
                    let q = choose|q: int| 0 <= q < b.len() && (#[trigger] b[q]).1 == p;
                    if q < i {
                        assert(a[q].1 == p);
                    }
                }
                if has_value(a, p) {
                    let q = choose|q: int| 0 <= q < a.len() && (#[trigger] a[q]).1 == p;
                    assert(b[q].1 == p);
                }
                assert(b[i as int] == list@[i as int]);
            }
            assert forall|p: PageId| #[trigger]
                set@.contains_key(p) <==> old(set)@.contains_key(p) || has_value(
                    list@.take(i as int + 1),
                    p,
                ) by {
                assert(before.contains_key(p) <==> old(set)@.contains_key(p) || has_value(
                    list@.take(i as int),
                    p,
                ));
                assert(set@.contains_key(p) <==> before.contains_key(p) || p == list@[i as int].1);
            }
        }
        i = i + 1;
    }
    proof {
        assert(list@.take(n as int) =~= list@);
        assert forall|p: PageId| has_value(list@, p) <==> pages@.contains_value(p) by {
            if has_value(list@, p) {
                let q = choose|q: int| 0 <= q < list@.len() && (#[trigger] list@[q]).1 == p;
                assert(pages@.contains_key(list@[q].0) && pages@[list@[q].0] == p);
            }
            if pages@.contains_value(p) {
                let k = choose|k: u64| #[trigger] pages@.contains_key(k) && pages@[k] == p;
                let q = choose|q: int| 0 <= q < list@.len() && (#[trigger] list@[q]).0 == k;
                assert(list@[q].1 == p);
            }
        }
    }
}

/// Some entry has this value.
spec fn has_value(s: Seq<(u64, PageId)>, p: PageId) -> bool {
    exists|i: int| 0 <= i < s.len() && (#[trigger] s[i]).1 == p
}

impl<S: Cas + ManifestStore, C: Clock> Pager<S, C> {
    /// Head, pins, configuration and clock are the same.
    pub open spec fn same_but_backing(&self, other: &Self) -> bool {
        &&& other.spec_head() == self.spec_head()
        &&& other.pin_counts() == self.pin_counts()
        &&& other.spec_config() == self.spec_config()
        &&& other.spec_clock() == self.spec_clock()
    }

    /// What a collection with these roots has to keep: pages that some reachable manifest refers
    /// to, and pinned ones.
    pub open spec fn kept_pages(&self, roots: Seq<ManifestId>) -> Set<PageId> {
        Set::new(|p: PageId| live(self.ms(), roots, p) || self.pin_counts().contains_key(p))
    }

    /// The manifests that the roots lead to.
    pub open spec fn kept_manifests(&self, roots: Seq<ManifestId>) -> Set<ManifestId> {
        Set::new(|id: ManifestId| reachable(self.ms(), roots, id))
    }

    /// Every manifest that the roots lead to can be resolved.
    pub open spec fn all_resolve(&self, roots: Seq<ManifestId>) -> bool {
        forall|id: ManifestId| #[trigger]
            reachable(self.ms(), roots, id) ==> resolved(self.ms(), id) is Some
    }

    /// The pages that the reachable manifests refer to.
    fn live_pages(&mut self, reached: &OrdMap<ManifestId, ()>) -> (r: Result<
        OrdMap<PageId, ()>,
        PagerError,
    >)
        requires
            old(self).wf(),
        ensures
            final(self).wf(),
            old(self).same_but_cache(final(self)),
            match r {
                Ok(set) => {
                    &&& forall|p: PageId| #[trigger]
                        set@.contains_key(p) <==> exists|id: ManifestId| #[trigger]
                            reached@.contains_key(id) && refers_to(old(self).ms(), id, p)
                    &&& forall|id: ManifestId| #[trigger]
                        reached@.contains_key(id) ==> resolved(old(self).ms(), id) is Some
                },
                Err(e) => (!old(self).backing().steady() && is_failure(e@)) || (exists|
                    id: ManifestId,
                | #[trigger]
                    reached@.contains_key(id) && unresolvable(old(self).backing(), id, e@)),
            },
    {
        let ghost ms = self.ms();
        let ids = reached.keys();
        let mut set: OrdMap<PageId, ()> = OrdMap::new();
        let n: usize = ids.len();
        let mut i: usize = 0;
        while i < n
            invariant
                n == ids@.len(),
                i <= n,
                self.wf(),
                old(self).same_but_cache(self),
                ms == old(self).ms(),
                forall|q: int| 0 <= q < n ==> reached@.contains_key(#[trigger] ids@[q]),
                forall|q: int| 0 <= q < i ==> resolved(ms, #[trigger] ids@[q]) is Some,
                forall|p: PageId| #[trigger]
                    set@.contains_key(p) <==> exists|q: int|
                        0 <= q < i && refers_to(ms, #[trigger] ids@[q], p),
            decreases n - i,
        {
            let id = ids[i];
            let pages = match self.resolve(&id) {
                Ok(pages) => pages,
                Err(e) => {
                    return Err(e);
                },
            };
            let ghost before = set@;
            add_values(&mut set, &pages);
            proof {
                assert forall|p: PageId| #[trigger]
                    set@.contains_key(p) <==> exists|q: int|
                        0 <= q < i + 1 && refers_to(ms, #[trigger] ids@[q], p) by {
                    if set@.contains_key(p) {
                        if before.contains_key(p) {
                            let q = choose|q: int|
                                0 <= q < i && refers_to(ms, #[trigger] ids@[q], p);
                            assert(refers_to(ms, ids@[q], p));
                        } else {
                            assert(refers_to(ms, ids@[i as int], p));
                        }
                    }
                    if exists|q: int| 0 <= q < i + 1 && refers_to(ms, #[trigger] ids@[q], p) {
                        let q = choose|q: int|
                            0 <= q < i + 1 && refers_to(ms, #[trigger] ids@[q], p);
                        if q < i {
                            assert(before.contains_key(p));
                        }
                    }
                }
            }
            i = i + 1;
        }
        proof {
            assert forall|p: PageId| #[trigger]
                set@.contains_key(p) <==> exists|id: ManifestId| #[trigger]
                    reached@.contains_key(id) && refers_to(ms, id, p) by {
                if set@.contains_key(p) {
                    let q = choose|q: int| 0 <= q < n && refers_to(ms, #[trigger] ids@[q], p);
                    assert(reached@.contains_key(ids@[q]));
                }
                if exists|id: ManifestId| #[trigger]
                    reached@.contains_key(id) && refers_to(ms, id, p) {
                    let id = choose|id: ManifestId| #[trigger]
                        reached@.contains_key(id) && refers_to(ms, id, p);
                    let q = choose|q: int|
                        0 <= q < ids@.len() && (#[trigger] ids@[q]).ident() == id;
                    assert(refers_to(ms, ids@[q], p));
                }
            }
            assert forall|id: ManifestId| #[trigger] reached@.contains_key(id) implies resolved(
                ms,
                id,
            ) is Some by {
                let q = choose|q: int| 0 <= q < ids@.len() && (#[trigger] ids@[q]).ident() == id;
                assert(resolved(ms, ids@[q]) is Some);
            }
        }
        Ok(set)
    }

    /// Deletes the pages that are not to be kept; says how many went and how many stayed.
    fn sweep_pages(&mut self, keep: &OrdMap<PageId, ()>) -> (r: Result<(u64, u64), PagerError>)
        requires
            old(self).wf(),
        ensures
            final(self).wf(),
            old(self).same_but_backing(final(self)),
            same_but_pages(old(self).backing(), final(self).backing()),
            trimmed(
                old(self).backing().held_pages(),
                old(self).backing().pages(),
                final(self).backing().held_pages(),
                final(self).backing().pages(),
                keep@.dom(),
            ),
            match r {
                Ok((swept, retained)) => old(self).backing().steady() ==> {
                    &&& final(self).backing().held_pages().subset_of(keep@.dom())
                    &&& old(self).backing().tidy() ==> swept == old(
                        self).backing().held_pages().difference(keep@.dom()).len() && retained
                        == old(self).backing().held_pages().intersect(keep@.dom()).len()
                },
                Err(e) => !old(self).backing().steady() && is_failure(e@),
            },
    {
        let list = match Cas::list(&self.store) {
            Ok(list) => list,
            Err(e) => {
                return Err(e);
            },
        };
        let ghost a = self.store;
        let ghost kd = keep@.dom();
        let mut swept: u64 = 0;
        let mut retained: u64 = 0;
        let n: usize = list.len();
        let mut i: usize = 0;
        proof {
            self.store.contents_are_what_their_ids_say();
            assert(first_kept(list@, 0, kd) =~= Set::empty());
            assert(first_dropped(list@, 0, kd) =~= Set::empty());
        }
        while i < n
            invariant
                n == list@.len(),
                i <= n,
                self.wf(),
                old(self).same_but_backing(self),
                a == old(self).backing(),
                kd == keep@.dom(),
                same_but_pages(a, self.backing()),
                trimmed(
                    a.held_pages(),
                    a.pages(),
                    self.backing().held_pages(),
                    self.backing().pages(),
                    kd,
                ),
                forall|q: int|
                    0 <= q < i && !kd.contains(#[trigger] list@[q]) ==> !self.backing().held_pages().contains(
                        list@[q],
                    ),
                swept + retained == i,
                list@.no_duplicates() ==> retained == first_kept(list@, i as int, kd).len()
                    && swept == first_dropped(list@, i as int, kd).len(),
            decreases n - i,
        {
            let id = list[i];
            proof {
                if list@.no_duplicates() {
                    lemma_first_step(list@, i as int, kd);
                }
            }
            if keep.contains(&id) {
                retained = retained + 1;
            } else {
                match Cas::remove(&mut self.store, id) {
                    Ok(()) => {},
                    Err(e) => {
                        return Err(e);
                    },
                }
                swept = swept + 1;
            }
            i = i + 1;
        }
        proof {
            assert(list@.take(n as int) =~= list@);
            if a.steady() {
                assert forall|id: PageId| #[trigger]
                    self.backing().held_pages().contains(id) implies kd.contains(id) by {
                    assert(a.held_pages().contains(id));
                    let q = choose|q: int| 0 <= q < list@.len() && list@[q] == id;
                }
                if a.tidy() {
                    assert(list@.to_set() =~= a.held_pages());
                }
            }
        }
        Ok((swept, retained))
    }

    /// Deletes the manifests that are not to be kept, from the cache too.
    fn sweep_manifests(&mut self, keep: &OrdMap<ManifestId, ()>) -> (r: Result<
        (u64, u64),
        PagerError,
    >)
        requires
            old(self).wf(),
        ensures
            final(self).wf(),
            old(self).same_but_backing(final(self)),
            same_but_manifests(old(self).backing(), final(self).backing()),
            trimmed(
                old(self).backing().held_manifests(),
                old(self).ms(),
                final(self).backing().held_manifests(),
                final(self).ms(),
                keep@.dom(),
            ),
            match r {
                Ok((swept, retained)) => old(self).backing().steady() ==> {
                    &&& final(self).backing().held_manifests().subset_of(keep@.dom())
                    &&& old(self).backing().tidy() ==> swept == old(
                        self).backing().held_manifests().difference(keep@.dom()).len() && retained
                        == old(self).backing().held_manifests().intersect(keep@.dom()).len()
                },
                Err(e) => !old(self).backing().steady() && is_failure(e@),
            },
    {
        let list = match ManifestStore::list(&self.store) {
            Ok(list) => list,
            Err(e) => {
                return Err(e);
            },
        };
        let ghost a = self.store;
        let ghost kd = keep@.dom();
        let mut swept: u64 = 0;
        let mut retained: u64 = 0;
        let n: usize = list.len();
        let mut i: usize = 0;
        proof {
            self.store.contents_are_what_their_ids_say();
            assert(first_kept(list@, 0, kd) =~= Set::empty());
            assert(first_dropped(list@, 0, kd) =~= Set::empty());
        }
        while i < n
            invariant
                n == list@.len(),
                i <= n,
                self.wf(),
                old(self).same_but_backing(self),
                a == old(self).backing(),
                kd == keep@.dom(),
                same_but_manifests(a, self.backing()),
                trimmed(
                    a.held_manifests(),
                    a.manifests(),
                    self.backing().held_manifests(),
                    self.ms(),
                    kd,
                ),
                forall|q: int|
                    0 <= q < i && !kd.contains(#[trigger] list@[q])
                        ==> !self.backing().held_manifests().contains(list@[q]),
                swept + retained == i,
                list@.no_duplicates() ==> retained == first_kept(list@, i as int, kd).len()
                    && swept == first_dropped(list@, i as int, kd).len(),
            decreases n - i,
        {
            let id = list[i];
            proof {
                if list@.no_duplicates() {
                    lemma_first_step(list@, i as int, kd);
                }
            }
            if keep.contains(&id) {
                retained = retained + 1;
            } else {
                match ManifestStore::remove(&mut self.store, id) {
                    Ok(()) => {},
                    Err(e) => {
                        return Err(e);
                    },
                }
                self.cache.forget(&id);
                swept = swept + 1;
            }
            i = i + 1;
        }
        proof {
            assert(list@.take(n as int) =~= list@);
            if a.steady() {
                assert forall|id: ManifestId| #[trigger]
                    self.backing().held_manifests().contains(id) implies kd.contains(id) by {
                    assert(a.held_manifests().contains(id));
                    let q = choose|q: int| 0 <= q < list@.len() && list@[q] == id;
                }
                if a.tidy() {
                    assert(list@.to_set() =~= a.held_manifests());
                }
            }
        }
        Ok((swept, retained))
    }
}


// ---------------------------------------------------------------------------------------------
// Committing.
// ---------------------------------------------------------------------------------------------

impl<S: Cas + ManifestStore, C: Clock> Pager<S, C> {
    /// Derives and stores the manifest of a transaction that changes something, and releases the
    /// transaction's pins either way.
    fn commit_on(&mut self, txn: Txn, now_ms: u64) -> (r: Result<Option<ManifestId>, PagerError>)
        requires
            old(self).wf(),
        ensures
            final(self).wf(),
            final(self).spec_head() == old(self).spec_head(),
            final(self).spec_config() == old(self).spec_config(),
            final(self).spec_clock() == old(self).spec_clock(),
            final(self).pin_counts() == unpinned(old(self).pin_counts(), txn.spec_pinned()),
            committed(
                old(self).backing(),
                final(self).backing(),
                txn.spec_base(),
                txn.staged(),
                now_ms,
                r,
            ),
    {
        let Txn { writes, base, pinned } = txn;
        self.pins.unpin_all(&pinned);
        if writes.is_empty() {
            return Ok(None);
        }
        let next = match self.derive_next(base, &writes, now_ms) {
            Ok(Some((next, _))) => next,
            Ok(None) => {
                return Ok(None);
            },
            Err(e) => {
                return Err(e);
            },
        };
        match self.put_manifest(&next) {
            Ok(id) => Ok(Some(id)),
            Err(e) => Err(e),
        }
    }

    /// Commits a transaction at a given time. One that changes nothing gives its base back, and
    /// the head stays; any other gives the manifest that is now stored and the head.
    pub fn commit_at(&mut self, txn: Txn, now_ms: u64) -> (r: Result<ManifestId, PagerError>)
        requires
            old(self).wf(),
        ensures
            final(self).wf(),
            final(self).spec_config() == old(self).spec_config(),
            final(self).spec_clock() == old(self).spec_clock(),
            final(self).pin_counts() == unpinned(old(self).pin_counts(), txn.spec_pinned()),
            committed_to(
                old(self).backing(),
                final(self).backing(),
                txn.spec_base(),
                txn.staged(),
                now_ms,
                r,
            ),
            final(self).spec_head() == (match r {
                Ok(id) => if changes_something(old(self).ms(), txn.spec_base(), txn.staged()) {
                    id
                } else {
                    old(self).spec_head()
                },
                Err(_) => old(self).spec_head(),
            }),
    {
        let base = txn.base;
        match self.commit_on(txn, now_ms) {
            Ok(Some(id)) => {
                self.head = id;
                Ok(id)
            },
            Ok(None) => Ok(base),
            Err(e) => Err(e),
        }
    }

    /// Gives a transaction up. Its pages stay stored, and are garbage once nothing pins them.
    pub fn abandon(&mut self, txn: Txn)
        requires
            old(self).wf(),
        ensures
            final(self).wf(),
            final(self).backing() == old(self).backing(),
            final(self).spec_head() == old(self).spec_head(),
            final(self).spec_config() == old(self).spec_config(),
            final(self).spec_clock() == old(self).spec_clock(),
            final(self).pin_counts() == unpinned(old(self).pin_counts(), txn.spec_pinned()),
    {
        self.pins.unpin_all(&txn.pinned);
    }
}

/// What committing a transaction does to what is stored: nothing where it changes nothing, and
/// else the derived manifest is stored.
pub open spec fn committed<B: Backing>(
    a: B,
    b: B,
    base: ManifestId,
    writes: Writes,
    now_ms: u64,
    r: Result<Option<ManifestId>, PagerError>,
) -> bool {
    let m = derived(a.manifests(), base, writes, now_ms);
    match r {
        Ok(None) => b == a && !changes_something(a.manifests(), base, writes) && (writes.is_empty()
            || derivable(a.manifests(), base, writes)),
        Ok(Some(id)) => id == m.id() && derivable(a.manifests(), base, writes) && changes_something(
            a.manifests(),
            base,
            writes,
        ) && same_but_manifests(a, b) && manifest_put(a, b, m),
        Err(e) => !writes.is_empty() && same_but_manifests(a, b) && ((b.held_manifests()
            == a.held_manifests() && b.manifests() == a.manifests()) || (!a.steady()
            && manifest_put(a, b, m))) && ((!a.steady() && is_failure(e@)) || (!derivable(
            a.manifests(),
            base,
            writes,
        ) && underivable(a, base, writes, e@))),
    }
}

/// The same, where committing nothing gives the base back.
pub open spec fn committed_to<B: Backing>(
    a: B,
    b: B,
    base: ManifestId,
    writes: Writes,
    now_ms: u64,
    r: Result<ManifestId, PagerError>,
) -> bool {
    committed(
        a,
        b,
        base,
        writes,
        now_ms,
        match r {
            Ok(id) => Ok(
                if changes_something(a.manifests(), base, writes) {
                    Some(id)
                } else {
                    None
                },
            ),
            Err(e) => Err(e),
        },
    ) && (r is Ok && !changes_something(a.manifests(), base, writes) ==> r == Ok::<
        ManifestId,
        PagerError,
    >(base))
}

/// Staging a page: it is stored, pinned, and recorded in the transaction.
pub open spec fn staged_write<S: Cas + ManifestStore, C: Clock>(
    a: Pager<S, C>,
    b: Pager<S, C>,
    t: Txn,
    u: Txn,
    page_no: u64,
    bytes: Seq<u8>,
    r: Result<PageId, PagerError>,
) -> bool {
    let id = a.spec_config().hasher.id_of(bytes);
    &&& b.spec_head() == a.spec_head()
    &&& b.spec_config() == a.spec_config()
    &&& b.spec_clock() == a.spec_clock()
    &&& u.spec_base() == t.spec_base()
    &&& same_but_pages(a.backing(), b.backing())
    &&& if bytes.len() > a.spec_config().page_size {
        &&& r matches Err(e) && e@ == (Fault::PageTooLarge {
            actual: bytes.len() as usize,
            page_size: a.spec_config().page_size,
        })
        &&& b.backing() == a.backing()
        &&& b.pin_counts() == a.pin_counts()
        &&& u.staged() == t.staged()
        &&& u.spec_pinned() == t.spec_pinned()
    } else {
        &&& b.pin_counts() == pinned_once(a.pin_counts(), id)
        &&& u.spec_pinned() == t.spec_pinned().push(id)
        &&& match r {
            Ok(got) => got == id && u.staged() == t.staged().insert(page_no, Some(id)) && page_put(
                a.backing(),
                b.backing(),
                id,
                bytes,
            ),
            Err(e) => u.staged() == t.staged() && !a.backing().steady() && is_failure(e@) && (
            page_put(a.backing(), b.backing(), id, bytes) || (b.backing().held_pages()
                == a.backing().held_pages() && b.backing().pages() == a.backing().pages())),
        }
    }
}

/// The bytes at a page of a manifest, where they can be read.
pub open spec fn bytes_at<B: Backing>(b: B, id: ManifestId, k: u64) -> Option<Seq<u8>> {
    match looked_up(b.manifests(), id, k) {
        Some(Some(p)) => if b.pages().contains_key(p) {
            Some(b.pages()[p])
        } else {
            None
        },
        _ => None,
    }
}

/// The durable-state interface that the layers above use.
pub trait PageStore: Sized {
    /// The store is in order.
    open spec fn ready(&self) -> bool {
        false
    }

    /// Reads one logical page as of a manifest.
    fn read(&mut self, manifest: &ManifestId, page_no: LogicalPageNo) -> (r: Result<
        Page,
        PagerError,
    >)
        requires
            old(self).ready(),
        ensures
            final(self).ready(),
    ;

    /// Reads one logical page as of the head.
    fn read_head(&mut self, page_no: LogicalPageNo) -> (r: Result<Page, PagerError>)
        requires
            old(self).ready(),
        ensures
            final(self).ready(),
    ;

    /// Begins a transaction against the head.
    fn begin(&self) -> (r: Result<Txn, PagerError>)
        requires
            self.ready(),
    ;

    /// Stages a page write.
    fn write(&mut self, txn: &mut Txn, page_no: LogicalPageNo, bytes: Vec<u8>) -> (r: Result<
        PageId,
        PagerError,
    >)
        requires
            old(self).ready(),
        ensures
            final(self).ready(),
    ;

    /// Stages the removal of a page.
    fn remove(&self, txn: &mut Txn, page_no: LogicalPageNo) -> (r: Result<(), PagerError>)
        requires
            self.ready(),
    ;

    /// Commits a transaction.
    fn commit(&mut self, txn: Txn) -> (r: Result<ManifestId, PagerError>)
        requires
            old(self).ready(),
        ensures
            final(self).ready(),
    ;

    /// The current manifest.
    fn head(&self) -> (id: ManifestId)
        requires
            self.ready(),
    ;

    /// Remembers the current manifest.
    fn snapshot(&self) -> (r: Result<ManifestId, PagerError>)
        requires
            self.ready(),
    ;

    /// A second head over the same store.
    fn fork(&self, from: &ManifestId) -> (r: Result<Fork, PagerError>)
        requires
            self.ready(),
    ;

    /// Moves the head to another manifest.
    fn rewind(&mut self, to: &ManifestId) -> (r: Result<(), PagerError>)
        requires
            old(self).ready(),
        ensures
            final(self).ready(),
    ;

    /// Which logical pages differ between two manifests.
    fn diff(&mut self, a: &ManifestId, b: &ManifestId) -> (r: Result<PageDiff, PagerError>)
        requires
            old(self).ready(),
        ensures
            final(self).ready(),
    ;

    /// The three-way comparison against a merge base.
    fn diff3(&mut self, base: &ManifestId, a: &ManifestId, b: &ManifestId) -> (r: Result<
        ThreeWayDiff,
        PagerError,
    >)
        requires
            old(self).ready(),
        ensures
            final(self).ready(),
    ;

    /// Sweeps what the given manifests do not lead to.
    fn gc(&mut self, live_manifests: &[ManifestId]) -> (r: Result<GcStats, PagerError>)
        requires
            old(self).ready(),
        ensures
            final(self).ready(),
    ;

    /// Loads a manifest.
    fn manifest(&self, id: &ManifestId) -> (r: Result<Manifest, PagerError>)
        requires
            self.ready(),
    ;

    /// Materialises a manifest's complete page map.
    fn resolve(&mut self, id: &ManifestId) -> (r: Result<PageMap, PagerError>)
        requires
            old(self).ready(),
        ensures
            final(self).ready(),
    ;

    /// Resolves one logical page through the overlay chain.
    fn lookup(&mut self, id: &ManifestId, page_no: LogicalPageNo) -> (r: Result<
        Option<PageId>,
        PagerError,
    >)
        requires
            old(self).ready(),
        ensures
            final(self).ready(),
    ;

    /// The most recent common ancestor of two manifests.
    fn merge_base(&mut self, a: &ManifestId, b: &ManifestId) -> (r: Result<
        Option<ManifestId>,
        PagerError,
    >)
        requires
            old(self).ready(),
        ensures
            final(self).ready(),
    ;

    /// The page size that the store was created with.
    fn page_size(&self) -> (n: usize)
        requires
            self.ready(),
    ;

    /// The pool that the store belongs to.
    fn pool(&self) -> (s: &str)
        requires
            self.ready(),
    ;
}

/// What a collection does: it keeps what the roots lead to and what is pinned. Where something that
/// they lead to cannot be read it does nothing; where it goes through on a steady store it keeps
/// nothing else, and counts.
pub open spec fn collected<S: Cas + ManifestStore, C: Clock>(
    a: Pager<S, C>,
    b: Pager<S, C>,
    roots: Seq<ManifestId>,
    r: Result<GcStats, PagerError>,
) -> bool {
    let (kp, km) = (a.kept_pages(roots), a.kept_manifests(roots));
    let (hp, hm) = (a.backing().held_pages(), a.backing().held_manifests());
    &&& a.same_but_backing(&b)
    &&& b.backing().steady() == a.backing().steady()
    &&& b.backing().hasher() == a.backing().hasher()
    &&& b.backing().roots() == a.backing().roots()
    &&& b.backing().elsewhere() == a.backing().elsewhere()
    &&& a.backing().tidy() ==> b.backing().tidy()
    &&& trimmed(hp, a.backing().pages(), b.backing().held_pages(), b.backing().pages(), kp)
    &&& trimmed(hm, a.ms(), b.backing().held_manifests(), b.ms(), km)
    &&& match r {
        Ok(stats) => {
            &&& a.all_resolve(roots)
            &&& a.backing().steady() ==> {
                &&& b.backing().held_pages().subset_of(kp)
                &&& b.backing().held_manifests().subset_of(km)
                &&& a.backing().tidy() ==> stats == (GcStats {
                    pages_swept: hp.difference(kp).len() as u64,
                    pages_retained: hp.intersect(kp).len() as u64,
                    manifests_swept: hm.difference(km).len() as u64,
                    manifests_retained: hm.intersect(km).len() as u64,
                })
            }
        },
        Err(e) => (!a.backing().steady() && is_failure(e@)) || (!a.all_resolve(roots)
            && b.backing() == a.backing() && exists|id: ManifestId| #[trigger]
            reachable(a.ms(), roots, id) && unresolvable(a.backing(), id, e@)),
    }
}

/// What reading a page of a manifest gives.
pub open spec fn read_outcome<B: Backing>(
    b: B,
    id: ManifestId,
    k: u64,
    r: Result<Page, PagerError>,
) -> bool {
    match r {
        Ok(page) => bytes_at(b, id, k) == Some(page@) && looked_up(b.manifests(), id, k) == Some(
            Some(page.spec_id()),
        ),
        Err(e) => (!b.steady() && is_failure(e@)) || (match looked_up(b.manifests(), id, k) {
            None => unfindable(b, id, k, e@),
            Some(None) => e@ == (Fault::PageNotFound { page_no: k, manifest: hex(id.0@) }),
            Some(Some(p)) => !b.pages().contains_key(p) && if b.held_pages().contains(p) {
                e@ matches Fault::CorruptPage { expected, .. } && expected == p
            } else {
                e@ == Fault::MissingPage(p)
            },
        }),
    }
}

impl<S: Cas + ManifestStore, C: Clock> PageStore for Pager<S, C> {
    open spec fn ready(&self) -> bool {
        self.wf()
    }

    fn read(&mut self, manifest: &ManifestId, page_no: LogicalPageNo) -> (r: Result<
        Page,
        PagerError,
    >)
        ensures
            old(self).same_but_cache(final(self)),
            read_outcome(old(self).backing(), *manifest, page_no, r),
    {
        proof {
            self.store.contents_are_what_their_ids_say();
        }
        let found = match self.lookup(manifest, page_no) {
            Ok(found) => found,
            Err(e) => {
                return Err(e);
            },
        };
        match found {
            Some(id) => Cas::get(&self.store, id),
            None => Err(PagerError::PageNotFound { page_no, manifest: manifest.to_hex() }),
        }
    }

    fn read_head(&mut self, page_no: LogicalPageNo) -> (r: Result<Page, PagerError>)
        ensures
            old(self).same_but_cache(final(self)),
            read_outcome(old(self).backing(), old(self).spec_head(), page_no, r),
    {
        let head = self.head;
        self.read(&head, page_no)
    }

    fn begin(&self) -> (r: Result<Txn, PagerError>)
        ensures
            r is Ok,
            r->Ok_0.spec_base() == self.spec_head(),
            r->Ok_0.staged() == Map::<u64, Option<PageId>>::empty(),
            r->Ok_0.spec_pinned() == Seq::<PageId>::empty(),
    {
        Ok(Txn { writes: BTreeMap::new(), base: self.head, pinned: Vec::new() })
    }

    fn write(&mut self, txn: &mut Txn, page_no: LogicalPageNo, bytes: Vec<u8>) -> (r: Result<
        PageId,
        PagerError,
    >)
        ensures
            staged_write(*old(self), *final(self), *old(txn), *final(txn), page_no, bytes@, r),
    {
        broadcast use vstd::std_specs::btree::group_btree_axioms;

        let page = match Page::new(&self.config.hasher, bytes, self.config.page_size) {
            Ok(page) => page,
            Err(e) => {
                return Err(e);
            },
        };
        let id = page.id();
        self.pins.pin(id);
        txn.pinned.push(id);
        proof {
            self.store.raw_is_what_is_held();
        }
        match Cas::put(&mut self.store, &page) {
            Ok(()) => {},
            Err(e) => {
                return Err(e);
            },
        }
        txn.writes.insert(page_no, Some(id));
        Ok(id)
    }

    fn remove(&self, txn: &mut Txn, page_no: LogicalPageNo) -> (r: Result<(), PagerError>)
        ensures
            r is Ok,
            final(txn).staged() == old(txn).staged().insert(page_no, None),
            final(txn).spec_base() == old(txn).spec_base(),
            final(txn).spec_pinned() == old(txn).spec_pinned(),
    {
        broadcast use vstd::std_specs::btree::group_btree_axioms;

        txn.writes.insert(page_no, None);
        Ok(())
    }

    fn commit(&mut self, txn: Txn) -> (r: Result<ManifestId, PagerError>)
        ensures
            final(self).spec_config() == old(self).spec_config(),
            final(self).spec_clock() == old(self).spec_clock(),
            final(self).pin_counts() == unpinned(old(self).pin_counts(), txn.spec_pinned()),
            exists|now_ms: u64|
                may_say(old(self).spec_clock(), now_ms) && #[trigger] committed_to(
                    old(self).backing(),
                    final(self).backing(),
                    txn.spec_base(),
                    txn.staged(),
                    now_ms,
                    r,
                ),
            final(self).spec_head() == (match r {
                Ok(id) => if changes_something(old(self).ms(), txn.spec_base(), txn.staged()) {
                    id
                } else {
                    old(self).spec_head()
                },
                Err(_) => old(self).spec_head(),
            }),
    {
        let now_ms: u64 = self.clock.now_ms();
        self.commit_at(txn, now_ms)
    }

    fn head(&self) -> (id: ManifestId)
        ensures
            id == self.spec_head(),
    {
        self.head
    }

    fn snapshot(&self) -> (r: Result<ManifestId, PagerError>)
        ensures
            r is Ok,
            r->Ok_0 == self.spec_head(),
    {
        Ok(self.head)
    }

    fn fork(&self, from: &ManifestId) -> (r: Result<Fork, PagerError>)
        ensures
            match r {
                Ok(f) => self.backing().held_manifests().contains(*from) && f.spec_head() == *from,
                Err(e) => (!self.backing().held_manifests().contains(*from) && e@
                    == Fault::MissingManifest(hex(from.0@))) || (!self.backing().steady()
                    && is_failure(e@)),
            },
    {
        self.at(*from)
    }

    fn rewind(&mut self, to: &ManifestId) -> (r: Result<(), PagerError>)
        ensures
            old(self).same_but_head(final(self)),
            match r {
                Ok(()) => old(self).backing().held_manifests().contains(*to) && final(
                    self).spec_head() == *to,
                Err(e) => final(self).spec_head() == old(self).spec_head() && ((!old(
                    self).backing().held_manifests().contains(*to) && e@ == Fault::MissingManifest(
                    hex(to.0@),
                )) || (!old(self).backing().steady() && is_failure(e@))),
            },
    {
        self.set_head_to(*to)
    }

    fn diff(&mut self, a: &ManifestId, b: &ManifestId) -> (r: Result<PageDiff, PagerError>)
        ensures
            old(self).same_but_cache(final(self)),
            match r {
                Ok(d) => {
                    let (x, y) = (resolved(old(self).ms(), *a), resolved(old(self).ms(), *b));
                    x is Some && y is Some && tabulates(
                        d.changes@,
                        |k: u64| change_at(x.unwrap(), y.unwrap(), k),
                    )
                },
                Err(e) => (!old(self).backing().steady() && is_failure(e@)) || if resolved(
                    old(self).ms(),
                    *a,
                ) is None {
                    unresolvable(old(self).backing(), *a, e@)
                } else {
                    resolved(old(self).ms(), *b) is None && unresolvable(
                        old(self).backing(),
                        *b,
                        e@,
                    )
                },
            },
    {
        let x = match self.resolve(a) {
            Ok(x) => x,
            Err(e) => {
                return Err(e);
            },
        };
        let y = match self.resolve(b) {
            Ok(y) => y,
            Err(e) => {
                return Err(e);
            },
        };
        Ok(PageDiff::between(&x, &y))
    }

    fn diff3(&mut self, base: &ManifestId, a: &ManifestId, b: &ManifestId) -> (r: Result<
        ThreeWayDiff,
        PagerError,
    >)
        ensures
            old(self).same_but_cache(final(self)),
            match r {
                Ok(d) => {
                    let o = resolved(old(self).ms(), *base);
                    let (x, y) = (resolved(old(self).ms(), *a), resolved(old(self).ms(), *b));
                    o is Some && x is Some && y is Some && d.base == *base && d.a == *a && d.b == *b
                        && tabulates(
                        d.entries@,
                        |k: u64| class_at(o.unwrap(), x.unwrap(), y.unwrap(), k),
                    )
                },
                Err(e) => (!old(self).backing().steady() && is_failure(e@)) || if resolved(
                    old(self).ms(),
                    *base,
                ) is None {
                    unresolvable(old(self).backing(), *base, e@)
                } else if resolved(old(self).ms(), *a) is None {
                    unresolvable(old(self).backing(), *a, e@)
                } else {
                    resolved(old(self).ms(), *b) is None && unresolvable(
                        old(self).backing(),
                        *b,
                        e@,
                    )
                },
            },
    {
        let o = match self.resolve(base) {
            Ok(o) => o,
            Err(e) => {
                return Err(e);
            },
        };
        let x = match self.resolve(a) {
            Ok(x) => x,
            Err(e) => {
                return Err(e);
            },
        };
        let y = match self.resolve(b) {
            Ok(y) => y,
            Err(e) => {
                return Err(e);
            },
        };
        Ok(ThreeWayDiff::compute(*base, *a, *b, &o, &x, &y))
    }

    fn manifest(&self, id: &ManifestId) -> (r: Result<Manifest, PagerError>)
        ensures
            match r {
                Ok(m) => self.ms().contains_key(*id) && m@ == self.ms()[*id],
                Err(e) => (!self.backing().steady() && is_failure(e@)) || unread(
                    self.backing(),
                    *id,
                    e@,
                ),
            },
    {
        proof {
            self.store.contents_are_what_their_ids_say();
        }
        ManifestStore::get(&self.store, *id)
    }

    fn lookup(&mut self, id: &ManifestId, page_no: LogicalPageNo) -> (r: Result<
        Option<PageId>,
        PagerError,
    >)
        ensures
            old(self).same_but_cache(final(self)),
            match r {
                Ok(answer) => looked_up(old(self).ms(), *id, page_no) == Some(answer),
                Err(e) => (!old(self).backing().steady() && is_failure(e@)) || (looked_up(
                    old(self).ms(),
                    *id,
                    page_no,
                ) is None && unfindable(old(self).backing(), *id, page_no, e@)),
            },
    {
        let r = self.lookup_page(*id, page_no);
        proof {
            lemma_no_lookup(old(self).backing(), *id, page_no, r);
        }
        r
    }

    fn merge_base(&mut self, a: &ManifestId, b: &ManifestId) -> (r: Result<
        Option<ManifestId>,
        PagerError,
    >)
        ensures
            old(self).same_but_cache(final(self)),
            match r {
                Ok(Some(c)) => is_merge_base(old(self).ms(), *a, *b, c),
                Ok(None) => !related(old(self).ms(), *a, *b),
                Err(e) => (!old(self).backing().steady() && is_failure(e@)) || ((!has_history(
                    old(self).ms(),
                    *a,
                ) && forgotten(old(self).backing(), *a, e@)) || (has_history(old(self).ms(), *a)
                    && !has_history(old(self).ms(), *b) && forgotten(old(self).backing(), *b, e@))),
            },
            r is Ok ==> has_history(old(self).ms(), *a) && has_history(old(self).ms(), *b),
    {
        let ghost ms = self.ms();
        let of_a = match self.ancestors(*a) {
            Ok(list) => list,
            Err(e) => {
                return Err(e);
            },
        };
        let of_b = match self.ancestors(*b) {
            Ok(list) => list,
            Err(e) => {
                return Err(e);
            },
        };
        let mut set: OrdMap<ManifestId, ()> = OrdMap::new();
        let mut i: usize = 0;
        while i < of_a.len()
            invariant
                i <= of_a.len(),
                forall|x: ManifestId| #[trigger]
                    set@.contains_key(x) <==> of_a@.take(i as int).contains(x),
            decreases of_a.len() - i,
        {
            set.insert(of_a[i], ());
            proof {
                let (p, q) = (of_a@.take(i as int), of_a@.take(i as int + 1));
                assert(q.drop_last() =~= p);
                assert forall|x: ManifestId| #[trigger] set@.contains_key(x) <==> q.contains(x) by {
                    lemma_popped(q, x);
                }
            }
            i = i + 1;
        }
        assert(of_a@.take(i as int) =~= of_a@);
        let mut j: usize = 0;
        while j < of_b.len()
            invariant
                j <= of_b.len(),
                forall|x: ManifestId| #[trigger]
                    set@.contains_key(x) <==> is_ancestor(ms, x, *a),
                forall|n: int| 0 <= n < j ==> !set@.contains_key(#[trigger] of_b@[n]),
                forall|n: int|
                    0 <= n < of_b@.len() ==> ancestor(ms, *b, n as nat) == Some(#[trigger] of_b@[n]),
                self.wf(),
                old(self).same_but_cache(self),
                ms == old(self).ms(),
                has_history(ms, *a),
                has_history(ms, *b),
            decreases of_b.len() - j,
        {
            let candidate = of_b[j];
            if set.contains(&candidate) {
                proof {
                    assert forall|n: nat, x: ManifestId|
                        n < j && #[trigger] ancestor(ms, *b, n) == Some(
                            x,
                        ) implies !#[trigger] is_ancestor(ms, x, *a) by {
                        assert(of_b@[n as int] == x);
                        assert(!set@.contains_key(of_b@[n as int]));
                    }
                    assert(nearest_at(ms, *a, *b, candidate, j as nat));
                }
                return Ok(Some(candidate));
            }
            j = j + 1;
        }
        proof {
            if related(ms, *a, *b) {
                let x = choose|x: ManifestId| #[trigger]
                    is_ancestor(ms, x, *a) && is_ancestor(ms, x, *b);
                assert(of_b@.contains(x));
                let n = choose|n: int| 0 <= n < of_b@.len() && of_b@[n] == x;
                assert(!set@.contains_key(of_b@[n]));
            }
        }
        Ok(None)
    }

    fn page_size(&self) -> (n: usize)
        ensures
            n == self.spec_config().page_size,
    {
        self.config.page_size
    }

    fn pool(&self) -> (s: &str)
        ensures
            s@ == self.spec_config().pool@,
    {
        self.config.pool.as_str()
    }

    /// Materialises a manifest's complete page map.
    fn resolve(&mut self, id: &ManifestId) -> (r: Result<PageMap, PagerError>)
        ensures
            old(self).same_but_cache(final(self)),
            match r {
                Ok(pages) => resolved(old(self).ms(), *id) == Some(pages@),
                Err(e) => (!old(self).backing().steady() && is_failure(e@)) || (resolved(
                    old(self).ms(),
                    *id,
                ) is None && unresolvable(old(self).backing(), *id, e@)),
            },
    {
        match ManifestStore::get(&self.store, *id) {
            Ok(manifest) => {
                let r = self.resolve_manifest(*id, &manifest);
                proof {
                    if r is Err && unresolvable(old(self).backing(), *id, r->Err_0@) {
                        lemma_unresolvable(old(self).backing(), *id, r->Err_0@);
                    }
                }
                r
            },
            Err(e) => {
                proof {
                    self.store.contents_are_what_their_ids_say();
                }
                Err(e)
            },
        }
    }

    /// Sweeps every page and manifest that the roots do not lead to. What is live is computed from
    /// the manifests, in full, before anything is deleted.
    fn gc(&mut self, live_manifests: &[ManifestId]) -> (r: Result<GcStats, PagerError>)
        ensures
            collected(*old(self), *final(self), live_manifests@, r),
    {
        let ghost before = *self;
        let ghost roots = live_manifests@;
        let reached = match self.reachable_manifests(live_manifests) {
            Ok(reached) => reached,
            Err(e) => {
                proof {
                    if !(!before.backing().steady() && is_failure(e@)) {
                        let id = choose|id: ManifestId| #[trigger]
                            reachable(before.ms(), roots, id) && unread(before.backing(), id, e@);
                        assert(resolved(before.ms(), id) is None);
                        assert(unresolvable(before.backing(), id, e@));
                    }
                }
                return Err(e);
            },
        };
        let mut keep = match self.live_pages(&reached) {
            Ok(keep) => keep,
            Err(e) => {
                proof {
                    if !(!before.backing().steady() && is_failure(e@)) {
                        let id = choose|id: ManifestId| #[trigger]
                            reached@.contains_key(id) && unresolvable(before.backing(), id, e@);
                        assert(reachable(before.ms(), roots, id));
                        lemma_unresolvable(before.backing(), id, e@);
                    }
                }
                return Err(e);
            },
        };
        let ghost from_manifests = keep@;
        let pinned = self.pins.pinned();
        let n: usize = pinned.len();
        let mut i: usize = 0;
        while i < n
            invariant
                n == pinned@.len(),
                i <= n,
                forall|p: PageId| #[trigger]
                    keep@.contains_key(p) <==> from_manifests.contains_key(p) || pinned@.take(
                        i as int,
                    ).contains(p),
            decreases n - i,
        {
            keep.insert(pinned[i], ());
            proof {
                let (a, b) = (pinned@.take(i as int), pinned@.take(i as int + 1));
                assert(b =~= a.push(pinned@[i as int]));
                assert forall|p: PageId| b.contains(p) <==> a.contains(p) || p
                    == pinned@[i as int] by {
                    if b.contains(p) {
                        let q = choose|q: int| 0 <= q < b.len() && b[q] == p;
                        if q < i {
                            assert(a[q] == p);
                        }
                    }
                    if a.contains(p) {
                        let q = choose|q: int| 0 <= q < a.len() && a[q] == p;
                        assert(b[q] == p);
                    }
                    assert(b[i as int] == pinned@[i as int]);
                }
            }
            i = i + 1;
        }
        proof {
            assert(pinned@.take(n as int) =~= pinned@);
            assert(reached@.dom() =~= before.kept_manifests(roots)) by {
                assert forall|id: ManifestId| reached@.dom().contains(id) <==> before.kept_manifests(
                    roots,
                ).contains(id) by {
                    assert(reached@.contains_key(id) <==> reachable(before.ms(), roots, id));
                }
            }
            assert forall|p: PageId| keep@.dom().contains(p) <==> before.kept_pages(
                roots,
            ).contains(p) by {
                assert(keep@.contains_key(p) <==> keep@.dom().contains(p));
                if from_manifests.contains_key(p) {
                    let id = choose|id: ManifestId| #[trigger]
                        reached@.contains_key(id) && refers_to(before.ms(), id, p);
                    assert(reachable(before.ms(), roots, id) && refers_to(before.ms(), id, p));
                }
                if live(before.ms(), roots, p) {
                    let id = choose|id: ManifestId| #[trigger]
                        reachable(before.ms(), roots, id) && refers_to(before.ms(), id, p);
                    assert(reached@.contains_key(id) && refers_to(before.ms(), id, p));
                }
            }
            assert(keep@.dom() =~= before.kept_pages(roots));
            assert(before.all_resolve(roots)) by {
                assert forall|id: ManifestId| #[trigger]
                    reachable(before.ms(), roots, id) implies resolved(before.ms(), id) is Some by {
                    assert(reached@.contains_key(id));
                }
            }
        }
        let (pages_swept, pages_retained) = match self.sweep_pages(&keep) {
            Ok(counts) => counts,
            Err(e) => {
                return Err(e);
            },
        };
        let (manifests_swept, manifests_retained) = match self.sweep_manifests(&reached) {
            Ok(counts) => counts,
            Err(e) => {
                return Err(e);
            },
        };
        Ok(GcStats { pages_swept, pages_retained, manifests_swept, manifests_retained })
    }
}

impl Fork {
    /// The fork's current manifest.
    pub fn head(&self) -> (id: ManifestId)
        ensures
            id == self.spec_head(),
    {
        self.head
    }

    /// Begins a transaction against the fork's head.
    pub fn begin(&self) -> (t: Txn)
        ensures
            t.spec_base() == self.spec_head(),
            t.staged() == Map::<u64, Option<PageId>>::empty(),
            t.spec_pinned() == Seq::<PageId>::empty(),
    {
        Txn { writes: BTreeMap::new(), base: self.head, pinned: Vec::new() }
    }

    /// Reads a page as of the fork's head.
    pub fn read_head<S: Cas + ManifestStore, C: Clock>(
        &self,
        pager: &mut Pager<S, C>,
        page_no: LogicalPageNo,
    ) -> (r: Result<Page, PagerError>)
        requires
            old(pager).wf(),
        ensures
            final(pager).wf(),
            old(pager).same_but_cache(final(pager)),
            read_outcome(old(pager).backing(), self.spec_head(), page_no, r),
    {
        pager.read(&self.head, page_no)
    }

    /// Commits a transaction and moves the fork's head; the pager's own head stays.
    pub fn commit_at<S: Cas + ManifestStore, C: Clock>(
        &mut self,
        pager: &mut Pager<S, C>,
        txn: Txn,
        now_ms: u64,
    ) -> (r: Result<ManifestId, PagerError>)
        requires
            old(pager).wf(),
        ensures
            final(pager).wf(),
            final(pager).spec_head() == old(pager).spec_head(),
            final(pager).spec_config() == old(pager).spec_config(),
            final(pager).spec_clock() == old(pager).spec_clock(),
            final(pager).pin_counts() == unpinned(old(pager).pin_counts(), txn.spec_pinned()),
            committed_to(
                old(pager).backing(),
                final(pager).backing(),
                txn.spec_base(),
                txn.staged(),
                now_ms,
                r,
            ),
            final(self).spec_head() == (match r {
                Ok(id) => if changes_something(old(pager).ms(), txn.spec_base(), txn.staged()) {
                    id
                } else {
                    old(self).spec_head()
                },
                Err(_) => old(self).spec_head(),
            }),
    {
        let base = txn.base;
        match pager.commit_on(txn, now_ms) {
            Ok(Some(id)) => {
                self.head = id;
                Ok(id)
            },
            Ok(None) => Ok(base),
            Err(e) => Err(e),
        }
    }

    /// Commits at the time that the pager's clock says.
    pub fn commit<S: Cas + ManifestStore, C: Clock>(
        &mut self,
        pager: &mut Pager<S, C>,
        txn: Txn,
    ) -> (r: Result<ManifestId, PagerError>)
        requires
            old(pager).wf(),
        ensures
            final(pager).wf(),
            final(pager).spec_head() == old(pager).spec_head(),
            final(pager).spec_config() == old(pager).spec_config(),
            final(pager).spec_clock() == old(pager).spec_clock(),
            final(pager).pin_counts() == unpinned(old(pager).pin_counts(), txn.spec_pinned()),
            exists|now_ms: u64|
                may_say(old(pager).spec_clock(), now_ms) && #[trigger] committed_to(
                    old(pager).backing(),
                    final(pager).backing(),
                    txn.spec_base(),
                    txn.staged(),
                    now_ms,
                    r,
                ),
            final(self).spec_head() == (match r {
                Ok(id) => if changes_something(old(pager).ms(), txn.spec_base(), txn.staged()) {
                    id
                } else {
                    old(self).spec_head()
                },
                Err(_) => old(self).spec_head(),
            }),
    {
        let now_ms: u64 = pager.clock.now_ms();
        self.commit_at(pager, txn, now_ms)
    }

    /// Moves the fork's head to another stored manifest.
    pub fn rewind<S: Cas + ManifestStore, C: Clock>(
        &mut self,
        pager: &Pager<S, C>,
        to: &ManifestId,
    ) -> (r: Result<(), PagerError>)
        requires
            pager.wf(),
        ensures
            match r {
                Ok(()) => pager.backing().held_manifests().contains(*to) && final(self).spec_head()
                    == *to,
                Err(e) => final(self).spec_head() == old(self).spec_head() && ((
                !pager.backing().held_manifests().contains(*to) && e@ == Fault::MissingManifest(
                    hex(to.0@),
                )) || (!pager.backing().steady() && is_failure(e@))),
            },
    {
        match pager.at(*to) {
            Ok(f) => {
                self.head = f.head;
                Ok(())
            },
            Err(e) => Err(e),
        }
    }
}

impl<C: Clock> Pager<MemStore, C> {
    /// A store in memory.
    pub fn in_memory_with_clock(config: StoreConfig, clock: C) -> (r: Result<Self, PagerError>)
        ensures
            match r {
                Ok(p) => {
                    &&& config.refusal() is None
                    &&& p.wf()
                    &&& p.spec_config() == config
                    &&& p.spec_clock() == clock
                    &&& p.pin_counts() == Map::<PageId, usize>::empty()
                    &&& p.spec_head() == empty_view(config.page_size).id()
                    &&& p.backing().hasher() == config.hasher
                    &&& p.backing().steady() && p.backing().tidy()
                    &&& p.backing().held_pages() == Set::<PageId>::empty()
                    &&& p.backing().pages() == Map::<PageId, Seq<u8>>::empty()
                    &&& p.backing().held_manifests() == Set::<ManifestId>::empty().insert(
                        empty_view(config.page_size).id(),
                    )
                    &&& p.ms() == Map::<ManifestId, ManifestView>::empty().insert(
                        empty_view(config.page_size).id(),
                        empty_view(config.page_size),
                    )
                },
                Err(e) => config.refusal() == Some(e@),
            },
    {
        match config.check() {
            Ok(()) => {},
            Err(e) => {
                return Err(e);
            },
        }
        let store = Parts {
            cas: MemCas::new(config.hasher.clone()),
            manifests: MemManifestStore::new(),
        };
        Pager::assemble(store, config, clock)
    }
}

impl<V: Vfs, C: Clock> Pager<FsStore<V>, C> {
    /// Opens a store on a filesystem, at its empty root manifest. Which manifest was the last one
    /// is for the log to say.
    pub fn open_with(vfs: V, root: &VPath, config: StoreConfig, clock: C) -> (r: Result<
        Self,
        PagerError,
    >)
        requires
            vfs.inv(),
        ensures
            match r {
                Ok(p) => {
                    &&& config.refusal() is None
                    &&& p.wf()
                    &&& p.spec_config() == config
                    &&& p.spec_clock() == clock
                    &&& p.pin_counts() == Map::<PageId, usize>::empty()
                    &&& p.spec_head() == empty_view(config.page_size).id()
                    &&& p.backing().hasher() == config.hasher
                    &&& p.backing().steady() == vfs.steady()
                    &&& p.backing().roots() == seq![root@.push("pages"@), root@.push("manifests"@)]
                    &&& opened(vfs, p.backing(), empty_view(config.page_size))
                },
                Err(e) => config.refusal() == Some(e@) || (config.refusal() is None
                    && !vfs.steady() && is_failure(e@)),
            },
    {
        match config.check() {
            Ok(()) => {},
            Err(e) => {
                return Err(e);
            },
        }
        match FsStore::open(vfs, root, config.hasher.clone()) {
            Ok(store) => {
                let ghost before = store;
                let r = Pager::assemble(store, config, clock);
                proof {
                    if r is Ok {
                        assert(before.spec_vfs().files() == vfs.files());
                        assert(manifest_put(
                            before,
                            r->Ok_0.backing(),
                            empty_view(config.page_size),
                        ));
                    }
                }
                r
            },
            Err(e) => Err(e),
        }
    }
}

impl<V: Vfs, C: Clock> Pager<FsStore<V>, C> {
    /// The filesystem underneath.
    pub fn vfs(&self) -> (v: &V)
        ensures
            *v == self.backing().spec_vfs(),
    {
        self.store.vfs()
    }

    /// Gives the filesystem back.
    pub fn into_vfs(self) -> (v: V)
        ensures
            v == self.backing().spec_vfs(),
            self.wf() ==> v.inv(),
    {
        self.store.into_vfs()
    }

    /// Lends the filesystem out, to be left as it is under the store's own directories.
    pub(crate) fn vfs_mut(&mut self) -> (v: &mut V)
        requires
            old(self).wf(),
        ensures
            *v == old(self).backing().spec_vfs(),
            final(self).backing().spec_vfs() == *final(v),
            final(self).backing().roots() == old(self).backing().roots(),
            final(self).backing().hasher() == old(self).backing().hasher(),
            final(v).inv() && old(self).backing().spec_vfs().dirs().subset_of(final(v).dirs())
                ==> final(self).backing().inv(),
            final(self).spec_head() == old(self).spec_head(),
            final(self).pin_counts() == old(self).pin_counts(),
            final(self).spec_config() == old(self).spec_config(),
            final(self).spec_clock() == old(self).spec_clock(),
            final(self).cached() == old(self).cached(),
    {
        self.store.vfs_mut()
    }

    /// As long as the files under the store's directories stay, so do its pages and manifests.
    pub(crate) proof fn lemma_lent(a: &Self, b: &Self)
        requires
            a.wf(),
            b.cached() == a.cached(),
            b.spec_config() == a.spec_config(),
            b.backing().inv(),
            b.backing().roots() == a.backing().roots(),
            b.backing().hasher() == a.backing().hasher(),
            same_under(
                a.backing().spec_vfs().files(),
                b.backing().spec_vfs().files(),
                a.backing().roots()[0],
                a.backing().roots()[1],
            ),
        ensures
            b.wf(),
            b.ms() == a.ms(),
            b.backing().held_manifests() == a.backing().held_manifests(),
            b.backing().pages() == a.backing().pages(),
            b.backing().held_pages() == a.backing().held_pages(),
    {
        let roots = a.backing().roots();
        a.backing().shows();
        b.backing().shows();
        other_files_do_not_matter(
            a.backing().spec_vfs().files(),
            b.backing().spec_vfs().files(),
            roots[0],
            roots[1],
        );
    }
}

/// The store shows what was on the filesystem, and its root manifest. Of directories only its own
/// were made.
pub open spec fn opened<V: Vfs>(vfs: V, b: FsStore<V>, root: ManifestView) -> bool {
    exists|a: FsStore<V>| #[trigger]
        manifest_put(a, b, root) && same_but_manifests(a, b) && a.inv() && a.spec_vfs().files()
            == vfs.files() && dirs_made(
            vfs.dirs(),
            a.spec_vfs().dirs(),
            b.roots()[0],
            b.roots()[1],
        )
}

} // verus!
