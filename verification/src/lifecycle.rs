//! Putting a database to sleep in object storage, and waking it.
//!
//! Pages go first, then the manifests, and only then is the local copy dropped: at no point does
//! object storage hold a manifest whose pages are not there.

use crate::cas::{
    is_failure, manifest_put, same_but_manifests, unread, Backing, Cas, ManifestStore,
};
use crate::chain::{
    lemma_restriction_keeps_reachable, lemma_root_reachable, looked_up,
    looking_up_agrees_with_resolving, reachable, resolved, Manifests, MAX_HOPS,
};
use crate::clock::Clock;
use crate::error::{Fault, PagerError};
use crate::hotset::HotSetSnapshot;
use crate::manifest::{decoded, decoding_undoes_encoding, Manifest, ManifestId};
use crate::page::{PageHasher, PageId};
use crate::pager::Pager;
use crate::remote::{
    manifest_key_text, object_path, objects_never_share_a_key, page_key_text, plain_paths_stay,
    plain_pool, StoreError,
};
use crate::text::hex;
use crate::log::after;
use crate::tier::{
    answer, confirmed, dropped, filled, forgotten, hit, unconfirmed, used, TierView, TieredCas,
};
use crate::tiered::{TieredManifestStore, WakeToken};
use vstd::prelude::*;

verus! {

/// What object storage holds, by key.
pub type Objects = Map<Seq<char>, Seq<u8>>;

/// The object with this key, if there is one.
pub open spec fn object_at(objects: Objects, key: Seq<char>) -> Option<Seq<u8>> {
    if objects.contains_key(key) {
        Some(objects[key])
    } else {
        None
    }
}

/// A page's object.
pub open spec fn page_object(objects: Objects, pool: Seq<char>, id: PageId) -> Option<Seq<u8>> {
    object_at(objects, object_path(page_key_text(pool, id)))
}

/// A manifest's object.
pub open spec fn manifest_object(objects: Objects, pool: Seq<char>, id: ManifestId) -> Option<
    Seq<u8>,
> {
    object_at(objects, object_path(manifest_key_text(pool, id)))
}

/// The manifests that can be fetched: their objects decode to something with their id.
pub open spec fn fetchable(objects: Objects, pool: Seq<char>) -> Manifests {
    Map::new(
        |id: ManifestId|
            manifest_object(objects, pool, id) matches Some(b) && decoded(b) matches Some(m)
                && m.id() == id,
        |id: ManifestId| decoded(manifest_object(objects, pool, id).unwrap()).unwrap(),
    )
}

/// The bytes at a page of a manifest, from the local pages or else from object storage.
pub open spec fn tiered_bytes(
    ms: Manifests,
    pages: Map<PageId, Seq<u8>>,
    hasher: PageHasher,
    objects: Objects,
    pool: Seq<char>,
    head: ManifestId,
    k: u64,
) -> Option<Seq<u8>> {
    match looked_up(ms, head, k) {
        Some(Some(p)) => answer(pages, hasher, p, page_object(objects, pool, p)),
        _ => None,
    }
}

/// Every page that is held locally is in object storage, or known to be missing there.
pub open spec fn accounted(held: Set<PageId>, v: TierView) -> bool {
    forall|id: PageId| #[trigger]
        held.contains(id) ==> v.pending.contains(id) || v.durable.contains(id)
}

/// Where a page is held locally and confirmed to be in object storage, the copies are the same.
pub open spec fn copies_match(
    v: TierView,
    pages: Map<PageId, Seq<u8>>,
    objects: Objects,
    pool: Seq<char>,
) -> bool {
    forall|id: PageId|
        v.durable.contains(id) && #[trigger] pages.contains_key(id) ==> page_object(
            objects,
            pool,
            id,
        ) == Some(pages[id])
}

/// One page was uploaded, and the objects of other pages are what they were.
pub open spec fn one_uploaded(
    objects: Objects,
    after: Objects,
    pool: Seq<char>,
    id: PageId,
    bytes: Seq<u8>,
) -> bool {
    &&& page_object(after, pool, id) == Some(bytes)
    &&& forall|other: PageId|
        other != id ==> #[trigger] page_object(after, pool, other) == page_object(
            objects,
            pool,
            other,
        )
}

/// Everything that sleeping uploads was uploaded: the pages that were not confirmed to be in object
/// storage, and the manifests that the head leads to. The objects of other pages are what they were.
pub open spec fn all_uploaded(
    ms: Manifests,
    held: Set<PageId>,
    pages: Map<PageId, Seq<u8>>,
    v: TierView,
    objects: Objects,
    after: Objects,
    pool: Seq<char>,
    head: ManifestId,
) -> bool {
    &&& forall|id: PageId| #[trigger]
        unconfirmed(v, held, id) ==> pages.contains_key(id) && page_object(after, pool, id) == Some(
            pages[id],
        )
    &&& forall|id: PageId|
        !unconfirmed(v, held, id) ==> #[trigger] page_object(after, pool, id) == page_object(
            objects,
            pool,
            id,
        )
    &&& forall|id: ManifestId| #[trigger]
        reachable(ms, seq![head], id) ==> ms.contains_key(id) && manifest_object(after, pool, id)
            == Some(ms[id].stored())
}

/// A tier that knows of every page it holds goes on knowing, whatever is stored, fetched,
/// uploaded, read, removed or evicted.
pub proof fn the_tier_loses_track_of_no_page(held: Set<PageId>, v: TierView, id: PageId, size: u64)
    requires
        accounted(held, v),
    ensures
        accounted(
            held.insert(id),
            used(
                TierView {
                    pending: if v.durable.contains(id) {
                        v.pending
                    } else {
                        v.pending.insert(id)
                    },
                    ..v
                },
                id,
                size,
            ),
        ),
        accounted(held.insert(id), filled(v, id, size)),
        accounted(held, confirmed(v, id)),
        accounted(held, hit(v, id, size)),
        accounted(
            held.remove(id),
            forgotten(TierView { pending: v.pending.remove(id), ..v }, id),
        ),
        accounted(held.remove(id), forgotten(v, id)),
{
}

/// An upload, and a fetch, leave a confirmed copy that is the same as the local one.
pub proof fn confirmed_copies_stay_the_same(
    v: TierView,
    pages: Map<PageId, Seq<u8>>,
    objects: Objects,
    after: Objects,
    pool: Seq<char>,
    id: PageId,
    size: u64,
)
    requires
        copies_match(v, pages, objects, pool),
    ensures
        pages.contains_key(id) && one_uploaded(objects, after, pool, id, pages[id]) ==> copies_match(
            confirmed(v, id),
            pages,
            after,
            pool,
        ),
        page_object(objects, pool, id) matches Some(b) ==> copies_match(
            filled(v, id, size),
            pages.insert(id, b),
            objects,
            pool,
        ),
        copies_match(forgotten(v, id), pages.remove(id), objects, pool),
{
    if pages.contains_key(id) && one_uploaded(objects, after, pool, id, pages[id]) {
        assert forall|x: PageId|
            confirmed(v, id).durable.contains(x) && #[trigger] pages.contains_key(
                x,
            ) implies page_object(after, pool, x) == Some(pages[x]) by {
            assert(page_object(after, pool, x) == if x == id {
                Some(pages[id])
            } else {
                page_object(objects, pool, x)
            });
        }
    }
    if page_object(objects, pool, id) is Some {
        let b = page_object(objects, pool, id).unwrap();
        assert forall|x: PageId|
            filled(v, id, size).durable.contains(x) && #[trigger] pages.insert(id, b).contains_key(
                x,
            ) implies page_object(objects, pool, x) == Some(pages.insert(id, b)[x]) by {
            if x != id {
                assert(pages.contains_key(x));
            }
        }
    }
    assert forall|x: PageId|
        forgotten(v, id).durable.contains(x) && #[trigger] pages.remove(id).contains_key(
            x,
        ) implies page_object(objects, pool, x) == Some(pages.remove(id)[x]) by {
        assert(pages.contains_key(x));
    }
}

/// A database that was put to sleep and woken elsewhere, with nothing local, has at every page the
/// bytes that it had before.
pub proof fn a_woken_database_reads_what_was_written(
    ms: Manifests,
    held: Set<PageId>,
    pages: Map<PageId, Seq<u8>>,
    hasher: PageHasher,
    v: TierView,
    objects: Objects,
    after: Objects,
    pool: Seq<char>,
    head: ManifestId,
    k: u64,
)
    requires
        resolved(ms, head) is Some,
        forall|id: ManifestId| #[trigger]
            ms.contains_key(id) ==> ms[id].fits() && ms[id].id() == id,
        forall|id: PageId| #[trigger] pages.contains_key(id) ==> hasher.id_of(pages[id]) == id,
        pages.dom().subset_of(held),
        copies_match(v, pages, objects, pool),
        all_uploaded(ms, held, pages, v, objects, after, pool, head),
    ensures
        resolved(fetchable(after, pool), head) == resolved(ms, head),
        tiered_bytes(
            fetchable(after, pool),
            Map::empty(),
            hasher,
            after,
            pool,
            head,
            k,
        ) == tiered_bytes(ms, pages, hasher, objects, pool, head, k),
{
    let ns = fetchable(after, pool);
    let roots = seq![head];
    assert(roots.contains(head)) by {
        assert(roots[0] == head);
    }
    lemma_root_reachable(ms, roots, head);
    assert forall|x: ManifestId| #[trigger]
        reachable(ms, roots, x) && ms.contains_key(x) implies ns.contains_key(x) && ns[x]
        == ms[x] by {
        decoding_undoes_encoding(ms[x], Seq::empty());
    }
    lemma_restriction_keeps_reachable(ms, ns, roots, head, MAX_HOPS as nat);
    looking_up_agrees_with_resolving(ms, head, k);
    looking_up_agrees_with_resolving(ns, head, k);
    assert(looked_up(ns, head, k) == looked_up(ms, head, k));
    match looked_up(ms, head, k) {
        Some(Some(p)) => {
            if pages.contains_key(p) {
                assert(pages.dom().contains(p));
                if !unconfirmed(v, held, p) {
                    assert(page_object(after, pool, p) == page_object(objects, pool, p));
                }
            } else {
                assert(!unconfirmed(v, held, p));
                assert(page_object(after, pool, p) == page_object(objects, pool, p));
            }
        },
        _ => {},
    }
}

// ---------------------------------------------------------------------------------------------
// Falling asleep, step by step.
// ---------------------------------------------------------------------------------------------

/// What has to be done next to put a database to sleep.
pub enum SleepStep {
    /// Upload a page.
    Page { key: String, bytes: Vec<u8> },
    /// Upload a manifest.
    Manifest { key: String, bytes: Vec<u8> },
    /// Everything is uploaded.
    Drop,
}

/// The uploads that put a database to sleep, in their order, and how many of them were made.
pub struct Sleep {
    head: ManifestId,
    pages: Vec<PageId>,
    manifests: Vec<ManifestId>,
    pages_made: usize,
    manifests_made: usize,
}

impl Sleep {
    /// The manifest that is the database.
    pub closed spec fn spec_head(&self) -> ManifestId {
        self.head
    }

    /// The pages to upload.
    pub closed spec fn spec_pages(&self) -> Seq<PageId> {
        self.pages@
    }

    /// The manifests to upload, after the pages.
    pub closed spec fn spec_manifests(&self) -> Seq<ManifestId> {
        self.manifests@
    }

    /// How many uploads were made.
    pub closed spec fn spec_made(&self) -> int {
        self.pages_made + self.manifests_made
    }

    /// How many there are.
    pub open spec fn total(&self) -> int {
        self.spec_pages().len() as int + self.spec_manifests().len()
    }

    /// No more uploads were made than there are, and no manifest before the last page.
    pub closed spec fn wf(&self) -> bool {
        &&& self.pages_made <= self.pages@.len()
        &&& self.manifests_made <= self.manifests@.len()
        &&& self.manifests_made > 0 ==> self.pages_made == self.pages@.len()
    }

    /// Plans the uploads: every page that is not confirmed to be in object storage, and every
    /// manifest that the head leads to.
    pub fn plan<C: Cas, M: ManifestStore>(
        cas: &TieredCas<C>,
        manifests: &TieredManifestStore<M>,
        head: ManifestId,
    ) -> (r: Result<Sleep, StoreError>)
        requires
            cas.wf(),
            manifests.wf(),
        ensures
            ({
                let ms = manifests.spec_local().manifests();
                let held = cas.spec_local().held_pages();
                match r {
                    Ok(s) => {
                        &&& s.wf()
                        &&& s.spec_head() == head
                        &&& s.spec_made() == 0
                        &&& cas.spec_local().steady() ==> planned(s, cas.tier(), held, ms)
                        &&& s.spec_pages().no_duplicates()
                        &&& forall|id: PageId| #[trigger]
                            s.spec_pages().contains(id) ==> unconfirmed(cas.tier(), held, id)
                        &&& forall|id: PageId| #[trigger]
                            cas.tier().pending.contains(id) ==> s.spec_pages().contains(id)
                        &&& planned_manifests(s, ms)
                    },
                    Err(e) => e matches StoreError::Pager(f) && (((!cas.spec_local().steady()
                        || !manifests.spec_local().steady()) && is_failure(f@)) || (exists|id: ManifestId| #[trigger]
                        reachable(ms, seq![head], id) && unread(manifests.spec_local(), id, f@))),
                }
            }),
    {
        let pages = match cas.unconfirmed_pages() {
            Ok(list) => list,
            Err(e) => {
                return Err(StoreError::Pager(e));
            },
        };
        match manifests.upload_closure(head) {
            Ok(list) => Ok(Sleep { head, pages, manifests: list, pages_made: 0, manifests_made: 0 }),
            Err(e) => Err(StoreError::Pager(e)),
        }
    }

    /// What to do next.
    pub fn next<C: Cas, M: ManifestStore>(
        &self,
        cas: &TieredCas<C>,
        manifests: &TieredManifestStore<M>,
    ) -> (r: Result<SleepStep, StoreError>)
        requires
            self.wf(),
            cas.wf(),
            manifests.wf(),
        ensures
            ({
                let (n, m) = (self.spec_made(), self.spec_made() - self.spec_pages().len());
                let pages = cas.spec_local().pages();
                let ms = manifests.spec_local().manifests();
                match r {
                    Ok(SleepStep::Page { key, bytes }) => {
                        &&& m < 0
                        &&& key@ == object_path(
                            page_key_text(cas.spec_pool(), self.spec_pages()[n]),
                        )
                        &&& pages.contains_key(self.spec_pages()[n])
                        &&& bytes@ == pages[self.spec_pages()[n]]
                    },
                    Ok(SleepStep::Manifest { key, bytes }) => {
                        &&& 0 <= m < self.spec_manifests().len()
                        &&& key@ == object_path(
                            manifest_key_text(manifests.spec_pool(), self.spec_manifests()[m]),
                        )
                        &&& ms.contains_key(self.spec_manifests()[m])
                        &&& bytes@ == ms[self.spec_manifests()[m]].stored()
                    },
                    Ok(SleepStep::Drop) => n == self.total(),
                    Err(e) => e is Pager && n < self.total() && if m < 0 {
                        !cas.spec_local().steady() || !pages.contains_key(self.spec_pages()[n])
                    } else {
                        !manifests.spec_local().steady() || !ms.contains_key(
                            self.spec_manifests()[m],
                        )
                    },
                }
            }),
            r is Ok && cas.spec_pool() == manifests.spec_pool() ==> asks_for(
                *self,
                cas.spec_local().pages(),
                manifests.spec_local().manifests(),
                cas.spec_pool(),
                r->Ok_0,
            ),
    {
        if self.pages_made < self.pages.len() {
            return match cas.upload_of(self.pages[self.pages_made]) {
                Ok((key, bytes)) => Ok(SleepStep::Page { key, bytes }),
                Err(e) => Err(StoreError::Pager(e)),
            };
        }
        if self.manifests_made < self.manifests.len() {
            return match manifests.upload_of(self.manifests[self.manifests_made]) {
                Ok((key, bytes)) => Ok(SleepStep::Manifest { key, bytes }),
                Err(e) => Err(StoreError::Pager(e)),
            };
        }
        Ok(SleepStep::Drop)
    }

    /// The upload that [`Sleep::next`] asked for was made.
    pub fn done<C: Cas, M: ManifestStore>(
        &mut self,
        cas: &mut TieredCas<C>,
        manifests: &mut TieredManifestStore<M>,
    )
        requires
            old(self).wf(),
            old(self).spec_made() < old(self).total(),
            old(cas).wf(),
            old(manifests).wf(),
        ensures
            final(self).wf(),
            final(self).spec_head() == old(self).spec_head(),
            final(self).spec_pages() == old(self).spec_pages(),
            final(self).spec_manifests() == old(self).spec_manifests(),
            final(self).spec_made() == old(self).spec_made() + 1,
            final(cas).wf(),
            final(manifests).wf(),
            final(cas).spec_local() == old(cas).spec_local(),
            final(cas).spec_hot_set() == old(cas).spec_hot_set(),
            old(cas).same_place(final(cas)),
            final(manifests).spec_local() == old(manifests).spec_local(),
            final(manifests).spec_pool() == old(manifests).spec_pool(),
            final(manifests).spec_hot_set() == old(manifests).spec_hot_set(),
            ({
                let (n, m) = (
                    old(self).spec_made(),
                    old(self).spec_made() - old(self).spec_pages().len(),
                );
                if m < 0 {
                    &&& final(cas).tier() == (TierView {
                        uploads: after(old(cas).tier().uploads),
                        ..confirmed(old(cas).tier(), old(self).spec_pages()[n])
                    })
                    &&& final(manifests).spec_durable() == old(manifests).spec_durable()
                } else {
                    &&& final(cas).tier() == old(cas).tier()
                    &&& final(manifests).spec_durable() == old(manifests).spec_durable().insert(
                        old(self).spec_manifests()[m],
                    )
                }
            }),
    {
        if self.pages_made < self.pages.len() {
            cas.uploaded(self.pages[self.pages_made]);
            self.pages_made = self.pages_made + 1;
        } else {
            manifests.uploaded(self.manifests[self.manifests_made]);
            assert(self.manifests.len() <= usize::MAX);
            self.manifests_made = self.manifests_made + 1;
        }
    }

    /// When every upload was made: drops the local pages, where all of them are in object storage,
    /// and gives the token that wakes the database.
    pub fn finish<C: Cas>(
        self,
        cas: &mut TieredCas<C>,
        page_size: usize,
        hot_set: HotSetSnapshot,
    ) -> (r: Result<WakeToken, StoreError>)
        requires
            self.spec_made() == self.total(),
            old(cas).wf(),
        ensures
            final(cas).wf(),
            dropped(
                *old(cas),
                *final(cas),
                match r {
                    Ok(_) => Ok(()),
                    Err(e) => Err(e),
                },
            ),
            r matches Ok(t) ==> t.pool@ == old(cas).spec_pool() && t.manifest == self.spec_head()
                && t.page_size == page_size && t.hot_set == hot_set,
    {
        match cas.drop_local() {
            Ok(()) => Ok(WakeToken::of(cas.pool(), self.head, page_size, hot_set)),
            Err(e) => Err(e),
        }
    }
}

/// The manifests of the plan are those that its head leads to.
pub open spec fn planned_manifests(s: Sleep, ms: Manifests) -> bool {
    &&& s.spec_manifests().no_duplicates()
    &&& forall|id: ManifestId| #[trigger]
        s.spec_manifests().contains(id) <==> reachable(ms, seq![s.spec_head()], id)
    &&& forall|id: ManifestId| #[trigger] s.spec_manifests().contains(id) ==> ms.contains_key(id)
}

/// The uploads of the plan are those that sleeping needs: the pages that are not confirmed to be in
/// object storage, and the manifests that the head leads to.
pub open spec fn planned(s: Sleep, v: TierView, held: Set<PageId>, ms: Manifests) -> bool {
    &&& s.spec_pages().no_duplicates()
    &&& forall|id: PageId| #[trigger]
        s.spec_pages().contains(id) <==> unconfirmed(v, held, id)
    &&& planned_manifests(s, ms)
}

/// What object storage holds after the first `n` uploads of the plan, each put under its key.
pub open spec fn with_uploads(
    s: Sleep,
    pages: Map<PageId, Seq<u8>>,
    ms: Manifests,
    pool: Seq<char>,
    objects: Objects,
    n: int,
) -> Objects
    decreases n,
{
    if n <= 0 {
        objects
    } else {
        let (i, j) = (n - 1, n - 1 - s.spec_pages().len());
        let before = with_uploads(s, pages, ms, pool, objects, n - 1);
        if j < 0 {
            let id = s.spec_pages()[i];
            before.insert(object_path(page_key_text(pool, id)), pages[id])
        } else {
            let id = s.spec_manifests()[j];
            before.insert(object_path(manifest_key_text(pool, id)), ms[id].stored())
        }
    }
}

/// What was uploaded so far is there, and what was not is what it was.
proof fn lemma_with_uploads(
    s: Sleep,
    pages: Map<PageId, Seq<u8>>,
    ms: Manifests,
    pool: Seq<char>,
    objects: Objects,
    n: int,
)
    requires
        plain_pool(pool),
        plain_paths_stay(),
        0 <= n <= s.total(),
        s.spec_pages().no_duplicates(),
        s.spec_manifests().no_duplicates(),
    ensures
        ({
            let now = with_uploads(s, pages, ms, pool, objects, n);
            let (p, q) = (s.spec_pages(), s.spec_manifests());
            &&& forall|i: int|
                0 <= i < n && i < p.len() ==> page_object(now, pool, #[trigger] p[i]) == Some(
                    pages[p[i]],
                )
            &&& forall|id: PageId|
                !p.contains(id) ==> #[trigger] page_object(now, pool, id) == page_object(
                    objects,
                    pool,
                    id,
                )
            &&& forall|j: int|
                0 <= j < n - p.len() ==> manifest_object(now, pool, #[trigger] q[j]) == Some(
                    ms[q[j]].stored(),
                )
        }),
    decreases n,
{
    let now = with_uploads(s, pages, ms, pool, objects, n);
    let (p, q) = (s.spec_pages(), s.spec_manifests());
    if n > 0 {
        let before = with_uploads(s, pages, ms, pool, objects, n - 1);
        let (x, y) = (n - 1, n - 1 - p.len());
        lemma_with_uploads(s, pages, ms, pool, objects, n - 1);
        assert forall|i: int| 0 <= i < n && i < p.len() implies page_object(
            now,
            pool,
            #[trigger] p[i],
        ) == Some(pages[p[i]]) by {
            let m = if y < 0 {
                s.spec_head()
            } else {
                q[y]
            };
            let last = if y < 0 {
                p[x]
            } else {
                p[i]
            };
            objects_never_share_a_key(pool, p[i], last, m, m);
            objects_never_share_a_key(pool, last, last, m, m);
        }
        assert forall|id: PageId| !p.contains(id) implies #[trigger] page_object(now, pool, id)
            == page_object(objects, pool, id) by {
            assert(page_object(before, pool, id) == page_object(objects, pool, id));
            let m = if y < 0 {
                s.spec_head()
            } else {
                q[y]
            };
            let last = if y < 0 {
                p[x]
            } else {
                id
            };
            objects_never_share_a_key(pool, id, last, m, m);
            objects_never_share_a_key(pool, last, last, m, m);
        }
        assert forall|j: int| 0 <= j < n - p.len() implies manifest_object(
            now,
            pool,
            #[trigger] q[j],
        ) == Some(ms[q[j]].stored()) by {
            let any = PageId(q[j].0);
            objects_never_share_a_key(pool, any, any, q[j], q[y]);
            objects_never_share_a_key(pool, any, any, q[y], q[j]);
        }
    }
}

/// Making the uploads of a plan in their order, each object put under its key, uploads everything:
/// what [`Sleep::next`] asks for, step by step, is all that sleeping needs.
pub proof fn the_steps_of_falling_asleep_upload_everything(
    s: Sleep,
    v: TierView,
    held: Set<PageId>,
    pages: Map<PageId, Seq<u8>>,
    ms: Manifests,
    pool: Seq<char>,
    objects: Objects,
)
    requires
        plain_pool(pool),
        plain_paths_stay(),
        planned(s, v, held, ms),
        forall|id: PageId| #[trigger] s.spec_pages().contains(id) ==> pages.contains_key(id),
    ensures
        all_uploaded(
            ms,
            held,
            pages,
            v,
            objects,
            with_uploads(s, pages, ms, pool, objects, s.total()),
            pool,
            s.spec_head(),
        ),
{
    let now = with_uploads(s, pages, ms, pool, objects, s.total());
    let (p, q) = (s.spec_pages(), s.spec_manifests());
    lemma_with_uploads(s, pages, ms, pool, objects, s.total());
    assert forall|id: PageId| #[trigger] unconfirmed(v, held, id) implies pages.contains_key(id)
        && page_object(now, pool, id) == Some(pages[id]) by {
        assert(p.contains(id));
        let i = choose|i: int| 0 <= i < p.len() && p[i] == id;
    }
    assert forall|id: ManifestId| #[trigger]
        reachable(ms, seq![s.spec_head()], id) implies ms.contains_key(id) && manifest_object(
        now,
        pool,
        id,
    ) == Some(ms[id].stored()) by {
        assert(q.contains(id));
        let j = choose|j: int| 0 <= j < q.len() && q[j] == id;
    }
}

/// A database that fell asleep by the steps of its plan and is woken elsewhere, with nothing local,
/// has at every page the bytes that it had before.
pub proof fn a_database_that_fell_asleep_wakes_as_it_was(
    s: Sleep,
    v: TierView,
    held: Set<PageId>,
    pages: Map<PageId, Seq<u8>>,
    hasher: PageHasher,
    ms: Manifests,
    pool: Seq<char>,
    objects: Objects,
    k: u64,
)
    requires
        plain_pool(pool),
        plain_paths_stay(),
        planned(s, v, held, ms),
        forall|id: PageId| #[trigger] s.spec_pages().contains(id) ==> pages.contains_key(id),
        resolved(ms, s.spec_head()) is Some,
        forall|id: ManifestId| #[trigger]
            ms.contains_key(id) ==> ms[id].fits() && ms[id].id() == id,
        forall|id: PageId| #[trigger] pages.contains_key(id) ==> hasher.id_of(pages[id]) == id,
        pages.dom().subset_of(held),
        copies_match(v, pages, objects, pool),
    ensures
        ({
            let now = with_uploads(s, pages, ms, pool, objects, s.total());
            &&& resolved(fetchable(now, pool), s.spec_head()) == resolved(ms, s.spec_head())
            &&& tiered_bytes(
                fetchable(now, pool),
                Map::empty(),
                hasher,
                now,
                pool,
                s.spec_head(),
                k,
            ) == tiered_bytes(ms, pages, hasher, objects, pool, s.spec_head(), k)
        }),
{
    let now = with_uploads(s, pages, ms, pool, objects, s.total());
    the_steps_of_falling_asleep_upload_everything(s, v, held, pages, ms, pool, objects);
    a_woken_database_reads_what_was_written(
        ms,
        held,
        pages,
        hasher,
        v,
        objects,
        now,
        pool,
        s.spec_head(),
        k,
    );
}

/// The step that [`Sleep::next`] gives is the next upload of the plan.
pub open spec fn asks_for(
    s: Sleep,
    pages: Map<PageId, Seq<u8>>,
    ms: Manifests,
    pool: Seq<char>,
    step: SleepStep,
) -> bool {
    forall|objects: Objects|
        step_made(step, #[trigger] with_uploads(s, pages, ms, pool, objects, s.spec_made()))
            == with_uploads(
            s,
            pages,
            ms,
            pool,
            objects,
            if step is Drop {
                s.total()
            } else {
                s.spec_made() + 1
            },
        )
}

/// What object storage holds after a step was made.
pub open spec fn step_made(step: SleepStep, objects: Objects) -> Objects {
    match step {
        SleepStep::Page { key, bytes } => objects.insert(key@, bytes@),
        SleepStep::Manifest { key, bytes } => objects.insert(key@, bytes@),
        SleepStep::Drop => objects,
    }
}

impl WakeToken {
    /// Makes a fetched manifest the head of an opened store: it is stored, and the token's
    /// manifest becomes the head, which has to be there then.
    pub fn bring_up<S: Cas + ManifestStore, C: Clock>(
        &self,
        pager: &mut Pager<S, C>,
        head: &Manifest,
    ) -> (r: Result<(), PagerError>)
        requires
            old(pager).wf(),
        ensures
            final(pager).wf(),
            final(pager).pin_counts() == old(pager).pin_counts(),
            final(pager).spec_config() == old(pager).spec_config(),
            final(pager).spec_clock() == old(pager).spec_clock(),
            same_but_manifests(old(pager).backing(), final(pager).backing()),
            manifest_put(old(pager).backing(), final(pager).backing(), head@) || (r is Err && !old(
                pager).backing().steady() && final(pager).backing().held_manifests() == old(
                pager).backing().held_manifests() && final(pager).ms() == old(pager).ms()),
            match r {
                Ok(()) => {
                    &&& final(pager).spec_head() == self.manifest
                    &&& head@.id() == self.manifest || old(
                        pager).backing().held_manifests().contains(self.manifest)
                },
                Err(e) => final(pager).spec_head() == old(pager).spec_head() && ((!old(
                    pager).backing().steady() && is_failure(e@)) || (e@ == Fault::MissingManifest(
                    hex(self.manifest.0@),
                ) && head@.id() != self.manifest && !old(
                    pager).backing().held_manifests().contains(self.manifest))),
            },
    {
        match pager.put_manifest(head) {
            Ok(_) => {},
            Err(e) => {
                return Err(e);
            },
        }
        pager.set_head_to(self.manifest)
    }
}

/// A plan uploads every page that waits for it, every page that is held and was never confirmed, and
/// nothing else; and of the manifests the head, with whatever each of them was committed on or
/// overlays.
pub proof fn a_plan_uploads_what_only_the_machine_has(
    s: Sleep,
    v: TierView,
    held: Set<PageId>,
    ms: Manifests,
    p: PageId,
    x: ManifestId,
    y: ManifestId,
)
    requires
        planned(s, v, held, ms),
    ensures
        s.spec_pages().contains(p) <==> v.pending.contains(p) || (held.contains(p)
            && !v.durable.contains(p)),
        s.spec_manifests().contains(s.spec_head()),
        s.spec_manifests().contains(x) && (ms[x].parent == Some(y) || ms[x].overlay_base() == Some(
            y,
        )) ==> s.spec_manifests().contains(y),
        s.spec_manifests().contains(x) ==> ms.contains_key(x),
{
    let roots = seq![s.spec_head()];
    assert(s.spec_pages().contains(p) <==> unconfirmed(v, held, p));
    assert(roots.contains(s.spec_head())) by {
        assert(roots[0] == s.spec_head());
    }
    lemma_root_reachable(ms, roots, s.spec_head());
    if s.spec_manifests().contains(x) && (ms[x].parent == Some(y) || ms[x].overlay_base() == Some(
        y,
    )) {
        assert(reachable(ms, roots, x));
        assert(crate::chain::points_at(ms, x, y));
        crate::chain::lemma_reachable_step(ms, roots, x, y);
    }
}

} // verus!
