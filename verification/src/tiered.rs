//! Manifests in front of object storage, and what sleeping, waking and repairing decide.

use crate::cas::{
    is_failure, manifest_put, page_put, same_but_manifests, same_but_pages, same_manifests, same_pages, unread, Backing, Cas, ManifestStore,
};
use crate::chain::{reachable, resolved, lemma_restriction_keeps_reachable, lemma_root_reachable, Manifests, MAX_HOPS};
use crate::error::{Fault, PagerError};
use crate::hotset::{noted, overflows, HotSet, HotSetSnapshot};
use crate::manifest::{decoded, Manifest, ManifestId};
use crate::ordmap::{Key, OrdMap};
use crate::page::{Page, PageHasher, PageId};
use crate::pager::{
    closing, lemma_closing_done, lemma_closing_expand, lemma_closing_skip, lemma_closing_start,
    lemma_popped, IdentityPolicy, StoreConfig,
};
use crate::remote::{manifest_key_text, object_path, RemoteTier, StoreError};
use crate::scrub::CorruptionReport;
use crate::text::{decimal, hex, to_decimal};
use crate::tier::bytes_of;
use vstd::prelude::*;

verus! {

/// How many objects of each kind the warm set holds.
pub const HOT_SET_CAP: usize = 512;

/// Where the read of a manifest stands after the local store was asked.
pub enum ManifestLookup {
    /// The manifest is held locally.
    Hit(Manifest),
    /// The object with this key has to be fetched.
    Fetch(String),
}

/// A local manifest store with object storage behind it.
pub struct TieredManifestStore<M: ManifestStore> {
    local: M,
    remote: RemoteTier,
    durable: OrdMap<ManifestId, ()>,
    hot_set: HotSet,
}

/// A manifest was noted in the warm set.
pub open spec fn noted_manifest(a: HotSet, b: HotSet, id: ManifestId) -> bool {
    &&& b.spec_manifests() == noted(a.spec_manifests(), id, a.spec_cap())
    &&& b.spec_saturated() == (a.spec_saturated() || overflows(
        a.spec_manifests(),
        id,
        a.spec_cap(),
    ))
    &&& b.spec_pages() == a.spec_pages()
    &&& b.spec_cap() == a.spec_cap()
}

impl<M: ManifestStore> TieredManifestStore<M> {
    /// The local store.
    pub closed spec fn spec_local(&self) -> M {
        self.local
    }

    /// The pool.
    pub closed spec fn spec_pool(&self) -> Seq<char> {
        self.remote@
    }

    /// The manifests that are confirmed to be in object storage.
    pub closed spec fn spec_durable(&self) -> Set<ManifestId> {
        self.durable@.dom()
    }

    /// What was fetched, for the next wake.
    pub closed spec fn spec_hot_set(&self) -> HotSet {
        self.hot_set
    }

    /// The local store and the warm set keep their rules.
    pub open spec fn wf(&self) -> bool {
        self.spec_local().inv() && self.spec_hot_set().wf()
    }

    /// Puts a local store in front of object storage.
    pub fn new(local: M, remote: RemoteTier) -> (t: TieredManifestStore<M>)
        requires
            local.inv(),
        ensures
            t.wf(),
            t.spec_local() == local,
            t.spec_pool() == remote@,
            t.spec_durable() == Set::<ManifestId>::empty(),
            t.spec_hot_set().spec_cap() == 0,
    {
        TieredManifestStore::with_hot_set(local, remote, HotSet::new(0))
    }

    /// The same, with a record of what is fetched.
    pub fn with_hot_set(local: M, remote: RemoteTier, hot_set: HotSet) -> (t: TieredManifestStore<M>)
        requires
            local.inv(),
            hot_set.wf(),
        ensures
            t.wf(),
            t.spec_local() == local,
            t.spec_pool() == remote@,
            t.spec_durable() == Set::<ManifestId>::empty(),
            t.spec_hot_set() == hot_set,
    {
        let t = TieredManifestStore { local, remote, durable: OrdMap::new(), hot_set };
        assert(t.spec_durable() =~= Set::<ManifestId>::empty());
        t
    }

    /// How many manifests are confirmed to be in object storage.
    pub fn durable_count(&self) -> (n: usize)
        ensures
            n == self.spec_durable().len(),
    {
        self.durable.len()
    }

    /// The local store.
    pub fn local(&self) -> (m: &M)
        ensures
            *m == self.spec_local(),
    {
        &self.local
    }

    /// What was fetched so far.
    pub fn warm_set(&self) -> (s: HotSetSnapshot)
        ensures
            s.pages@ == self.spec_hot_set().spec_pages(),
            s.manifests@ == self.spec_hot_set().spec_manifests(),
    {
        self.hot_set.snapshot()
    }

    /// Stores a manifest locally.
    pub fn put(&mut self, manifest: &Manifest) -> (r: Result<ManifestId, PagerError>)
        requires
            old(self).wf(),
        ensures
            final(self).wf(),
            same_but_manifests(old(self).spec_local(), final(self).spec_local()),
            final(self).spec_pool() == old(self).spec_pool(),
            final(self).spec_durable() == old(self).spec_durable(),
            final(self).spec_hot_set() == old(self).spec_hot_set(),
            match r {
                Ok(id) => id == manifest@.id() && manifest_put(
                    old(self).spec_local(),
                    final(self).spec_local(),
                    manifest@,
                ),
                Err(e) => !old(self).spec_local().steady() && is_failure(e@) && (manifest_put(
                    old(self).spec_local(),
                    final(self).spec_local(),
                    manifest@,
                ) || same_manifests(old(self).spec_local(), final(self).spec_local())),
            },
    {
        self.local.put(manifest)
    }

    /// Starts a read: the manifest, if it is held locally, or else the key to fetch. One that is
    /// held and does not decode is an error.
    pub fn begin_get(&self, id: ManifestId) -> (r: Result<ManifestLookup, PagerError>)
        requires
            self.wf(),
        ensures
            match r {
                Ok(ManifestLookup::Hit(m)) => self.spec_local().manifests().contains_key(id) && m@
                    == self.spec_local().manifests()[id],
                Ok(ManifestLookup::Fetch(key)) => !self.spec_local().manifests().contains_key(id)
                    && key@ == object_path(manifest_key_text(self.spec_pool(), id)),
                Err(e) => (!self.spec_local().steady() && is_failure(e@)) || (
                self.spec_local().held_manifests().contains(id)
                    && !self.spec_local().manifests().contains_key(id) && e@ == (Fault::Codec {
                    op: "decode"@,
                })),
            },
    {
        proof {
            self.local.contents_are_what_their_ids_say();
        }
        match self.local.get(id) {
            Ok(m) => Ok(ManifestLookup::Hit(m)),
            Err(e) => {
                if e.is_missing_manifest() {
                    return Ok(ManifestLookup::Fetch(self.remote.manifest_key(id)));
                }
                Err(e)
            },
        }
    }

    /// Finishes a read with what was fetched. Bytes that are not the manifest with this id are
    /// never kept nor given out.
    pub fn finish_get(&mut self, id: ManifestId, fetched: Option<Vec<u8>>) -> (r: Result<
        Manifest,
        PagerError,
    >)
        requires
            old(self).wf(),
        ensures
            final(self).wf(),
            same_but_manifests(old(self).spec_local(), final(self).spec_local()),
            final(self).spec_pool() == old(self).spec_pool(),
            ({
                let (c, d) = (old(self).spec_local(), final(self).spec_local());
                let m = match fetched {
                    Some(b) => decoded(b@),
                    None => None,
                };
                match r {
                    Ok(got) => m == Some(got@) && got@.id() == id && manifest_put(c, d, got@)
                        && final(self).spec_durable() == old(self).spec_durable().insert(id)
                        && noted_manifest(old(self).spec_hot_set(), final(self).spec_hot_set(), id),
                    Err(e) => final(self).spec_durable() == old(self).spec_durable() && final(
                        self).spec_hot_set() == old(self).spec_hot_set() && if m matches Some(x)
                        && x.id() == id {
                        !c.steady() && is_failure(e@) && (manifest_put(c, d, m.unwrap())
                            || same_manifests(c, d))
                    } else {
                        &&& d == c
                        &&& e@ == (if fetched is None {
                            Fault::MissingManifest(hex(id.0@))
                        } else if m is None {
                            Fault::Codec { op: "decode"@ }
                        } else {
                            Fault::MissingManifest(
                                hex(id.0@)
                                    + " (bytes fetched from object storage hash to something else)"@,
                            )
                        })
                    },
                }
            }),
    {
        let bytes = match fetched {
            Some(b) => b,
            None => {
                return Err(PagerError::MissingManifest(id.to_hex()));
            },
        };
        let manifest = match Manifest::decode(bytes.as_slice()) {
            Ok(m) => m,
            Err(e) => {
                return Err(e);
            },
        };
        let got = match manifest.id() {
            Ok(i) => i,
            Err(e) => {
                return Err(e);
            },
        };
        if got != id {
            return Err(
                PagerError::MissingManifest(
                    id.to_hex().concat(
                        " (bytes fetched from object storage hash to something else)",
                    ),
                ),
            );
        }
        match self.local.put(&manifest) {
            Ok(_) => {},
            Err(e) => {
                return Err(e);
            },
        }
        self.durable.insert(id, ());
        self.hot_set.record_manifest(id);
        assert(self.spec_durable() =~= old(self).spec_durable().insert(id));
        Ok(manifest)
    }

    /// Whether the manifest is held locally, or known to be in object storage.
    pub fn contains(&self, id: ManifestId) -> (r: Result<bool, PagerError>)
        requires
            self.wf(),
        ensures
            match r {
                Ok(b) => b == (self.spec_local().held_manifests().contains(id)
                    || self.spec_durable().contains(id)),
                Err(e) => !self.spec_local().steady() && is_failure(e@),
            },
    {
        match self.local.contains(id) {
            Ok(true) => Ok(true),
            Ok(false) => Ok(self.durable.contains(&id)),
            Err(e) => Err(e),
        }
    }

    /// Removes a manifest locally. What is in object storage stays: a sleeping database may need
    /// it.
    pub fn remove(&mut self, id: ManifestId) -> (r: Result<(), PagerError>)
        requires
            old(self).wf(),
        ensures
            final(self).wf(),
            same_but_manifests(old(self).spec_local(), final(self).spec_local()),
            final(self).spec_pool() == old(self).spec_pool(),
            final(self).spec_hot_set() == old(self).spec_hot_set(),
            match r {
                Ok(()) => final(self).spec_local().held_manifests() == old(
                    self).spec_local().held_manifests().remove(id) && final(
                    self).spec_local().manifests() == old(self).spec_local().manifests().remove(id)
                    && final(self).spec_durable() == old(self).spec_durable().remove(id),
                Err(e) => !old(self).spec_local().steady() && is_failure(e@) && final(
                    self).spec_durable() == old(self).spec_durable() && same_manifests(
                    old(self).spec_local(),
                    final(self).spec_local(),
                ),
            },
    {
        match self.local.remove(id) {
            Ok(()) => {},
            Err(e) => {
                return Err(e);
            },
        }
        self.durable.remove(&id);
        assert(self.spec_durable() =~= old(self).spec_durable().remove(id));
        Ok(())
    }

    /// The manifests to upload for a head: it, and everything that it leads to through overlay
    /// bases, without which it cannot be read, and through parents, without which its past is
    /// gone.
    pub fn upload_closure(&self, head: ManifestId) -> (r: Result<Vec<ManifestId>, PagerError>)
        requires
            self.wf(),
        ensures
            ({
                let ms = self.spec_local().manifests();
                match r {
                    Ok(out) => {
                        &&& out@.no_duplicates()
                        &&& forall|id: ManifestId| #[trigger]
                            out@.contains(id) <==> reachable(ms, seq![head], id)
                        &&& forall|id: ManifestId| #[trigger]
                            out@.contains(id) ==> ms.contains_key(id)
                    },
                    Err(e) => (!self.spec_local().steady() && is_failure(e@)) || (exists|
                        id: ManifestId,
                    | #[trigger]
                        reachable(ms, seq![head], id) && unread(self.spec_local(), id, e@)),
                }
            }),
    {
        let ghost ms = self.local.manifests();
        let ghost roots = seq![head];
        let mut seen: OrdMap<ManifestId, ()> = OrdMap::new();
        let mut out: Vec<ManifestId> = Vec::new();
        let mut stack: Vec<ManifestId> = Vec::new();
        stack.push(head);
        proof {
            assert(stack@ =~= roots);
            assert(seen@.dom() =~= Set::empty());
            lemma_closing_start(ms, roots);
        }
        while stack.len() > 0
            invariant
                self.wf(),
                ms == self.local.manifests(),
                roots == seq![head],
                seen@.dom().finite(),
                seen@.dom().len() <= usize::MAX,
                closing(ms, roots, seen@.dom(), stack@),
                out@.no_duplicates(),
                forall|id: ManifestId| #[trigger] out@.contains(id) <==> seen@.contains_key(id),
            decreases usize::MAX - seen@.dom().len(), stack@.len(),
        {
            let ghost before = stack@;
            let id = stack[stack.len() - 1];
            let _ = stack.pop();
            if seen.contains(&id) {
                proof {
                    lemma_closing_skip(ms, roots, seen@.dom(), before);
                }
            } else {
                proof {
                    self.local.contents_are_what_their_ids_say();
                }
                let manifest = match self.local.get(id) {
                    Ok(m) => m,
                    Err(e) => {
                        proof {
                            assert(before[before.len() - 1] == id);
                            assert(before.contains(id));
                        }
                        return Err(e);
                    },
                };
                let ghost seen_before = seen@.dom();
                let ghost listed = out@;
                seen.insert(id, ());
                out.push(id);
                if let Some(base) = manifest.overlay_base() {
                    stack.push(base);
                }
                if let Some(parent) = manifest.parent {
                    stack.push(parent);
                }
                proof {
                    lemma_closing_expand(ms, roots, seen_before, before, stack@);
                    assert(seen@.dom() =~= seen_before.insert(id));
                    lemma_listed(listed, id);
                }
            }
        }
        proof {
            assert(stack@ =~= Seq::empty());
            lemma_closing_done(ms, roots, seen@.dom());
            assert forall|id: ManifestId| #[trigger] out@.contains(id) <==> reachable(
                ms,
                roots,
                id,
            ) by {
                assert(seen@.dom().contains(id) <==> seen@.contains_key(id));
            }
        }
        Ok(out)
    }

    /// The manifests that are held locally.
    pub fn list(&self) -> (r: Result<Vec<ManifestId>, PagerError>)
        requires
            self.wf(),
        ensures
            match r {
                Ok(out) => {
                    &&& self.spec_local().steady() ==> forall|id: ManifestId| #[trigger]
                        self.spec_local().held_manifests().contains(id) ==> out@.contains(id)
                    &&& self.spec_local().tidy() ==> out@.no_duplicates() && forall|id: ManifestId|
                        out@.contains(id) ==> #[trigger] self.spec_local().held_manifests().contains(
                            id,
                        )
                },
                Err(e) => !self.spec_local().steady() && is_failure(e@),
            },
    {
        self.local.list()
    }

    /// The key and the bytes of an upload.
    pub fn upload_of(&self, id: ManifestId) -> (r: Result<(String, Vec<u8>), PagerError>)
        requires
            self.wf(),
        ensures
            match r {
                Ok((key, bytes)) => self.spec_local().manifests().contains_key(id) && bytes@
                    == self.spec_local().manifests()[id].stored() && key@ == object_path(
                    manifest_key_text(self.spec_pool(), id),
                ),
                Err(e) => (!self.spec_local().steady() && is_failure(e@)) || unread(
                    self.spec_local(),
                    id,
                    e@,
                ),
            },
    {
        proof {
            self.local.contents_are_what_their_ids_say();
        }
        match self.local.get(id) {
            Ok(m) => match m.encode() {
                Ok(bytes) => Ok((self.remote.manifest_key(id), bytes)),
                Err(e) => Err(e),
            },
            Err(e) => Err(e),
        }
    }

    /// An upload was confirmed.
    pub fn uploaded(&mut self, id: ManifestId)
        requires
            old(self).wf(),
        ensures
            final(self).wf(),
            final(self).spec_local() == old(self).spec_local(),
            final(self).spec_pool() == old(self).spec_pool(),
            final(self).spec_hot_set() == old(self).spec_hot_set(),
            final(self).spec_durable() == old(self).spec_durable().insert(id),
    {
        self.durable.insert(id, ());
        assert(self.spec_durable() =~= old(self).spec_durable().insert(id));
    }
}

proof fn lemma_listed(s: Seq<ManifestId>, x: ManifestId)
    ensures
        forall|y: ManifestId| #[trigger] s.push(x).contains(y) <==> s.contains(y) || y == x,
        s.no_duplicates() && !s.contains(x) ==> s.push(x).no_duplicates(),
{
    let t = s.push(x);
    assert forall|y: ManifestId| #[trigger] t.contains(y) <==> s.contains(y) || y == x by {
        lemma_popped(t, y);
        assert(t.drop_last() =~= s);
    }
    if s.no_duplicates() && !s.contains(x) {
        assert forall|i: int, j: int| 0 <= i < t.len() && 0 <= j < t.len() && i != j implies t[i]
            != t[j] by {
            if i < s.len() {
                assert(s.contains(s[i]));
            }
            if j < s.len() {
                assert(s.contains(s[j]));
            }
        }
    }
}

/// What is uploaded for a head is enough to wake it: a store that has those manifests and no
/// others resolves the head to the same pages.
pub proof fn what_is_uploaded_is_enough_to_wake(ms: Manifests, uploaded: Manifests, head: ManifestId)
    requires
        resolved(ms, head) is Some,
        forall|id: ManifestId| #[trigger]
            reachable(ms, seq![head], id) && ms.contains_key(id) ==> uploaded.contains_key(id)
                && uploaded[id] == ms[id],
    ensures
        resolved(uploaded, head) == resolved(ms, head),
{
    assert(seq![head].contains(head)) by {
        assert(seq![head][0] == head);
    }
    lemma_root_reachable(ms, seq![head], head);
    lemma_restriction_keeps_reachable(ms, uploaded, seq![head], head, MAX_HOPS as nat);
}

// ---------------------------------------------------------------------------------------------
// Sleeping and waking.
// ---------------------------------------------------------------------------------------------

/// Everything that brings a sleeping database back.
#[derive(Debug, PartialEq, Eq)]
pub struct WakeToken {
    /// The pool.
    pub pool: String,
    /// The manifest that is the database's state.
    pub manifest: ManifestId,
    /// The page size that the store was created with.
    pub page_size: usize,
    /// What the last session had to fetch: a hint, on which nothing depends.
    pub hot_set: HotSetSnapshot,
}

impl Clone for WakeToken {
    fn clone(&self) -> (t: WakeToken)
        ensures
            t.pool@ == self.pool@,
            t.manifest == self.manifest,
            t.page_size == self.page_size,
            t.hot_set.manifests@ == self.hot_set.manifests@,
            t.hot_set.pages@ == self.hot_set.pages@,
    {
        WakeToken {
            pool: self.pool.clone(),
            manifest: self.manifest,
            page_size: self.page_size,
            hot_set: self.hot_set.clone(),
        }
    }
}

impl WakeToken {
    /// The token of a database that went to sleep.
    pub fn of(pool: &str, manifest: ManifestId, page_size: usize, hot_set: HotSetSnapshot) -> (t:
        WakeToken)
        ensures
            t.pool@ == pool@,
            t.manifest == manifest,
            t.page_size == page_size,
            t.hot_set == hot_set,
    {
        WakeToken { pool: pool.to_owned(), manifest, page_size, hot_set }
    }

    /// How a store is opened to wake the database: in the token's pool and with its page size.
    /// A token of another pool is refused.
    pub fn config_for(&self, remote: &RemoteTier) -> (r: Result<StoreConfig, StoreError>)
        ensures
            match r {
                Ok(c) => self.pool@ == remote@ && c.page_size == self.page_size && c.pool@
                    == self.pool@ && c.hasher == PageHasher::Unkeyed && c.policy
                    == IdentityPolicy::Any,
                Err(e) => self.pool@ != remote@ && e is PoolBoundary && e->PoolBoundary_ours@
                    == remote@ && e->PoolBoundary_theirs@ == self.pool@,
            },
    {
        match remote.guard_pool(self.pool.as_str()) {
            Ok(()) => {},
            Err(e) => {
                return Err(e);
            },
        }
        let mut config = StoreConfig::default();
        config.page_size = self.page_size;
        config.pool = self.pool.clone();
        Ok(config)
    }

    /// The head manifest, from what was fetched for it.
    pub fn head_from(&self, fetched: Option<Vec<u8>>) -> (r: Result<Manifest, StoreError>)
        ensures
            match fetched {
                None => r matches Err(e) && e is PageLost && e->PageLost_0@ == hex(
                    self.manifest.0@,
                ),
                Some(b) => match r {
                    Ok(m) => decoded(b@) == Some(m@),
                    Err(e) => decoded(b@) is None && (e matches StoreError::Pager(f) && f@
                        == (Fault::Codec { op: "decode"@ })),
                },
            },
    {
        let bytes = match fetched {
            Some(b) => b,
            None => {
                return Err(StoreError::PageLost(self.manifest.to_hex()));
            },
        };
        match Manifest::decode(bytes.as_slice()) {
            Ok(m) => Ok(m),
            Err(e) => Err(StoreError::Pager(e)),
        }
    }
}

// ---------------------------------------------------------------------------------------------
// Repairing.
// ---------------------------------------------------------------------------------------------

/// What a repair did.
#[derive(Debug, PartialEq, Eq)]
pub struct RepairReport {
    /// Pages that were fetched again, and checked.
    pub repaired: Vec<String>,
    /// Pages that are damaged locally, and damaged or absent in object storage.
    pub unrepairable: Vec<String>,
}

impl Default for RepairReport {
    fn default() -> (r: RepairReport)
        ensures
            r.repaired@.len() == 0,
            r.unrepairable@.len() == 0,
    {
        RepairReport { repaired: Vec::new(), unrepairable: Vec::new() }
    }
}

/// A list of texts as characters.
pub open spec fn texts(v: Seq<String>) -> Seq<Seq<char>> {
    v.map_values(|s: String| s@)
}

impl Clone for RepairReport {
    fn clone(&self) -> (r: RepairReport)
        ensures
            texts(r.repaired@) == texts(self.repaired@),
            texts(r.unrepairable@) == texts(self.unrepairable@),
    {
        let r = RepairReport {
            repaired: self.repaired.clone(),
            unrepairable: self.unrepairable.clone(),
        };
        assert(texts(r.repaired@) =~= texts(self.repaired@));
        assert(texts(r.unrepairable@) =~= texts(self.unrepairable@));
        r
    }
}

impl RepairReport {
    /// Whether everything that was damaged was repaired.
    pub fn is_complete(&self) -> (r: bool)
        ensures
            r == (self.unrepairable@.len() == 0),
    {
        self.unrepairable.len() == 0
    }

    /// The report in a sentence.
    pub fn describe(&self) -> (s: String)
        ensures
            s@ == (if self.unrepairable@.len() == 0 {
                "repaired "@ + decimal(self.repaired@.len()) + " page(s) from object storage"@
            } else {
                "repaired "@ + decimal(self.repaired@.len()) + " page(s); "@ + decimal(
                    self.unrepairable@.len(),
                )
                    + " PAGE(S) COULD NOT BE REPAIRED — damaged locally and unavailable remotely. These are lost; restore from backup."@
            }),
    {
        let head = "repaired ".to_owned().concat(to_decimal(self.repaired.len() as u64).as_str());
        if self.is_complete() {
            return head.concat(" page(s) from object storage");
        }
        head.concat(" page(s); ").concat(to_decimal(self.unrepairable.len() as u64).as_str()).concat(
            " PAGE(S) COULD NOT BE REPAIRED — damaged locally and unavailable remotely. These are lost; restore from backup.",
        )
    }
}

/// The pages that a repair has to look at: the corrupt ones, and then the missing ones.
pub fn damaged_pages(report: &CorruptionReport) -> (out: Vec<PageId>)
    ensures
        out@ == report.corrupt@ + report.missing@,
{
    let mut out: Vec<PageId> = report.corrupt.clone();
    assert(out@ =~= report.corrupt@);
    let mut i: usize = 0;
    while i < report.missing.len()
        invariant
            i <= report.missing@.len(),
            out@ == report.corrupt@ + report.missing@.take(i as int),
        decreases report.missing@.len() - i,
    {
        out.push(report.missing[i]);
        assert(out@ =~= report.corrupt@ + report.missing@.take(i + 1));
        i = i + 1;
    }
    assert(report.missing@.take(i as int) =~= report.missing@);
    out
}

/// A fetched copy is good: it fits the store, and hashes to the page's id.
pub open spec fn good_copy(hasher: PageHasher, page_size: usize, id: PageId, fetched: Option<Seq<u8>>) -> bool {
    fetched matches Some(b) && b.len() <= page_size && hasher.id_of(b) == id
}

/// Repairs one page with what was fetched for it. The copy is checked before it is put in the
/// damaged page's place; one that is not good leaves the store as it is.
pub fn repair_page<S: Cas>(
    local: &mut S,
    page_size: usize,
    hasher: &PageHasher,
    id: PageId,
    fetched: Option<Vec<u8>>,
    out: &mut RepairReport,
) -> (r: Result<(), StoreError>)
    requires
        old(local).inv(),
        old(local).hasher() == *hasher,
    ensures
        final(local).inv(),
        same_but_pages(*old(local), *final(local)),
        ({
            let good = good_copy(*hasher, page_size, id, bytes_of(fetched));
            match r {
                Ok(()) => if good {
                    &&& final(local).held_pages() == old(local).held_pages().insert(id)
                    &&& final(local).pages() == old(local).pages().insert(
                        id,
                        bytes_of(fetched).unwrap(),
                    )
                    &&& texts(final(out).repaired@) == texts(old(out).repaired@).push(hex(id.0@))
                    &&& final(out).unrepairable == old(out).unrepairable
                } else {
                    &&& *final(local) == *old(local)
                    &&& texts(final(out).unrepairable@) == texts(old(out).unrepairable@).push(
                        hex(id.0@),
                    )
                    &&& final(out).repaired == old(out).repaired
                },
                Err(e) => good && *final(out) == *old(out) && (!old(local).steady() || !S::takes(
                    bytes_of(fetched).unwrap().len(),
                )) && (e matches StoreError::Pager(f) && is_failure(
                    f@,
                )) && (same_pages(*old(local), *final(local)) || (final(local).held_pages() == old(
                    local).held_pages().remove(id) && final(local).pages() == old(
                    local).pages().remove(id)) || (final(local).held_pages() == old(
                    local).held_pages().insert(id) && final(local).pages() == old(
                    local).pages().insert(id, bytes_of(fetched).unwrap()))),
            }
        }),
{
    let bytes = match fetched {
        Some(b) => b,
        None => {
            out.unrepairable.push(id.to_hex());
            assert(texts(out.unrepairable@) =~= texts(old(out).unrepairable@).push(hex(id.0@)));
            return Ok(());
        },
    };
    let good = match Page::new(hasher, bytes, page_size) {
        Ok(page) => if page.id() == id {
            Some(page)
        } else {
            None
        },
        Err(_) => None,
    };
    let page = match good {
        Some(p) => p,
        None => {
            out.unrepairable.push(id.to_hex());
            assert(texts(out.unrepairable@) =~= texts(old(out).unrepairable@).push(hex(id.0@)));
            return Ok(());
        },
    };
    match local.remove(id) {
        Ok(()) => {},
        Err(e) => {
            return Err(StoreError::Pager(e));
        },
    }
    let ghost without = *local;
    let stored = local.put(&page);
    proof {
        if page_put(without, *local, id, page@) {
            assert(local.held_pages() =~= old(local).held_pages().insert(id));
            assert(local.pages() =~= old(local).pages().insert(id, page@));
        }
    }
    match stored {
        Ok(()) => {},
        Err(e) => {
            return Err(StoreError::Pager(e));
        },
    }
    proof {
        assert(local.held_pages() =~= old(local).held_pages().insert(id));
        assert(local.pages() =~= old(local).pages().insert(id, page@));
    }
    out.repaired.push(id.to_hex());
    assert(texts(out.repaired@) =~= texts(old(out).repaired@).push(hex(id.0@)));
    Ok(())
}

/// A copy that was fetched is good for a repair exactly where there is one, it is no longer than the
/// store's pages, and it hashes to the page's id.
pub proof fn only_a_whole_copy_repairs_a_page(
    hasher: PageHasher,
    page_size: usize,
    id: PageId,
    fetched: Option<Seq<u8>>,
)
    ensures
        fetched is None ==> !good_copy(hasher, page_size, id, fetched),
        fetched is Some ==> (good_copy(hasher, page_size, id, fetched) <==> fetched.unwrap().len()
            <= page_size && hasher.id_of(fetched.unwrap()) == id),
{
}

/// A repair looks at every page that is corrupt or missing, and at no other.
pub proof fn a_repair_looks_at_what_is_damaged(report: &CorruptionReport, out: Vec<PageId>, x: PageId)
    requires
        call_ensures(damaged_pages, (report,), out),
    ensures
        out@.contains(x) <==> report.corrupt@.contains(x) || report.missing@.contains(x),
        out@.len() == report.corrupt@.len() + report.missing@.len(),
{
    let (c, m) = (report.corrupt@, report.missing@);
    if c.contains(x) {
        let i = choose|i: int| 0 <= i < c.len() && c[i] == x;
        assert(out@[i] == x);
    }
    if m.contains(x) {
        let i = choose|i: int| 0 <= i < m.len() && m[i] == x;
        assert(out@[c.len() + i] == x);
    }
    if out@.contains(x) {
        let i = choose|i: int| 0 <= i < out@.len() && out@[i] == x;
        if i < c.len() {
            assert(c[i] == x);
        } else {
            assert(m[i - c.len()] == x);
        }
    }
}

/// A token wakes a database in the pool that it fell asleep in, with pages of the size that it had, and
/// nowhere else; the head is what was fetched for it, and where nothing was, it is lost.
pub proof fn a_token_wakes_in_its_own_pool(
    pool: &str,
    head: ManifestId,
    page_size: usize,
    warm: HotSetSnapshot,
    t: WakeToken,
    remote: &RemoteTier,
    r: Result<StoreConfig, StoreError>,
    lost: Result<Manifest, StoreError>,
)
    requires
        call_ensures(WakeToken::of, (pool, head, page_size, warm), t),
        call_ensures(WakeToken::config_for, (&t, remote), r),
        call_ensures(WakeToken::head_from, (&t, None), lost),
    ensures
        t.manifest == head && t.hot_set == warm,
        r is Ok <==> pool@ == remote@,
        r is Ok ==> r->Ok_0.page_size == page_size && r->Ok_0.pool@ == pool@,
        lost is Err && lost->Err_0 is PageLost && lost->Err_0->PageLost_0@ == hex(head.0@),
{
}

/// On a steady store the read of a manifest is answered locally exactly where it can be read there, and
/// fetched from the manifest's own key exactly where it is not held; one that is held or confirmed is
/// known to be there.
pub proof fn a_manifest_is_fetched_where_it_is_not_held<M: ManifestStore>(
    t: &TieredManifestStore<M>,
    id: ManifestId,
    r: Result<ManifestLookup, PagerError>,
    known: Result<bool, PagerError>,
)
    requires
        call_ensures(TieredManifestStore::<M>::begin_get, (t, id), r),
        call_ensures(TieredManifestStore::<M>::contains, (t, id), known),
        t.spec_local().steady(),
        t.wf(),
    ensures
        r matches Ok(ManifestLookup::Hit(m)) ==> t.spec_local().manifests().get(id) == Some(m@),
        t.spec_local().manifests().contains_key(id) ==> r is Ok && r->Ok_0 is Hit,
        r matches Ok(ManifestLookup::Fetch(key)) ==> key@ == object_path(
            manifest_key_text(t.spec_pool(), id),
        ) && !t.spec_local().manifests().contains_key(id),
        !t.spec_local().held_manifests().contains(id) ==> r is Ok && r->Ok_0 is Fetch,
        known is Ok && (known->Ok_0 <==> t.spec_local().held_manifests().contains(id)
            || t.spec_durable().contains(id)),
{
    t.spec_local().contents_are_what_their_ids_say();
}

} // verus!
