//! Integrity scrubbing: every page that is still needed is hashed again. Nothing is repaired here.

use crate::cas::{is_failure, Backing, Cas, ManifestStore};
use crate::chain::{resolved, Manifests};
use crate::clock::Clock;
use crate::error::PagerError;
use crate::manifest::ManifestId;
use crate::metrics::{Metrics, NoMetrics};
use crate::ordmap::OrdMap;
use crate::page::{PageId, PageIdSet};
use crate::pager::{add_values, first_dropped, lemma_first_step, unresolvable, PageStore, Pager};
use crate::text::{decimal, to_decimal};
use vstd::prelude::*;

verus! {

/// What is wrong with a store.
#[derive(Debug)]
pub struct CorruptionReport {
    /// Needed pages whose bytes no longer hash to their id.
    pub corrupt: Vec<PageId>,
    /// Needed pages that are not there at all.
    pub missing: Vec<PageId>,
    /// Manifests that could not be read.
    pub bad_manifests: Vec<ManifestId>,
    /// Pages that were checked and found healthy.
    pub healthy: u64,
    /// Pages that nothing needs.
    pub unreferenced: u64,
}

impl Default for CorruptionReport {
    fn default() -> (r: CorruptionReport)
        ensures
            r.corrupt@.len() == 0,
            r.missing@.len() == 0,
            r.bad_manifests@.len() == 0,
            r.healthy == 0,
            r.unreferenced == 0,
    {
        CorruptionReport {
            corrupt: Vec::new(),
            missing: Vec::new(),
            bad_manifests: Vec::new(),
            healthy: 0,
            unreferenced: 0,
        }
    }
}

impl Clone for CorruptionReport {
    fn clone(&self) -> (r: CorruptionReport)
        ensures
            r.corrupt@ == self.corrupt@,
            r.missing@ == self.missing@,
            r.bad_manifests@ == self.bad_manifests@,
            r.healthy == self.healthy,
            r.unreferenced == self.unreferenced,
    {
        let r = CorruptionReport {
            corrupt: self.corrupt.clone(),
            missing: self.missing.clone(),
            bad_manifests: self.bad_manifests.clone(),
            healthy: self.healthy,
            unreferenced: self.unreferenced,
        };
        assert(r.corrupt@ =~= self.corrupt@);
        assert(r.missing@ =~= self.missing@);
        assert(r.bad_manifests@ =~= self.bad_manifests@);
        r
    }
}

impl CorruptionReport {
    /// How many objects are damaged.
    pub open spec fn damage(&self) -> nat {
        self.corrupt@.len() + self.missing@.len() + self.bad_manifests@.len()
    }

    /// Whether the store is intact.
    pub fn is_healthy(&self) -> (r: bool)
        ensures
            r == (self.damage() == 0),
    {
        self.corrupt.len() == 0 && self.missing.len() == 0 && self.bad_manifests.len() == 0
    }

    /// How many objects are damaged.
    pub fn damaged(&self) -> (n: usize)
        requires
            self.damage() <= usize::MAX,
        ensures
            n == self.damage(),
    {
        self.corrupt.len() + self.missing.len() + self.bad_manifests.len()
    }

    /// The report in a sentence.
    pub fn describe(&self) -> (s: String)
        ensures
            s@ == (if self.damage() == 0 {
                "healthy: "@ + decimal(self.healthy as nat) + " pages verified, "@ + decimal(
                    self.unreferenced as nat,
                ) + " unreferenced"@
            } else {
                "DAMAGED: "@ + decimal(self.corrupt@.len()) + " corrupt page(s), "@ + decimal(
                    self.missing@.len(),
                ) + " missing page(s), "@ + decimal(self.bad_manifests@.len())
                    + " bad manifest(s); "@ + decimal(self.healthy as nat)
                    + " pages verified healthy"@
            }),
    {
        if self.is_healthy() {
            return "healthy: ".to_owned().concat(to_decimal(self.healthy).as_str()).concat(
                " pages verified, ",
            ).concat(to_decimal(self.unreferenced).as_str()).concat(" unreferenced");
        }
        "DAMAGED: ".to_owned().concat(to_decimal(self.corrupt.len() as u64).as_str()).concat(
            " corrupt page(s), ",
        ).concat(to_decimal(self.missing.len() as u64).as_str()).concat(" missing page(s), ").concat(
            to_decimal(self.bad_manifests.len() as u64).as_str(),
        ).concat(" bad manifest(s); ").concat(to_decimal(self.healthy).as_str()).concat(
            " pages verified healthy",
        )
    }
}

/// A page is in one of the sets.
pub open spec fn referenced_by(sets: Seq<PageIdSet>, p: PageId) -> bool {
    exists|i: int| 0 <= i < sets.len() && (#[trigger] sets[i])@.contains_key(p)
}

/// The pages in any of the sets.
pub open spec fn referenced(sets: Seq<PageIdSet>) -> Set<PageId> {
    Set::new(|p: PageId| referenced_by(sets, p))
}

/// Those of a list for which the flag is set, in their order, as often as they occur.
pub open spec fn picked(ids: Seq<ManifestId>, flags: Seq<bool>) -> Seq<ManifestId>
    decreases ids.len(),
{
    if ids.len() == 0 {
        Seq::empty()
    } else {
        let before = picked(ids.drop_last(), flags.drop_last());
        if flags.last() {
            before.push(ids.last())
        } else {
            before
        }
    }
}

/// Whether reading each of these manifests failed: it does where the manifest cannot be read, and
/// on a steady store nowhere else.
pub open spec fn reads_found<B: Backing>(b: B, ids: Seq<ManifestId>, failed: Seq<bool>) -> bool {
    &&& failed.len() == ids.len()
    &&& forall|i: int|
        #![trigger failed[i]]
        0 <= i < ids.len() ==> (!b.manifests().contains_key(ids[i]) ==> failed[i]) && (b.steady()
            && failed[i] ==> !b.manifests().contains_key(ids[i]))
}

/// No flag is set.
pub open spec fn none_of(flags: Seq<bool>) -> bool {
    forall|i: int| 0 <= i < flags.len() ==> !#[trigger] flags[i]
}

proof fn lemma_none_picked(ids: Seq<ManifestId>, flags: Seq<bool>)
    requires
        flags.len() == ids.len(),
    ensures
        picked(ids, flags).len() == 0 <==> none_of(flags),
    decreases ids.len(),
{
    if ids.len() > 0 {
        let (x, f) = (ids.drop_last(), flags.drop_last());
        lemma_none_picked(x, f);
        if picked(ids, flags).len() == 0 {
            assert forall|i: int| 0 <= i < ids.len() implies !#[trigger] flags[i] by {
                if i < x.len() {
                    assert(!f[i]);
                }
            }
        }
        if none_of(flags) {
            assert forall|i: int| 0 <= i < x.len() implies !#[trigger] f[i] by {
                assert(f[i] == flags[i]);
            }
            assert(!flags[ids.len() - 1]);
        }
    }
}

/// A report is without damage exactly where every needed page could be read and no read of a
/// manifest failed. Then every manifest that was looked at is there; and on a steady store, where no
/// read fails that need not, that is enough.
pub proof fn health_is_that_everything_reads<B: Backing>(
    b: B,
    live: Seq<ManifestId>,
    needed: Set<PageId>,
    report: CorruptionReport,
)
    requires
        scrubbed(b, live, needed, report),
    ensures
        ({
            let manifests_read = forall|i: int|
                0 <= i < live.len() ==> b.manifests().contains_key(#[trigger] live[i]);
            let pages_read = forall|p: PageId| #[trigger]
                needed.contains(p) ==> b.pages().contains_key(p);
            &&& report.damage() == 0 ==> manifests_read && pages_read
            &&& pages_read <==> report.corrupt@.len() == 0 && report.missing@.len() == 0
            &&& exists|failed: Seq<bool>| #[trigger]
                reads_found(b, live, failed) && (report.damage() == 0 <==> pages_read && none_of(
                    failed,
                ))
            &&& b.steady() && manifests_read && pages_read ==> report.damage() == 0
        }),
{
    let failed = choose|failed: Seq<bool>| #[trigger]
        reads_found(b, live, failed) && report.bad_manifests@ == picked(live, failed);
    lemma_none_picked(live, failed);
    if report.bad_manifests@.len() == 0 {
        assert forall|i: int| 0 <= i < live.len() implies b.manifests().contains_key(
            #[trigger] live[i],
        ) by {
            assert(!failed[i]);
        }
    }
    if report.corrupt@.len() == 0 && report.missing@.len() == 0 {
        assert forall|p: PageId| #[trigger] needed.contains(p) implies b.pages().contains_key(
            p,
        ) by {
            assert(!report.corrupt@.contains(p) && !report.missing@.contains(p));
        }
    }
    if forall|p: PageId| #[trigger] needed.contains(p) ==> b.pages().contains_key(p) {
        if report.corrupt@.len() > 0 {
            let p = report.corrupt@[0];
            assert(report.corrupt@.contains(p) && needed.contains(p));
        }
        if report.missing@.len() > 0 {
            let p = report.missing@[0];
            assert(report.missing@.contains(p));
            assert(needed.contains(p) && !b.pages().contains_key(p));
        }
    }
    if b.steady() && (forall|i: int|
        0 <= i < live.len() ==> b.manifests().contains_key(#[trigger] live[i])) {
        assert forall|i: int| 0 <= i < live.len() implies !#[trigger] failed[i] by {
            assert(b.manifests().contains_key(live[i]));
        }
    }
}

/// What a scrub reports of a store, given the pages that are needed.
pub open spec fn scrubbed<B: Backing>(
    b: B,
    live: Seq<ManifestId>,
    needed: Set<PageId>,
    report: CorruptionReport,
) -> bool {
    &&& report.corrupt@.no_duplicates()
    &&& report.missing@.no_duplicates()
    &&& report.healthy == needed.intersect(b.pages().dom()).len()
    &&& forall|p: PageId| #[trigger]
        report.corrupt@.contains(p) ==> needed.contains(p) && b.held_pages().contains(p)
            && !b.pages().contains_key(p)
    &&& forall|p: PageId| #[trigger]
        needed.contains(p) && !b.pages().contains_key(p) <==> report.corrupt@.contains(p)
            || report.missing@.contains(p)
    &&& exists|failed: Seq<bool>| #[trigger]
        reads_found(b, live, failed) && report.bad_manifests@ == picked(live, failed)
    &&& b.steady() ==> {
        &&& forall|p: PageId| #[trigger]
            report.missing@.contains(p) ==> needed.contains(p) && !b.held_pages().contains(p)
        &&& b.tidy() ==> report.unreferenced == b.held_pages().difference(needed).len()
    }
}

/// Checks a store's integrity again.
pub struct Scrubber<'a, S: Cas + ManifestStore, M: Metrics> {
    store: &'a S,
    metrics: &'a M,
}

impl<'a, S: Cas + ManifestStore, M: Metrics> Scrubber<'a, S, M> {
    /// The store that is checked.
    pub closed spec fn backing(&self) -> S {
        *self.store
    }

    /// A scrubber over a store's pages and manifests.
    pub fn new(store: &'a S, metrics: &'a M) -> (s: Scrubber<'a, S, M>)
        ensures
            s.backing() == *store,
    {
        Scrubber { store, metrics }
    }

    /// Checks the manifests, and every page in the sets. Pages that nothing needs are counted and
    /// not checked.
    pub fn scrub(&self, live: &[ManifestId], resolved: &Vec<PageIdSet>) -> (r: Result<
        CorruptionReport,
        PagerError,
    >)
        requires
            self.backing().inv(),
        ensures
            match r {
                Ok(report) => scrubbed(self.backing(), live@, referenced(resolved@), report),
                Err(e) => !self.backing().steady() && is_failure(e@),
            },
    {
        let ghost b = self.backing();
        let ghost needed = referenced(resolved@);
        let mut report = CorruptionReport::default();
        proof {
            b.contents_are_what_their_ids_say();
        }
        self.check_manifests(live, &mut report.bad_manifests);
        let wanted = Self::union_of(resolved);
        assert(wanted@.dom() =~= needed);
        let pages = wanted.keys();
        let n: usize = pages.len();
        let mut i: usize = 0;
        proof {
            assert(pages@.take(0) =~= Seq::empty());
            assert(crate::pager::first_kept(pages@, 0, b.pages().dom()) =~= Set::empty());
        }
        while i < n
            invariant
                n == pages@.len(),
                i <= n,
                b == self.backing(),
                b.inv(),
                b.pages().dom().subset_of(b.held_pages()),
                pages@.no_duplicates(),
                report.corrupt@.no_duplicates(),
                report.missing@.no_duplicates(),
                report.unreferenced == 0,
                report.healthy <= i,
                report.healthy == crate::pager::first_kept(
                    pages@,
                    i as int,
                    b.pages().dom(),
                ).len(),
                forall|p: PageId| #[trigger]
                    report.corrupt@.contains(p) ==> pages@.take(i as int).contains(p)
                        && b.held_pages().contains(p) && !b.pages().contains_key(p),
                forall|p: PageId| #[trigger]
                    report.missing@.contains(p) ==> pages@.take(i as int).contains(p)
                        && !b.pages().contains_key(p) && (b.steady() ==> !b.held_pages().contains(
                        p,
                    )),
                forall|p: PageId| #[trigger]
                    pages@.take(i as int).contains(p) && !b.pages().contains_key(p)
                        ==> report.corrupt@.contains(p) || report.missing@.contains(p),
                exists|failed: Seq<bool>| #[trigger]
                    reads_found(b, live@, failed) && report.bad_manifests@ == picked(
                        live@,
                        failed,
                    ),
            decreases n - i,
        {
            let id = pages[i];
            let ghost (c0, m0) = (report.corrupt@, report.missing@);
            let ghost (done, upto) = (pages@.take(i as int), pages@.take(i + 1));
            proof {
                lemma_first_step(pages@, i as int, b.pages().dom());
                assert(upto =~= done.push(id));
                assert forall|p: PageId| #[trigger] upto.contains(p) <==> done.contains(p) || p
                    == id by {
                    if done.contains(p) {
                        let q = choose|q: int| 0 <= q < done.len() && done[q] == p;
                        assert(upto[q] == p);
                    }
                    assert(upto[i as int] == id);
                    if upto.contains(p) && p != id {
                        let q = choose|q: int| 0 <= q < upto.len() && upto[q] == p;
                        assert(done[q] == p);
                    }
                }
                assert(!done.contains(id)) by {
                    if done.contains(id) {
                        let q = choose|q: int| 0 <= q < done.len() && done[q] == id;
                        assert(pages@[q] == pages@[i as int]);
                    }
                }
            }
            match Cas::get(self.store, id) {
                Ok(_) => {
                    report.healthy = report.healthy + 1;
                },
                Err(e) => {
                    if !e.is_corruption() {
                        return Err(e);
                    }
                    let there = match Cas::contains(self.store, id) {
                        Ok(b) => b,
                        Err(_) => false,
                    };
                    if there {
                        report.corrupt.push(id);
                        self.metrics.corruption_detected(id);
                        proof {
                            lemma_pushed(c0, id);
                        }
                    } else {
                        report.missing.push(id);
                        proof {
                            lemma_pushed(m0, id);
                        }
                    }
                },
            }
            i = i + 1;
        }
        assert(pages@.take(n as int) =~= pages@);
        let list = match Cas::list(self.store) {
            Ok(list) => list,
            Err(e) => {
                return Err(e);
            },
        };
        report.unreferenced = Self::count_outside(&list, &wanted);
        proof {
            assert(pages@.to_set() =~= needed);
            assert(crate::pager::first_kept(pages@, n as int, b.pages().dom()) =~= needed.intersect(
                b.pages().dom(),
            ));
            if b.steady() && b.tidy() {
                assert(list@.take(list@.len() as int) =~= list@);
                assert(list@.to_set() =~= b.held_pages());
            }
        }
        Ok(report)
    }

    /// The manifests that cannot be read.
    fn check_manifests(&self, live: &[ManifestId], bad: &mut Vec<ManifestId>)
        requires
            self.backing().inv(),
            old(bad)@.len() == 0,
        ensures
            exists|failed: Seq<bool>| #[trigger]
                reads_found(self.backing(), live@, failed) && final(bad)@ == picked(live@, failed),
    {
        let ghost b = self.backing();
        let ghost mut failed: Seq<bool> = Seq::empty();
        let mut i: usize = 0;
        proof {
            assert(live@.take(0) =~= Seq::empty());
            assert(bad@ =~= picked(live@.take(0), failed));
        }
        while i < live.len()
            invariant
                i <= live@.len(),
                b == self.backing(),
                b.inv(),
                reads_found(b, live@.take(i as int), failed),
                bad@ == picked(live@.take(i as int), failed),
            decreases live@.len() - i,
        {
            let id = live[i];
            let ghost (done, upto) = (live@.take(i as int), live@.take(i + 1));
            proof {
                b.contents_are_what_their_ids_say();
            }
            let unread = match ManifestStore::get(self.store, id) {
                Ok(_) => false,
                Err(_) => true,
            };
            if unread {
                bad.push(id);
            }
            proof {
                let more = failed.push(unread);
                assert(upto.drop_last() =~= done);
                assert(more.drop_last() =~= failed);
                assert forall|k: int| #![trigger more[k]] 0 <= k < upto.len() implies (
                !b.manifests().contains_key(upto[k]) ==> more[k]) && (b.steady() && more[k]
                    ==> !b.manifests().contains_key(upto[k])) by {
                    if k < i {
                        assert(more[k] == failed[k]);
                        assert(upto[k] == done[k]);
                    }
                }
                failed = more;
            }
            i = i + 1;
        }
        assert(live@.take(i as int) =~= live@);
    }

    /// The pages in any of the sets.
    fn union_of(sets: &Vec<PageIdSet>) -> (all: PageIdSet)
        ensures
            forall|p: PageId| #[trigger] all@.contains_key(p) <==> referenced_by(sets@, p),
    {
        let mut all: PageIdSet = OrdMap::new();
        let mut i: usize = 0;
        while i < sets.len()
            invariant
                i <= sets@.len(),
                forall|p: PageId| #[trigger]
                    all@.contains_key(p) <==> referenced_by(sets@.take(i as int), p),
            decreases sets@.len() - i,
        {
            let keys = sets[i].keys();
            let ghost before = all@;
            let ghost (done, upto) = (sets@.take(i as int), sets@.take(i + 1));
            let mut j: usize = 0;
            while j < keys.len()
                invariant
                    j <= keys@.len(),
                    forall|p: PageId| #[trigger]
                        all@.contains_key(p) <==> before.contains_key(p) || keys@.take(
                            j as int,
                        ).contains(p),
                decreases keys@.len() - j,
            {
                let ghost (kd, ku) = (keys@.take(j as int), keys@.take(j + 1));
                all.insert(keys[j], ());
                proof {
                    assert(ku =~= kd.push(keys@[j as int]));
                    lemma_pushed(kd, keys@[j as int]);
                }
                j = j + 1;
            }
            proof {
                assert(keys@.take(j as int) =~= keys@);
                assert forall|p: PageId| #[trigger] all@.contains_key(p) <==> referenced_by(
                    upto,
                    p,
                ) by {
                    if referenced_by(done, p) {
                        let k = choose|k: int|
                            0 <= k < done.len() && (#[trigger] done[k])@.contains_key(p);
                        assert(upto[k]@.contains_key(p));
                    }
                    if sets@[i as int]@.contains_key(p) {
                        assert(upto[i as int]@.contains_key(p));
                    }
                    if referenced_by(upto, p) {
                        let k = choose|k: int|
                            0 <= k < upto.len() && (#[trigger] upto[k])@.contains_key(p);
                        if k < i {
                            assert(done[k]@.contains_key(p));
                        }
                    }
                }
            }
            i = i + 1;
        }
        assert(sets@.take(i as int) =~= sets@);
        all
    }

    /// How many of the list are not in the set.
    fn count_outside(list: &Vec<PageId>, keep: &PageIdSet) -> (n: u64)
        ensures
            list@.no_duplicates() ==> n == first_dropped(
                list@,
                list@.len() as int,
                keep@.dom(),
            ).len(),
    {
        let ghost kd = keep@.dom();
        let mut n: u64 = 0;
        let mut i: usize = 0;
        assert(first_dropped(list@, 0, kd) =~= Set::empty());
        while i < list.len()
            invariant
                i <= list@.len(),
                n <= i,
                kd == keep@.dom(),
                list@.no_duplicates() ==> n == first_dropped(list@, i as int, kd).len(),
            decreases list@.len() - i,
        {
            proof {
                if list@.no_duplicates() {
                    lemma_first_step(list@, i as int, kd);
                }
            }
            if !keep.contains(&list[i]) {
                n = n + 1;
            }
            i = i + 1;
        }
        n
    }
}

/// One of these heads needs the page.
pub open spec fn needed_by(ms: Manifests, live: Seq<ManifestId>, p: PageId) -> bool {
    exists|i: int|
        0 <= i < live.len() && (resolved(ms, #[trigger] live[i]) matches Some(pages)
            && pages.contains_value(p))
}

/// The pages that these heads need.
pub open spec fn needed(ms: Manifests, live: Seq<ManifestId>) -> Set<PageId> {
    Set::new(|p: PageId| needed_by(ms, live, p))
}

impl<S: Cas + ManifestStore, C: Clock> Pager<S, C> {
    /// Checks every page that these heads need. A head whose manifest cannot be read is reported;
    /// one that can be read, but not what it is built on, is an error.
    pub fn scrub(&mut self, live: &[ManifestId]) -> (r: Result<CorruptionReport, PagerError>)
        requires
            old(self).wf(),
        ensures
            final(self).wf(),
            old(self).same_but_cache(final(self)),
            match r {
                Ok(report) => scrubbed(
                    old(self).backing(),
                    live@,
                    needed(old(self).ms(), live@),
                    report,
                ),
                Err(e) => (!old(self).backing().steady() && is_failure(e@)) || (exists|i: int|
                    0 <= i < live@.len() && old(self).ms().contains_key(#[trigger] live@[i])
                        && unresolvable(old(self).backing(), live@[i], e@)),
            },
    {
        let ghost ms = self.ms();
        let mut sets: Vec<PageIdSet> = Vec::new();
        let mut i: usize = 0;
        while i < live.len()
            invariant
                i <= live@.len(),
                self.wf(),
                old(self).same_but_cache(self),
                ms == old(self).ms(),
                forall|p: PageId|
                    referenced_by(sets@, p) <==> #[trigger] needed_by(ms, live@.take(i as int), p),
            decreases live@.len() - i,
        {
            let id = live[i];
            let ghost before = sets@;
            let ghost (done, upto) = (live@.take(i as int), live@.take(i + 1));
            let mut set: PageIdSet = OrdMap::new();
            match self.resolve(&id) {
                Ok(pages) => {
                    add_values(&mut set, &pages);
                },
                Err(e) => {
                    match self.manifest(&id) {
                        Ok(_) => {
                            assert(live@[i as int] == id);
                            return Err(e);
                        },
                        Err(f) => {
                            if e.is_outage() {
                                return Err(e);
                            }
                            if f.is_outage() {
                                return Err(f);
                            }
                        },
                    }
                },
            }
            sets.push(set);
            proof {
                assert forall|p: PageId| referenced_by(sets@, p) <==> #[trigger] needed_by(
                    ms,
                    upto,
                    p,
                ) by {
                    lemma_needed_step(ms, live@, i as int, p);
                    lemma_referenced_step(before, set, p);
                }
            }
            i = i + 1;
        }
        proof {
            assert(live@.take(i as int) =~= live@);
            assert(referenced(sets@) =~= needed(ms, live@)) by {
                assert forall|p: PageId| referenced(sets@).contains(p) <==> needed(
                    ms,
                    live@,
                ).contains(p) by {
                    assert(referenced_by(sets@, p) <==> needed_by(ms, live@, p));
                }
            }
            self.lemma_wf();
        }
        Scrubber::new(self.cas(), &NoMetrics).scrub(live, &sets)
    }
}

proof fn lemma_needed_step(ms: Manifests, live: Seq<ManifestId>, i: int, p: PageId)
    requires
        0 <= i < live.len(),
    ensures
        needed_by(ms, live.take(i + 1), p) == (needed_by(ms, live.take(i), p) || (resolved(
            ms,
            live[i],
        ) matches Some(pages) && pages.contains_value(p))),
{
    let (done, upto) = (live.take(i), live.take(i + 1));
    if needed_by(ms, done, p) {
        let k = choose|k: int|
            0 <= k < done.len() && (resolved(ms, #[trigger] done[k]) matches Some(pages)
                && pages.contains_value(p));
        assert(upto[k] == done[k]);
    }
    assert(upto[i] == live[i]);
    if needed_by(ms, upto, p) {
        let k = choose|k: int|
            0 <= k < upto.len() && (resolved(ms, #[trigger] upto[k]) matches Some(pages)
                && pages.contains_value(p));
        if k < i {
            assert(done[k] == upto[k]);
        }
    }
}

proof fn lemma_referenced_step(sets: Seq<PageIdSet>, set: PageIdSet, p: PageId)
    ensures
        referenced_by(sets.push(set), p) == (referenced_by(sets, p) || set@.contains_key(p)),
{
    let more = sets.push(set);
    if referenced_by(sets, p) {
        let k = choose|k: int| 0 <= k < sets.len() && (#[trigger] sets[k])@.contains_key(p);
        assert(more[k]@.contains_key(p));
    }
    if set@.contains_key(p) {
        assert(more[sets.len() as int]@.contains_key(p));
    }
    if referenced_by(more, p) {
        let k = choose|k: int| 0 <= k < more.len() && (#[trigger] more[k])@.contains_key(p);
        if k < sets.len() {
            assert(sets[k]@.contains_key(p));
        }
    }
}

/// What a list has after one more was pushed.
proof fn lemma_pushed<A>(s: Seq<A>, x: A)
    ensures
        forall|y: A| #[trigger] s.push(x).contains(y) <==> s.contains(y) || y == x,
        s.no_duplicates() && !s.contains(x) ==> s.push(x).no_duplicates(),
{
    assert forall|y: A| #[trigger] s.push(x).contains(y) <==> s.contains(y) || y == x by {
        if s.contains(y) {
            let q = choose|q: int| 0 <= q < s.len() && s[q] == y;
            assert(s.push(x)[q] == y);
        }
        assert(s.push(x)[s.len() as int] == x);
        if s.push(x).contains(y) && y != x {
            let q = choose|q: int| 0 <= q < s.push(x).len() && s.push(x)[q] == y;
            assert(s[q] == y);
        }
    }
    if s.no_duplicates() && !s.contains(x) {
        assert forall|i: int, j: int| 0 <= i < s.push(x).len() && 0 <= j < s.push(x).len() && i
            != j implies s.push(x)[i] != s.push(x)[j] by {
            if i < s.len() {
                assert(s.contains(s[i]));
            }
            if j < s.len() {
                assert(s.contains(s[j]));
            }
        }
    }
}

/// A report is healthy exactly where it names nothing, and counts everything that it names.
pub proof fn a_report_counts_what_it_names(report: &CorruptionReport, healthy: bool, n: usize)
    requires
        call_ensures(CorruptionReport::is_healthy, (report,), healthy),
        call_ensures(CorruptionReport::damaged, (report,), n),
    ensures
        healthy <==> report.corrupt@.len() == 0 && report.missing@.len() == 0
            && report.bad_manifests@.len() == 0,
        n == report.corrupt@.len() + report.missing@.len() + report.bad_manifests@.len(),
{
}

/// What heads need is what their databases have at some page.
pub proof fn heads_need_the_pages_of_their_databases(
    ms: Manifests,
    live: Seq<ManifestId>,
    i: int,
    k: u64,
    p: PageId,
)
    requires
        0 <= i < live.len(),
    ensures
        resolved(ms, live[i]) is Some && resolved(ms, live[i]).unwrap().get(k) == Some(p) ==> needed(
            ms,
            live,
        ).contains(p),
        needed(ms, live).contains(p) ==> exists|j: int, q: u64|
            #![trigger live[j], at_page(ms, live, j, q, p)]
            0 <= j < live.len() && at_page(ms, live, j, q, p),
{
    if resolved(ms, live[i]) is Some && resolved(ms, live[i]).unwrap().get(k) == Some(p) {
        let pages = resolved(ms, live[i]).unwrap();
        assert(pages.dom().contains(k) && pages[k] == p);
        assert(pages.contains_value(p));
        assert(needed_by(ms, live, p));
    }
    if needed(ms, live).contains(p) {
        let j = choose|j: int|
            0 <= j < live.len() && (resolved(ms, #[trigger] live[j]) matches Some(pages)
                && pages.contains_value(p));
        let pages = resolved(ms, live[j]).unwrap();
        let q = choose|q: u64| #[trigger] pages.dom().contains(q) && pages[q] == p;
        assert(at_page(ms, live, j, q, p));
        assert(live[j] == live[j]);
    }
}

/// The database of one of these heads has this content at a page.
pub open spec fn at_page(
    ms: Manifests,
    live: Seq<ManifestId>,
    j: int,
    q: u64,
    p: PageId,
) -> bool {
    resolved(ms, live[j]) is Some && resolved(ms, live[j]).unwrap().get(q) == Some(p)
}

/// On a steady store a scrub names every page that is needed and does not read back, as corrupt where
/// something is there and as missing where nothing is; every head that cannot be read; and nothing
/// else. It counts the needed pages that do read back.
pub proof fn a_scrub_names_what_is_damaged_and_nothing_else<B: Backing>(
    b: B,
    live: Seq<ManifestId>,
    needed: Set<PageId>,
    report: CorruptionReport,
    p: PageId,
    m: ManifestId,
)
    requires
        scrubbed(b, live, needed, report),
        b.steady(),
    ensures
        report.corrupt@.contains(p) <==> needed.contains(p) && b.held_pages().contains(p)
            && !b.pages().contains_key(p),
        report.missing@.contains(p) ==> needed.contains(p) && !b.held_pages().contains(p),
        needed.contains(p) && !b.held_pages().contains(p) && !b.pages().contains_key(p)
            ==> report.missing@.contains(p),
        report.bad_manifests@.contains(m) <==> live.contains(m) && !b.manifests().contains_key(m),
        report.healthy == needed.intersect(b.pages().dom()).len(),
        b.tidy() ==> report.unreferenced == b.held_pages().difference(needed).len(),
{
    let failed = choose|failed: Seq<bool>| #[trigger]
        reads_found(b, live, failed) && report.bad_manifests@ == picked(live, failed);
    lemma_picked(live, failed, m);
    if report.bad_manifests@.contains(m) {
        let i = choose|i: int| 0 <= i < live.len() && live[i] == m && #[trigger] failed[i];
        assert(live.contains(m));
    }
    if live.contains(m) && !b.manifests().contains_key(m) {
        let i = choose|i: int| 0 <= i < live.len() && live[i] == m;
        assert(failed[i]);
    }
    if needed.contains(p) && b.held_pages().contains(p) && !b.pages().contains_key(p) {
        assert(!report.missing@.contains(p));
    }
}

proof fn lemma_picked(ids: Seq<ManifestId>, flags: Seq<bool>, m: ManifestId)
    requires
        flags.len() == ids.len(),
    ensures
        picked(ids, flags).contains(m) <==> exists|i: int|
            0 <= i < ids.len() && ids[i] == m && #[trigger] flags[i],
    decreases ids.len(),
{
    if ids.len() > 0 {
        let (x, f) = (ids.drop_last(), flags.drop_last());
        let last = ids.len() - 1;
        lemma_picked(x, f, m);
        let q = picked(ids, flags);
        if flags.last() {
            crate::pager::lemma_popped(q, m);
            assert(q.drop_last() =~= picked(x, f));
        }
        if exists|i: int| 0 <= i < ids.len() && ids[i] == m && #[trigger] flags[i] {
            let i = choose|i: int| 0 <= i < ids.len() && ids[i] == m && #[trigger] flags[i];
            if i < last {
                assert(x[i] == m && f[i]);
            }
        }
        if exists|i: int| 0 <= i < x.len() && x[i] == m && #[trigger] f[i] {
            let i = choose|i: int| 0 <= i < x.len() && x[i] == m && #[trigger] f[i];
            assert(ids[i] == m && flags[i]);
        }
        if flags.last() && ids.last() == m {
            assert(ids[last] == m && flags[last]);
        }
    } else {
        assert(!picked(ids, flags).contains(m));
    }
}

} // verus!
