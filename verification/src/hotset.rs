//! The warm set: what a session had to fetch from object storage, remembered for the next wake.

use crate::manifest::ManifestId;
use crate::page::PageId;
use vstd::prelude::*;

verus! {

/// The list after `id` was noted in it: once, and only while there is room.
pub open spec fn noted<A>(list: Seq<A>, id: A, cap: usize) -> Seq<A> {
    if list.len() >= cap || list.contains(id) {
        list
    } else {
        list.push(id)
    }
}

/// A list after these were noted in turn.
pub open spec fn all_noted<A>(list: Seq<A>, ids: Seq<A>, cap: usize) -> Seq<A>
    decreases ids.len(),
{
    if ids.len() == 0 {
        list
    } else {
        noted(all_noted(list, ids.drop_last(), cap), ids.last(), cap)
    }
}

/// There is no room in the list for what is to be noted.
pub open spec fn overflows<A>(list: Seq<A>, id: A, cap: usize) -> bool {
    list.len() >= cap && !list.contains(id)
}

/// For one of these there was no room when its turn came.
pub open spec fn one_overflows<A>(list: Seq<A>, ids: Seq<A>, cap: usize) -> bool
    decreases ids.len(),
{
    ids.len() > 0 && (one_overflows(list, ids.drop_last(), cap) || overflows(
        all_noted(list, ids.drop_last(), cap),
        ids.last(),
        cap,
    ))
}

/// A bounded record, without repetition, of the manifests and pages that were fetched.
pub struct HotSet {
    pages: Vec<PageId>,
    manifests: Vec<ManifestId>,
    saturated: bool,
    cap: usize,
}

impl HotSet {
    /// The pages, in the order in which they were noted.
    pub closed spec fn spec_pages(&self) -> Seq<PageId> {
        self.pages@
    }

    /// The manifests, in the order in which they were noted.
    pub closed spec fn spec_manifests(&self) -> Seq<ManifestId> {
        self.manifests@
    }

    /// How many of each kind there can be.
    pub closed spec fn spec_cap(&self) -> usize {
        self.cap
    }

    /// Whether there was something more than there is room for.
    pub closed spec fn spec_saturated(&self) -> bool {
        self.saturated
    }

    /// Nothing is there twice, and there is no more than there is room for.
    pub open spec fn wf(&self) -> bool {
        &&& self.spec_pages().no_duplicates()
        &&& self.spec_manifests().no_duplicates()
        &&& self.spec_pages().len() <= self.spec_cap()
        &&& self.spec_manifests().len() <= self.spec_cap()
    }

    /// An empty record with room for `cap` of each kind.
    pub fn new(cap: usize) -> (h: HotSet)
        ensures
            h.wf(),
            h.spec_pages() == Seq::<PageId>::empty(),
            h.spec_manifests() == Seq::<ManifestId>::empty(),
            h.spec_cap() == cap,
            !h.spec_saturated(),
    {
        HotSet { pages: Vec::new(), manifests: Vec::new(), saturated: false, cap }
    }

    /// Notes that a page was fetched.
    pub fn record_page(&mut self, id: PageId)
        requires
            old(self).wf(),
        ensures
            final(self).wf(),
            final(self).spec_pages() == noted(old(self).spec_pages(), id, old(self).spec_cap()),
            final(self).spec_manifests() == old(self).spec_manifests(),
            final(self).spec_cap() == old(self).spec_cap(),
            final(self).spec_saturated() == (old(self).spec_saturated() || overflows(
                old(self).spec_pages(),
                id,
                old(self).spec_cap(),
            )),
    {
        let mut i: usize = 0;
        while i < self.pages.len()
            invariant
                i <= self.pages@.len(),
                *self == *old(self),
                old(self).wf(),
                forall|k: int| 0 <= k < i ==> #[trigger] self.pages@[k] != id,
            decreases self.pages@.len() - i,
        {
            if self.pages[i] == id {
                assert(self.pages@.contains(id));
                return;
            }
            i = i + 1;
        }
        if self.pages.len() >= self.cap {
            self.saturated = true;
            return;
        }
        self.pages.push(id);
    }

    /// Notes that a manifest was fetched.
    pub fn record_manifest(&mut self, id: ManifestId)
        requires
            old(self).wf(),
        ensures
            final(self).wf(),
            final(self).spec_manifests() == noted(
                old(self).spec_manifests(),
                id,
                old(self).spec_cap(),
            ),
            final(self).spec_pages() == old(self).spec_pages(),
            final(self).spec_cap() == old(self).spec_cap(),
            final(self).spec_saturated() == (old(self).spec_saturated() || overflows(
                old(self).spec_manifests(),
                id,
                old(self).spec_cap(),
            )),
    {
        let mut i: usize = 0;
        while i < self.manifests.len()
            invariant
                i <= self.manifests@.len(),
                *self == *old(self),
                old(self).wf(),
                forall|k: int| 0 <= k < i ==> #[trigger] self.manifests@[k] != id,
            decreases self.manifests@.len() - i,
        {
            if self.manifests[i] == id {
                assert(self.manifests@.contains(id));
                return;
            }
            i = i + 1;
        }
        if self.manifests.len() >= self.cap {
            self.saturated = true;
            return;
        }
        self.manifests.push(id);
    }

    /// What was noted so far.
    pub fn snapshot(&self) -> (s: HotSetSnapshot)
        ensures
            s.pages@ == self.spec_pages(),
            s.manifests@ == self.spec_manifests(),
    {
        let s = HotSetSnapshot { manifests: self.manifests.clone(), pages: self.pages.clone() };
        assert(s.pages@ =~= self.pages@);
        assert(s.manifests@ =~= self.manifests@);
        s
    }

    /// Whether something came when there was no more room.
    pub fn saturated(&self) -> (r: bool)
        ensures
            r == self.spec_saturated(),
    {
        self.saturated
    }
}

/// The warm set as a wake token carries it.
#[derive(Debug, PartialEq, Eq)]
pub struct HotSetSnapshot {
    /// The manifests that the last wake walked through.
    pub manifests: Vec<ManifestId>,
    /// The pages that the last wake read.
    pub pages: Vec<PageId>,
}

impl Default for HotSetSnapshot {
    fn default() -> (s: HotSetSnapshot)
        ensures
            s.manifests@.len() == 0,
            s.pages@.len() == 0,
    {
        HotSetSnapshot { manifests: Vec::new(), pages: Vec::new() }
    }
}

impl Clone for HotSetSnapshot {
    fn clone(&self) -> (s: HotSetSnapshot)
        ensures
            s.manifests@ == self.manifests@,
            s.pages@ == self.pages@,
    {
        let s = HotSetSnapshot { manifests: self.manifests.clone(), pages: self.pages.clone() };
        assert(s.pages@ =~= self.pages@);
        assert(s.manifests@ =~= self.manifests@);
        s
    }
}

impl HotSetSnapshot {
    /// Whether there is nothing to fetch ahead.
    pub fn is_empty(&self) -> (r: bool)
        ensures
            r == (self.manifests@.len() == 0 && self.pages@.len() == 0),
    {
        self.manifests.len() == 0 && self.pages.len() == 0
    }
}

/// What is noted is in the list as long as there is room, once however often it comes, behind what was
/// there before; nothing else gets in, and the list never gets longer than there is room for.
pub proof fn what_is_noted_is_kept_while_there_is_room<A>(list: Seq<A>, id: A, cap: usize)
    requires
        list.no_duplicates(),
        list.len() <= cap,
    ensures
        ({
            let next = noted(list, id, cap);
            &&& next.contains(id) <==> list.contains(id) || list.len() < cap
            &&& forall|x: A| #[trigger] next.contains(x) ==> list.contains(x) || x == id
            &&& list.is_prefix_of(next)
            &&& next.no_duplicates()
            &&& next.len() <= cap
            &&& next.len() == list.len() + (if list.contains(id) || list.len() == cap {
                0int
            } else {
                1
            })
        }),
        overflows(list, id, cap) <==> list.len() == cap && !list.contains(id),
{
    let next = noted(list, id, cap);
    if next != list {
        assert(next[list.len() as int] == id);
    }
    assert(next.take(list.len() as int) =~= list);
    assert forall|x: A| #[trigger] next.contains(x) implies list.contains(x) || x == id by {
        let k = choose|k: int| 0 <= k < next.len() && next[k] == x;
        if k < list.len() {
            assert(list[k] == x);
        }
    }
}

/// Of many that are noted each is in the list, unless there came more than there was room for; and
/// where that happened the record says so.
pub proof fn of_many_each_is_kept_while_there_is_room<A>(list: Seq<A>, ids: Seq<A>, cap: usize, x: A)
    requires
        list.no_duplicates(),
        list.len() <= cap,
    ensures
        ({
            let next = all_noted(list, ids, cap);
            &&& next.no_duplicates()
            &&& next.len() <= cap
            &&& list.is_prefix_of(next)
            &&& next.contains(x) ==> list.contains(x) || ids.contains(x)
            &&& !one_overflows(list, ids, cap) && (list.contains(x) || ids.contains(x))
                ==> next.contains(x)
            &&& one_overflows(list, ids, cap) ==> next.len() == cap
        }),
    decreases ids.len(),
{
    if ids.len() > 0 {
        let init = ids.drop_last();
        let part = all_noted(list, init, cap);
        of_many_each_is_kept_while_there_is_room(list, init, cap, x);
        what_is_noted_is_kept_while_there_is_room(part, ids.last(), cap);
        let next = all_noted(list, ids, cap);
        crate::pager::lemma_popped(ids, x);
        if part.contains(x) {
            let k = choose|k: int| 0 <= k < part.len() && part[k] == x;
            assert(next[k] == x);
        }
        assert(list =~= next.take(list.len() as int)) by {
            assert(part.take(list.len() as int) =~= list);
        }
    }
}

} // verus!
