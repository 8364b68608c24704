//! Comparing the page maps of manifests, two at a time and three at a time.

use crate::manifest::{ManifestId, PageMap};
use crate::page::{LogicalPageNo, PageId};
use crate::pagemap::{
    entries, increasing, lemma_map_of_increasing, lemma_map_of_keys, map_of,
};
use std::collections::BTreeMap;
use vstd::prelude::*;

verus! {

/// What happened to one logical page between two manifests.
#[derive(Clone, Copy, Debug, PartialEq, Eq)]
pub enum PageChange {
    /// The page is in both, with different content.
    Modified { from: PageId, to: PageId },
    /// The page is only in the later one.
    Added(PageId),
    /// The page was in the earlier one and is gone.
    Removed(PageId),
}

/// The content at a page, if there is any.
pub open spec fn at(pages: Map<u64, PageId>, k: u64) -> Option<PageId> {
    if pages.contains_key(k) {
        Some(pages[k])
    } else {
        None
    }
}

/// What happened to page `k` from one map to the other.
pub open spec fn change_at(from: Map<u64, PageId>, to: Map<u64, PageId>, k: u64) -> Option<
    PageChange,
> {
    match (at(from, k), at(to, k)) {
        (Some(a), Some(b)) => if a != b {
            Some(PageChange::Modified { from: a, to: b })
        } else {
            None
        },
        (None, Some(b)) => Some(PageChange::Added(b)),
        (Some(a), None) => Some(PageChange::Removed(a)),
        (None, None) => None,
    }
}

/// The list names exactly the keys that `f` says something of, with what it says, in order.
pub open spec fn tabulates<T>(s: Seq<(u64, T)>, f: spec_fn(u64) -> Option<T>) -> bool {
    &&& increasing(s)
    &&& forall|i: int| 0 <= i < s.len() ==> f((#[trigger] s[i]).0) == Some(s[i].1)
    &&& forall|k: u64| #[trigger] f(k) is Some ==> has_key(s, k)
}

/// Some entry has this key.
pub open spec fn has_key<T>(s: Seq<(u64, T)>, k: u64) -> bool {
    exists|i: int| 0 <= i < s.len() && (#[trigger] s[i]).0 == k
}

/// There is only one such list.
pub proof fn a_tabulation_is_unique<T>(s: Seq<(u64, T)>, t: Seq<(u64, T)>, f: spec_fn(u64) -> Option<T>)
    requires
        tabulates(s, f),
        tabulates(t, f),
    ensures
        s == t,
{
    lemma_map_of_increasing(s);
    lemma_map_of_increasing(t);
    lemma_map_of_keys(s);
    lemma_map_of_keys(t);
    assert(map_of(s) =~= map_of(t)) by {
        assert forall|k: u64| map_of(s).contains_key(k) <==> map_of(t).contains_key(k) by {
            if map_of(s).contains_key(k) {
                let i = choose|i: int| 0 <= i < s.len() && (#[trigger] s[i]).0 == k;
                assert(f(k) is Some);
                assert(has_key(t, k));
            }
            if map_of(t).contains_key(k) {
                let i = choose|i: int| 0 <= i < t.len() && (#[trigger] t[i]).0 == k;
                assert(f(k) is Some);
                assert(has_key(s, k));
            }
        }
        assert forall|k: u64| #[trigger] map_of(s).contains_key(k) implies map_of(s)[k] == map_of(
            t,
        )[k] by {
            let i = choose|i: int| 0 <= i < s.len() && (#[trigger] s[i]).0 == k;
            let j = choose|j: int| 0 <= j < t.len() && (#[trigger] t[j]).0 == k;
        }
    }
    crate::pagemap::lemma_entries_unique(s, t);
}

/// The difference between two manifests.
#[derive(Debug, PartialEq, Eq)]
pub struct PageDiff {
    /// Every changed logical page, in ascending order.
    pub changes: Vec<(LogicalPageNo, PageChange)>,
}

/// Runs of consecutive numbers, each as its first and its last.
pub open spec fn runs(s: Seq<(u64, PageChange)>) -> Seq<(u64, u64)>
    decreases s.len(),
{
    if s.len() == 0 {
        Seq::empty()
    } else {
        let r = runs(s.drop_last());
        let k = s.last().0;
        if r.len() > 0 && r.last().1 + 1 == k {
            r.drop_last().push((r.last().0, k))
        } else {
            r.push((k, k))
        }
    }
}

/// Page `k` is in one of the ranges.
pub open spec fn covered(r: Seq<(u64, u64)>, k: u64) -> bool {
    exists|i: int| 0 <= i < r.len() && (#[trigger] r[i]).0 <= k <= r[i].1
}

/// For an ascending list of changes the ranges cover the changed pages and no others, go up, and
/// could not be joined.
pub proof fn ranges_cover_exactly_the_changed_pages(s: Seq<(u64, PageChange)>)
    requires
        increasing(s),
    ensures
        forall|k: u64|
            #![trigger covered(runs(s), k)]
            #![trigger has_key(s, k)]
            covered(runs(s), k) <==> has_key(s, k),
        forall|i: int, j: int|
            0 <= i < j < runs(s).len() ==> (#[trigger] runs(s)[i]).1 + 1 < (
            #[trigger] runs(s)[j]).0,
        forall|i: int| 0 <= i < runs(s).len() ==> (#[trigger] runs(s)[i]).0 <= runs(s)[i].1,
        s.len() > 0 ==> runs(s).len() > 0 && runs(s).last().1 == s.last().0,
    decreases s.len(),
{
    if s.len() > 0 {
        let t = s.drop_last();
        ranges_cover_exactly_the_changed_pages(t);
        let r = runs(t);
        let q = runs(s);
        let k0 = s.last().0;
        if t.len() > 0 {
            assert(t.last() == s[s.len() - 2]);
            assert(s[s.len() - 2].0 < s[s.len() - 1].0);
        }
        assert forall|k: u64|
            #![trigger covered(q, k)]
            #![trigger has_key(s, k)]
            covered(q, k) <==> has_key(s, k) by {
            if has_key(s, k) {
                let i = choose|i: int| 0 <= i < s.len() && (#[trigger] s[i]).0 == k;
                if i < t.len() {
                    assert(t[i].0 == k);
                    assert(has_key(t, k));
                    assert(covered(r, k));
                    let j = choose|j: int| 0 <= j < r.len() && (#[trigger] r[j]).0 <= k <= r[j].1;
                    assert(q[j].0 <= k <= q[j].1);
                } else {
                    assert(q[q.len() - 1].0 <= k <= q[q.len() - 1].1);
                }
            }
            if covered(q, k) {
                let j = choose|j: int| 0 <= j < q.len() && (#[trigger] q[j]).0 <= k <= q[j].1;
                if k == k0 {
                    assert(s[s.len() - 1].0 == k);
                } else {
                    assert(r[j].0 <= k <= r[j].1);
                    assert(covered(r, k));
                    assert(has_key(t, k));
                    let i = choose|i: int| 0 <= i < t.len() && (#[trigger] t[i]).0 == k;
                    assert(s[i].0 == k);
                }
            }
        }
        assert forall|i: int, j: int| 0 <= i < j < q.len() implies (#[trigger] q[i]).1 + 1 < (
        #[trigger] q[j]).0 by {
            if j < r.len() {
                assert(r[i].1 + 1 < r[j].0);
            } else if r.len() > 0 {
                if i < r.len() - 1 {
                    assert(r[i].1 + 1 < r[r.len() - 1].0);
                }
            }
        }
    }
}

impl PageDiff {
    /// Whether nothing differs.
    pub fn is_empty(&self) -> (r: bool)
        ensures
            r == (self.changes@.len() == 0),
    {
        self.changes.len() == 0
    }

    /// How many logical pages changed.
    pub fn len(&self) -> (n: usize)
        ensures
            n == self.changes@.len(),
    {
        self.changes.len()
    }

    /// The changed pages as ranges of consecutive numbers, first and last. A page after the last
    /// number there is cannot be asked about.
    pub fn ranges(&self) -> (out: Vec<(LogicalPageNo, LogicalPageNo)>)
        requires
            forall|i: int| 0 <= i < self.changes@.len() - 1 ==> (#[trigger] self.changes@[i]).0 < u64::MAX,
        ensures
            out@ == runs(self.changes@),
    {
        let mut out: Vec<(u64, u64)> = Vec::new();
        let n: usize = self.changes.len();
        let mut i: usize = 0;
        while i < n
            invariant
                n == self.changes@.len(),
                i <= n,
                forall|i: int|
                    0 <= i < self.changes@.len() - 1 ==> (#[trigger] self.changes@[i]).0 < u64::MAX,
                out@ == runs(self.changes@.take(i as int)),
                i > 0 ==> out@.len() > 0 && out@.last().1 == self.changes@[i - 1].0,
            decreases n - i,
        {
            let k: u64 = self.changes[i].0;
            proof {
                assert(self.changes@.take(i as int + 1).drop_last() =~= self.changes@.take(
                    i as int,
                ));
            }
            let len: usize = out.len();
            if len > 0 && out[len - 1].1 < u64::MAX && out[len - 1].1 + 1 == k {
                let first: u64 = out[len - 1].0;
                let _ = out.pop();
                out.push((first, k));
            } else {
                out.push((k, k));
            }
            i = i + 1;
        }
        assert(self.changes@.take(n as int) =~= self.changes@);
        out
    }

    /// The difference between two resolved page maps.
    pub fn between(from: &PageMap, to: &PageMap) -> (d: PageDiff)
        ensures
            tabulates(d.changes@, |k: u64| change_at(from@, to@, k)),
    {
        broadcast use vstd::std_specs::btree::group_btree_axioms;

        let ghost f = |k: u64| change_at(from@, to@, k);
        let mut seen: BTreeMap<u64, ()> = BTreeMap::new();
        add_keys(&mut seen, from);
        add_keys(&mut seen, to);
        let list = entries(&seen);
        proof {
            lemma_map_of_keys(list@);
        }
        let mut changes: Vec<(u64, PageChange)> = Vec::new();
        let n: usize = list.len();
        let mut i: usize = 0;
        while i < n
            invariant
                n == list@.len(),
                i <= n,
                increasing(list@),
                f == (|k: u64| change_at(from@, to@, k)),
                tabulates_up_to(changes@, f, list@, i as int),
            decreases n - i,
        {
            let k: u64 = list[i].0;
            let class: Option<PageChange> = match (from.get(&k), to.get(&k)) {
                (Some(a), Some(b)) => if *a != *b {
                    Some(PageChange::Modified { from: *a, to: *b })
                } else {
                    None
                },
                (None, Some(b)) => Some(PageChange::Added(*b)),
                (Some(a), None) => Some(PageChange::Removed(*a)),
                (None, None) => None,
            };
            let ghost before = changes@;
            match class {
                Some(c) => {
                    changes.push((k, c));
                },
                None => {},
            }
            proof {
                lemma_tabulate_step(before, changes@, f, list@, i as int);
            }
            i = i + 1;
        }
        proof {
            assert forall|k: u64| #[trigger] f(k) is Some implies has_key(changes@, k) by {
                assert(seen@.contains_key(k));
                let j = choose|j: int| 0 <= j < list@.len() && (#[trigger] list@[j]).0 == k;
            }
        }
        PageDiff { changes }
    }
}

/// Nothing differs between two maps exactly when they are the same map.
pub proof fn an_empty_diff_means_equal_maps(
    from: Map<u64, PageId>,
    to: Map<u64, PageId>,
    s: Seq<(u64, PageChange)>,
)
    requires
        tabulates(s, |k: u64| change_at(from, to, k)),
    ensures
        s.len() == 0 <==> from == to,
{
    let f = |k: u64| change_at(from, to, k);
    if s.len() == 0 {
        assert forall|k: u64| from.contains_key(k) <==> to.contains_key(k) by {
            if f(k) is Some {
                assert(has_key(s, k));
            }
        }
        assert forall|k: u64| #[trigger] from.contains_key(k) implies from[k] == to[k] by {
            if f(k) is Some {
                assert(has_key(s, k));
            }
        }
        assert(from =~= to);
    } else if from == to {
        assert(f(s[0].0) is Some);
    }
}

/// Adds the keys of a page map to a set of keys.
fn add_keys(seen: &mut BTreeMap<u64, ()>, pages: &PageMap)
    ensures
        final(seen)@.dom() == old(seen)@.dom().union(pages@.dom()),
{
    broadcast use vstd::std_specs::btree::group_btree_axioms;

    let list = entries(pages);
    let n: usize = list.len();
    let mut i: usize = 0;
    let ghost start = seen@.dom();
    proof {
        lemma_map_of_keys(list@);
    }
    while i < n
        invariant
            n == list@.len(),
            i <= n,
            forall|k: u64|
                #![trigger seen@.contains_key(k)]
                seen@.contains_key(k) <==> start.contains(k) || exists|j: int|
                    0 <= j < i && (#[trigger] list@[j]).0 == k,
        decreases n - i,
    {
        let k: u64 = list[i].0;
        let ghost before = seen@;
        seen.insert(k, ());
        proof {
            assert forall|q: u64|
                #![trigger seen@.contains_key(q)]
                seen@.contains_key(q) <==> start.contains(q) || exists|j: int|
                    0 <= j < i + 1 && (#[trigger] list@[j]).0 == q by {
                if seen@.contains_key(q) {
                    if q == k {
                        assert(list@[i as int].0 == q);
                    } else {
                        assert(before.contains_key(q));
                    }
                }
                if exists|j: int| 0 <= j < i + 1 && (#[trigger] list@[j]).0 == q {
                    let j = choose|j: int| 0 <= j < i + 1 && (#[trigger] list@[j]).0 == q;
                    if j < i {
                        assert(before.contains_key(q));
                    }
                }
            }
        }
        i = i + 1;
    }
    proof {
        assert forall|k: u64| seen@.dom().contains(k) <==> start.union(pages@.dom()).contains(
            k,
        ) by {
            assert(seen@.contains_key(k) <==> seen@.dom().contains(k));
        }
        assert(seen@.dom() =~= start.union(pages@.dom()));
    }
}

/// The list tabulates `f` as far as the first `i` of the keys go.
spec fn tabulates_up_to<T>(
    s: Seq<(u64, T)>,
    f: spec_fn(u64) -> Option<T>,
    keys: Seq<(u64, ())>,
    i: int,
) -> bool {
    &&& increasing(s)
    &&& forall|j: int| 0 <= j < s.len() ==> f((#[trigger] s[j]).0) == Some(s[j].1)
    &&& forall|j: int| 0 <= j < s.len() ==> has_key(keys.take(i), (#[trigger] s[j]).0)
    &&& forall|q: int| 0 <= q < i && f((#[trigger] keys[q]).0) is Some ==> has_key(s, keys[q].0)
}

proof fn lemma_tabulate_step<T>(
    s: Seq<(u64, T)>,
    t: Seq<(u64, T)>,
    f: spec_fn(u64) -> Option<T>,
    keys: Seq<(u64, ())>,
    i: int,
)
    requires
        tabulates_up_to(s, f, keys, i),
        0 <= i < keys.len(),
        increasing(keys),
        t == (match f(keys[i].0) {
            Some(c) => s.push((keys[i].0, c)),
            None => s,
        }),
    ensures
        tabulates_up_to(t, f, keys, i + 1),
{
    assert forall|a: int, b: int| 0 <= a < b < t.len() implies (#[trigger] t[a]).0 < (
    #[trigger] t[b]).0 by {
        if b == s.len() {
            assert(t[a] == s[a]);
            let q = choose|q: int|
                0 <= q < i && (#[trigger] keys.take(i)[q]).0 == s[a].0;
            assert(keys.take(i)[q] == keys[q]);
            assert(keys[q].0 < keys[i].0);
        } else {
            assert(t[a] == s[a] && t[b] == s[b]);
        }
    }
    assert forall|j: int| 0 <= j < t.len() implies has_key(
        keys.take(i + 1),
        (#[trigger] t[j]).0,
    ) by {
        if j < s.len() {
            assert(has_key(keys.take(i), s[j].0));
            let q = choose|q: int|
                0 <= q < i && (#[trigger] keys.take(i)[q]).0 == s[j].0;
            assert(keys.take(i + 1)[q] == keys.take(i)[q]);
        } else {
            assert(keys.take(i + 1)[i].0 == t[j].0);
        }
    }
    assert forall|q: int| 0 <= q < i + 1 && f((#[trigger] keys[q]).0) is Some implies has_key(
        t,
        keys[q].0,
    ) by {
        if q < i {
            let j = choose|j: int| 0 <= j < s.len() && (#[trigger] s[j]).0 == keys[q].0;
            assert(t[j].0 == keys[q].0);
        } else {
            assert(t[s.len() as int].0 == keys[q].0);
        }
    }
}

/// How one logical page stands in a three-way comparison.
#[derive(Clone, Copy, Debug, PartialEq, Eq)]
pub enum PageClass {
    /// Neither branch touched it.
    Unchanged,
    /// Only A changed it.
    AOnly,
    /// Only B changed it.
    BOnly,
    /// Both changed it, to the same content.
    BothSame,
    /// Both changed it, differently; `None` on a side means that it deleted the page.
    Conflict { base: Option<PageId>, a: Option<PageId>, b: Option<PageId> },
}

/// How page `k` stands, where a branch touched it.
pub open spec fn class_at(
    base: Map<u64, PageId>,
    a: Map<u64, PageId>,
    b: Map<u64, PageId>,
    k: u64,
) -> Option<PageClass> {
    let (o, x, y) = (at(base, k), at(a, k), at(b, k));
    if x == o && y == o {
        None
    } else if x == y {
        Some(PageClass::BothSame)
    } else if x == o {
        Some(PageClass::BOnly)
    } else if y == o {
        Some(PageClass::AOnly)
    } else {
        Some(PageClass::Conflict { base: o, a: x, b: y })
    }
}

/// Every page that either of two branches touched, against their merge base.
#[derive(Debug, PartialEq, Eq)]
pub struct ThreeWayDiff {
    /// The merge base.
    pub base: ManifestId,
    /// Branch A.
    pub a: ManifestId,
    /// Branch B.
    pub b: ManifestId,
    /// The touched pages in ascending order; unchanged ones are left out.
    pub entries: Vec<(LogicalPageNo, PageClass)>,
}

/// The entries that are conflicts.
pub open spec fn conflicts_of(s: Seq<(u64, PageClass)>) -> Seq<(u64, PageClass)> {
    s.filter(|e: (u64, PageClass)| e.1 is Conflict)
}

fn same(x: Option<PageId>, y: Option<PageId>) -> (r: bool)
    ensures
        r == (x == y),
{
    match (x, y) {
        (Some(a), Some(b)) => a == b,
        (None, None) => true,
        _ => false,
    }
}

fn look(pages: &PageMap, k: u64) -> (r: Option<PageId>)
    ensures
        r == at(pages@, k),
{
    broadcast use vstd::std_specs::btree::group_btree_axioms;

    match pages.get(&k) {
        Some(id) => Some(*id),
        None => None,
    }
}

impl ThreeWayDiff {
    /// Classifies A and B against their merge base.
    pub fn compute(
        base_id: ManifestId,
        a_id: ManifestId,
        b_id: ManifestId,
        base: &PageMap,
        a: &PageMap,
        b: &PageMap,
    ) -> (d: ThreeWayDiff)
        ensures
            d.base == base_id,
            d.a == a_id,
            d.b == b_id,
            tabulates(d.entries@, |k: u64| class_at(base@, a@, b@, k)),
    {
        broadcast use vstd::std_specs::btree::group_btree_axioms;

        let ghost f = |k: u64| class_at(base@, a@, b@, k);
        let mut seen: BTreeMap<u64, ()> = BTreeMap::new();
        add_keys(&mut seen, base);
        add_keys(&mut seen, a);
        add_keys(&mut seen, b);
        let list = entries(&seen);
        proof {
            lemma_map_of_keys(list@);
        }
        let mut out: Vec<(u64, PageClass)> = Vec::new();
        let n: usize = list.len();
        let mut i: usize = 0;
        while i < n
            invariant
                n == list@.len(),
                i <= n,
                increasing(list@),
                f == (|k: u64| class_at(base@, a@, b@, k)),
                tabulates_up_to(out@, f, list@, i as int),
            decreases n - i,
        {
            let k: u64 = list[i].0;
            let base_p = look(base, k);
            let a_p = look(a, k);
            let b_p = look(b, k);
            let ghost before = out@;
            if same(a_p, b_p) {
                if !same(a_p, base_p) {
                    out.push((k, PageClass::BothSame));
                }
            } else if same(a_p, base_p) {
                out.push((k, PageClass::BOnly));
            } else if same(b_p, base_p) {
                out.push((k, PageClass::AOnly));
            } else {
                out.push((k, PageClass::Conflict { base: base_p, a: a_p, b: b_p }));
            }
            proof {
                lemma_tabulate_step(before, out@, f, list@, i as int);
            }
            i = i + 1;
        }
        proof {
            assert forall|k: u64| #[trigger] f(k) is Some implies has_key(out@, k) by {
                assert(seen@.contains_key(k));
                let j = choose|j: int| 0 <= j < list@.len() && (#[trigger] list@[j]).0 == k;
            }
        }
        ThreeWayDiff { base: base_id, a: a_id, b: b_id, entries: out }
    }

    /// Every page that needs a decision of the merge policy.
    pub fn conflicts(&self) -> (out: Vec<(LogicalPageNo, PageClass)>)
        ensures
            out@ == conflicts_of(self.entries@),
    {
        let mut out: Vec<(u64, PageClass)> = Vec::new();
        let n: usize = self.entries.len();
        let mut i: usize = 0;
        proof {
            reveal(Seq::filter);
            assert(self.entries@.take(0) =~= Seq::empty());
        }
        while i < n
            invariant
                n == self.entries@.len(),
                i <= n,
                out@ == conflicts_of(self.entries@.take(i as int)),
            decreases n - i,
        {
            let e = self.entries[i];
            let is_conflict = match e.1 {
                PageClass::Conflict { .. } => true,
                _ => false,
            };
            proof {
                reveal(Seq::filter);
                assert(self.entries@.take(i as int + 1).drop_last() =~= self.entries@.take(
                    i as int,
                ));
            }
            if is_conflict {
                out.push(e);
            }
            i = i + 1;
        }
        assert(self.entries@.take(n as int) =~= self.entries@);
        out
    }

    /// Whether no page needs a decision.
    pub fn is_clean(&self) -> (r: bool)
        ensures
            r == (conflicts_of(self.entries@).len() == 0),
    {
        self.conflicts().len() == 0
    }

    /// How many pages either branch touched.
    pub fn len(&self) -> (n: usize)
        ensures
            n == self.entries@.len(),
    {
        self.entries.len()
    }

    /// Whether neither branch touched anything.
    pub fn is_empty(&self) -> (r: bool)
        ensures
            r == (self.entries@.len() == 0),
    {
        self.entries.len() == 0
    }
}

/// Swapping the branches swaps who is the only author, and the sides of every conflict.
pub proof fn comparing_is_symmetric(
    base: Map<u64, PageId>,
    a: Map<u64, PageId>,
    b: Map<u64, PageId>,
    k: u64,
)
    ensures
        class_at(base, b, a, k) == (match class_at(base, a, b, k) {
            Some(PageClass::AOnly) => Some(PageClass::BOnly),
            Some(PageClass::BOnly) => Some(PageClass::AOnly),
            Some(PageClass::Conflict { base: o, a: x, b: y }) => Some(
                PageClass::Conflict { base: o, a: y, b: x },
            ),
            c => c,
        }),
{
}

/// A branch that never moved has no conflicts, and every entry is the other branch's.
pub proof fn an_unmoved_branch_conflicts_with_nothing(base: Map<u64, PageId>, b: Map<u64, PageId>, k: u64)
    ensures
        class_at(base, base, b, k) is None || class_at(base, base, b, k) == Some(PageClass::BOnly),
        class_at(base, base, b, k) is Some <==> change_at(base, b, k) is Some,
{
}

/// What a three-way comparison says, in terms of the three maps alone. A page is listed exactly where
/// a branch has something else than the base. It counts as the same change exactly where both
/// branches have the same there, as one branch's exactly where the other still has what the base
/// has, and in every other case as a conflict, which shows what all three have: also where both
/// branches added the page with different content, or one removed what the other changed.
pub proof fn a_comparison_classes_every_page(
    base_id: ManifestId,
    a_id: ManifestId,
    b_id: ManifestId,
    base: &PageMap,
    a: &PageMap,
    b: &PageMap,
    d: ThreeWayDiff,
    p: u64,
)
    requires
        call_ensures(ThreeWayDiff::compute, (base_id, a_id, b_id, base, a, b), d),
    ensures
        d.base == base_id && d.a == a_id && d.b == b_id,
        forall|i: int, j: int|
            0 <= i < j < d.entries@.len() ==> (#[trigger] d.entries@[i]).0 < (
            #[trigger] d.entries@[j]).0,
        (a@.get(p) != base@.get(p) || b@.get(p) != base@.get(p))
            <==> exists|i: int| 0 <= i < d.entries@.len() && (#[trigger] d.entries@[i]).0 == p,
        forall|i: int|
            0 <= i < d.entries@.len() && (#[trigger] d.entries@[i]).0 == p ==> {
                let c = d.entries@[i].1;
                let (o, x, y) = (base@.get(p), a@.get(p), b@.get(p));
                &&& c is BothSame <==> x == y
                &&& c is BOnly <==> x == o
                &&& c is AOnly <==> y == o
                &&& c is Conflict <==> x != y && x != o && y != o
                &&& c matches PageClass::Conflict { base: co, a: cx, b: cy } ==> co == o && cx == x
                    && cy == y
                &&& !(c is Unchanged)
            },
{
    let f = |k: u64| class_at(base@, a@, b@, k);
    let s = d.entries@;
    assert(at(base@, p) == base@.get(p) && at(a@, p) == a@.get(p) && at(b@, p) == b@.get(p));
    if f(p) is Some {
        assert(has_key(s, p));
    }
    assert forall|i: int| 0 <= i < s.len() && (#[trigger] s[i]).0 == p implies f(p) == Some(
        s[i].1,
    ) by {
        assert(f(s[i].0) == Some(s[i].1));
    }
}

/// A comparison is clean exactly where for every page the branches agree, or one of them has what the
/// base has; and what is a conflict is named, every one and nothing else.
pub proof fn a_clean_comparison_leaves_nothing_to_decide(
    base_id: ManifestId,
    a_id: ManifestId,
    b_id: ManifestId,
    base: &PageMap,
    a: &PageMap,
    b: &PageMap,
    d: ThreeWayDiff,
    clean: bool,
    conflicts: Vec<(LogicalPageNo, PageClass)>,
)
    requires
        call_ensures(ThreeWayDiff::compute, (base_id, a_id, b_id, base, a, b), d),
        call_ensures(ThreeWayDiff::is_clean, (&d,), clean),
        call_ensures(ThreeWayDiff::conflicts, (&d,), conflicts),
    ensures
        clean <==> forall|p: u64|
            (#[trigger] a@.get(p)) == b@.get(p) || a@.get(p) == base@.get(p)
                || b@.get(p) == base@.get(p),
        forall|p: u64|
            (exists|i: int| 0 <= i < conflicts@.len() && (#[trigger] conflicts@[i]).0 == p)
                <==> (#[trigger] a@.get(p)) != b@.get(p) && a@.get(p)
                != base@.get(p) && b@.get(p) != base@.get(p),
{
    let s = d.entries@;
    let is_conflict = |e: (u64, PageClass)| e.1 is Conflict;
    assert(conflicts@ == s.filter(is_conflict));
    assert forall|p: u64|
        (exists|i: int| 0 <= i < conflicts@.len() && (#[trigger] conflicts@[i]).0 == p)
            <==> (#[trigger] a@.get(p)) != b@.get(p) && a@.get(p) != base@.get(p) && b@.get(p)
            != base@.get(p) by {
        a_comparison_classes_every_page(base_id, a_id, b_id, base, a, b, d, p);
        if exists|i: int| 0 <= i < conflicts@.len() && (#[trigger] conflicts@[i]).0 == p {
            let i = choose|i: int| 0 <= i < conflicts@.len() && (#[trigger] conflicts@[i]).0 == p;
            lemma_filtered(s, is_conflict, conflicts@[i]);
            let j = choose|j: int| 0 <= j < s.len() && s[j] == conflicts@[i];
            assert(s[j].0 == p);
        }
        if a@.get(p) != b@.get(p) && a@.get(p) != base@.get(p) && b@.get(p) != base@.get(p) {
            let j = choose|j: int| 0 <= j < s.len() && (#[trigger] s[j]).0 == p;
            assert(s[j].1 is Conflict);
            assert(s.contains(s[j]));
            lemma_filtered(s, is_conflict, s[j]);
            let i = choose|i: int| 0 <= i < conflicts@.len() && conflicts@[i] == s[j];
            assert(conflicts@[i].0 == p);
        }
    }
    if !clean {
        assert(conflicts@[0].0 == conflicts@[0].0);
        let p = conflicts@[0].0;
        assert(a@.get(p) == a@.get(p));
    } else {
        assert forall|p: u64| (#[trigger] a@.get(p)) == b@.get(p) || a@.get(p) == base@.get(p)
            || b@.get(p) == base@.get(p) by {}
    }
}

/// What a filter keeps.
proof fn lemma_filtered<T>(s: Seq<T>, keep: spec_fn(T) -> bool, x: T)
    ensures
        s.filter(keep).contains(x) <==> s.contains(x) && keep(x),
    decreases s.len(),
{
    reveal(Seq::filter);
    if s.len() > 0 {
        let t = s.drop_last();
        lemma_filtered(t, keep, x);
        if s.contains(x) {
            let k = choose|k: int| 0 <= k < s.len() && s[k] == x;
            if k < t.len() {
                assert(t[k] == x);
            }
        }
        if t.contains(x) {
            let k = choose|k: int| 0 <= k < t.len() && t[k] == x;
            assert(s[k] == x);
        }
        let f = t.filter(keep);
        if keep(s.last()) {
            let g = f.push(s.last());
            assert(g[f.len() as int] == s.last());
            assert(s[s.len() - 1] == s.last());
            if g.contains(x) {
                let k = choose|k: int| 0 <= k < g.len() && g[k] == x;
                if k < f.len() {
                    assert(f[k] == x);
                }
            }
            if f.contains(x) {
                let k = choose|k: int| 0 <= k < f.len() && f[k] == x;
                assert(g[k] == x);
            }
        }
    }
}

/// What a comparison of two maps says, in terms of the maps alone: a page is listed exactly where
/// they differ, with what each of them has.
pub proof fn a_diff_names_every_page_that_differs(
    from: &PageMap,
    to: &PageMap,
    d: PageDiff,
    p: u64,
)
    requires
        call_ensures(PageDiff::between, (from, to), d),
    ensures
        forall|i: int, j: int|
            0 <= i < j < d.changes@.len() ==> (#[trigger] d.changes@[i]).0 < (
            #[trigger] d.changes@[j]).0,
        from@.get(p) != to@.get(p) <==> exists|i: int|
            0 <= i < d.changes@.len() && (#[trigger] d.changes@[i]).0 == p,
        forall|i: int|
            0 <= i < d.changes@.len() && (#[trigger] d.changes@[i]).0 == p ==> match d.changes@[i].1 {
                PageChange::Modified { from: x, to: y } => from@.get(p) == Some(x) && to@.get(p)
                    == Some(y),
                PageChange::Added(y) => from@.get(p) is None && to@.get(p) == Some(y),
                PageChange::Removed(x) => from@.get(p) == Some(x) && to@.get(p) is None,
            },
{
    let f = |k: u64| change_at(from@, to@, k);
    let s = d.changes@;
    assert(at(from@, p) == from@.get(p) && at(to@, p) == to@.get(p));
    if f(p) is Some {
        assert(has_key(s, p));
    }
    assert forall|i: int| 0 <= i < s.len() && (#[trigger] s[i]).0 == p implies f(p) == Some(
        s[i].1,
    ) by {
        assert(f(s[i].0) == Some(s[i].1));
    }
}

/// The ranges of a diff hold the pages that differ and no others, in order, and none of them touch.
pub proof fn ranges_hold_the_pages_that_differ(
    d: &PageDiff,
    out: Vec<(LogicalPageNo, LogicalPageNo)>,
    p: u64,
)
    requires
        forall|i: int, j: int|
            0 <= i < j < d.changes@.len() ==> (#[trigger] d.changes@[i]).0 < (
            #[trigger] d.changes@[j]).0,
        call_ensures(PageDiff::ranges, (d,), out),
    ensures
        (exists|i: int| 0 <= i < out@.len() && (#[trigger] out@[i]).0 <= p <= out@[i].1)
            <==> exists|i: int| 0 <= i < d.changes@.len() && (#[trigger] d.changes@[i]).0 == p,
        forall|i: int, j: int|
            0 <= i < j < out@.len() ==> (#[trigger] out@[i]).1 + 1 < (#[trigger] out@[j]).0,
{
    ranges_cover_exactly_the_changed_pages(d.changes@);
    assert(covered(runs(d.changes@), p) <==> has_key(d.changes@, p));
}

} // verus!
