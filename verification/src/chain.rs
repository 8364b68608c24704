//! What a set of manifests means: overlay chains, the commits on top of them, and history.

use crate::diff::at;
use crate::manifest::{
    apply_changes, flat_view, overlay_view, BodyView, ManifestId, ManifestView, MAX_OVERLAY_DEPTH,
};
use crate::page::PageId;
use vstd::prelude::*;

verus! {

/// Manifests by id.
pub type Manifests = Map<ManifestId, ManifestView>;

/// How many overlays a chain may have and still be walked: one more than is ever built.
pub const MAX_HOPS: usize = 9;

/// The pages of a manifest, through at most `hops` overlays.
pub open spec fn resolve_within(ms: Manifests, m: ManifestView, hops: nat) -> Option<
    Map<u64, PageId>,
>
    decreases hops,
{
    match m.body {
        BodyView::Flat(pages) => Some(pages),
        BodyView::Overlay { base, changes } => if hops == 0 || !ms.contains_key(base) {
            None
        } else {
            match resolve_within(ms, ms[base], (hops - 1) as nat) {
                Some(pages) => Some(apply_changes(pages, changes)),
                None => None,
            }
        },
    }
}

/// The pages of the manifest with this id.
pub open spec fn resolved(ms: Manifests, id: ManifestId) -> Option<Map<u64, PageId>> {
    if ms.contains_key(id) {
        resolve_within(ms, ms[id], MAX_HOPS as nat)
    } else {
        None
    }
}

/// What is at one page, asking at most `hops` bases: the first manifest that says something of
/// the page decides, and a removal is something.
pub open spec fn lookup_within(ms: Manifests, m: ManifestView, k: u64, hops: nat) -> Option<
    Option<PageId>,
>
    decreases hops,
{
    match m.local_lookup(k) {
        Some(answer) => Some(answer),
        None => match m.overlay_base() {
            Some(base) => if hops == 0 || !ms.contains_key(base) {
                None
            } else {
                lookup_within(ms, ms[base], k, (hops - 1) as nat)
            },
            None => Some(None),
        },
    }
}

/// What is at one page of the manifest with this id.
pub open spec fn looked_up(ms: Manifests, id: ManifestId, k: u64) -> Option<Option<PageId>> {
    if ms.contains_key(id) {
        lookup_within(ms, ms[id], k, MAX_HOPS as nat)
    } else {
        None
    }
}

/// Everything in `a` is in `b`, unchanged.
pub open spec fn extends(a: Manifests, b: Manifests) -> bool {
    forall|id: ManifestId| #[trigger] a.contains_key(id) ==> b.contains_key(id) && b[id] == a[id]
}

proof fn lemma_lookup_within(ms: Manifests, m: ManifestView, k: u64, hops: nat)
    requires
        resolve_within(ms, m, hops) is Some,
    ensures
        lookup_within(ms, m, k, hops) == Some(at(resolve_within(ms, m, hops).unwrap(), k)),
    decreases hops,
{
    match m.body {
        BodyView::Flat(pages) => {},
        BodyView::Overlay { base, changes } => {
            lemma_lookup_within(ms, ms[base], k, (hops - 1) as nat);
        },
    }
}

/// Looking a page up gives what the whole map has there.
pub proof fn looking_up_agrees_with_resolving(ms: Manifests, id: ManifestId, k: u64)
    requires
        resolved(ms, id) is Some,
    ensures
        looked_up(ms, id, k) == Some(at(resolved(ms, id).unwrap(), k)),
{
    lemma_lookup_within(ms, ms[id], k, MAX_HOPS as nat);
}

/// A page that an overlay removes stays removed, whatever lies beneath.
pub proof fn a_removal_stops_the_walk(ms: Manifests, id: ManifestId, k: u64)
    requires
        ms.contains_key(id),
        ms[id].body matches BodyView::Overlay { changes, .. } && changes.contains_key(k)
            && changes[k] is None,
    ensures
        looked_up(ms, id, k) == Some(None::<PageId>),
        resolved(ms, id) is Some ==> !resolved(ms, id).unwrap().contains_key(k),
{
}

pub proof fn lemma_resolve_more(
    ms: Manifests,
    ns: Manifests,
    m: ManifestView,
    hops: nat,
    more: nat,
)
    requires
        resolve_within(ms, m, hops) is Some,
        extends(ms, ns),
        hops <= more,
    ensures
        resolve_within(ns, m, more) == resolve_within(ms, m, hops),
    decreases hops,
{
    match m.body {
        BodyView::Flat(pages) => {},
        BodyView::Overlay { base, changes } => {
            lemma_resolve_more(ms, ns, ms[base], (hops - 1) as nat, (more - 1) as nat);
        },
    }
}

/// A stored manifest goes on meaning what it meant, whatever is stored after it.
pub proof fn a_snapshot_never_changes(ms: Manifests, ns: Manifests, id: ManifestId)
    requires
        extends(ms, ns),
        resolved(ms, id) is Some,
    ensures
        resolved(ns, id) == resolved(ms, id),
{
    lemma_resolve_more(ms, ns, ms[id], MAX_HOPS as nat, MAX_HOPS as nat);
}

/// The depth counts the overlays: it is zero for a flat manifest, and one more than the base's for
/// an overlay.
pub open spec fn depth_fits(ms: Manifests, m: ManifestView) -> bool {
    match m.body {
        BodyView::Flat(_) => m.depth == 0,
        BodyView::Overlay { base, .. } => ms.contains_key(base) && m.depth == ms[base].depth + 1,
    }
}

/// A manifest that was built by committing: its depth counts its overlays and is within the limit,
/// its chain can be walked, and it counts its pages right.
pub open spec fn sound(ms: Manifests, m: ManifestView) -> bool {
    &&& m.depth <= MAX_OVERLAY_DEPTH
    &&& depth_fits(ms, m)
    &&& resolve_within(ms, m, m.depth as nat) is Some
    &&& resolve_within(ms, m, m.depth as nat).unwrap().dom().finite()
    &&& m.page_count == resolve_within(ms, m, m.depth as nat).unwrap().dom().len()
}

/// Every manifest of the store was built by committing.
pub open spec fn all_sound(ms: Manifests) -> bool {
    forall|id: ManifestId| #[trigger] ms.contains_key(id) ==> sound(ms, ms[id])
}

/// A sound manifest resolves.
pub proof fn lemma_sound_resolves(ms: Manifests, id: ManifestId)
    requires
        ms.contains_key(id),
        sound(ms, ms[id]),
    ensures
        resolved(ms, id) is Some,
        resolved(ms, id) == resolve_within(ms, ms[id], ms[id].depth as nat),
        resolved(ms, id).unwrap().dom().finite(),
        ms[id].page_count == resolved(ms, id).unwrap().dom().len(),
{
    lemma_resolve_more(ms, ms, ms[id], ms[id].depth as nat, MAX_HOPS as nat);
}

/// And goes on being sound.
pub proof fn lemma_sound_extends(ms: Manifests, ns: Manifests, m: ManifestView)
    requires
        extends(ms, ns),
        sound(ms, m),
    ensures
        sound(ns, m),
{
    lemma_resolve_more(ms, ns, m, m.depth as nat, m.depth as nat);
}

// ---------------------------------------------------------------------------------------------
// Committing.
// ---------------------------------------------------------------------------------------------

/// The changes of a transaction.
pub type Writes = Map<u64, Option<PageId>>;

/// Every page that the transaction touches can be looked up.
pub open spec fn lookups_ok(ms: Manifests, base: ManifestId, writes: Writes) -> bool {
    forall|k: u64| #[trigger] writes.contains_key(k) ==> looked_up(ms, base, k) is Some
}

/// The transaction sets some page to something other than what is there.
pub open spec fn changes_something(ms: Manifests, base: ManifestId, writes: Writes) -> bool {
    exists|k: u64| #[trigger]
        writes.contains_key(k) && looked_up(ms, base, k) != Some(writes[k])
}

/// The pages that the transaction adds.
pub open spec fn added(ms: Manifests, base: ManifestId, writes: Writes) -> Set<u64> {
    writes.dom().filter(
        |k: u64| looked_up(ms, base, k) == Some(None::<PageId>) && writes[k] is Some,
    )
}

/// The pages that the transaction removes.
pub open spec fn removed(ms: Manifests, base: ManifestId, writes: Writes) -> Set<u64> {
    writes.dom().filter(
        |k: u64| (looked_up(ms, base, k) matches Some(Some(_))) && writes[k] is None,
    )
}

/// The number as a signed one of the same width.
pub open spec fn signed(n: u64) -> int {
    if n <= i64::MAX {
        n as int
    } else {
        n - 0x1_0000_0000_0000_0000
    }
}

/// The page count after the transaction, and never below zero.
pub open spec fn count_after(ms: Manifests, base: ManifestId, writes: Writes) -> u64 {
    let n = signed(ms[base].page_count) + added(ms, base, writes).len() - removed(
        ms,
        base,
        writes,
    ).len();
    if n < 0 {
        0
    } else {
        n as u64
    }
}

/// The manifest that the transaction produces: an overlay, or a flat one where the base is as deep
/// as a chain may get.
pub open spec fn derived(
    ms: Manifests,
    base: ManifestId,
    writes: Writes,
    created_at_ms: u64,
) -> ManifestView {
    if ms[base].depth >= MAX_OVERLAY_DEPTH {
        flat_view(
            base,
            ms[base],
            apply_changes(resolved(ms, base).unwrap(), writes),
            created_at_ms,
        )
    } else {
        overlay_view(base, ms[base], writes, count_after(ms, base, writes), created_at_ms)
    }
}

/// The base can be read as far as the transaction needs it.
pub open spec fn derivable(ms: Manifests, base: ManifestId, writes: Writes) -> bool {
    &&& ms.contains_key(base)
    &&& lookups_ok(ms, base, writes)
    &&& ms[base].depth >= MAX_OVERLAY_DEPTH && changes_something(ms, base, writes) ==> resolved(
        ms,
        base,
    ) is Some
}

/// A base that can be resolved can be committed on.
pub proof fn lemma_resolved_is_derivable(ms: Manifests, base: ManifestId, writes: Writes)
    requires
        resolved(ms, base) is Some,
    ensures
        derivable(ms, base, writes),
{
    assert forall|k: u64| #[trigger] writes.contains_key(k) implies looked_up(
        ms,
        base,
        k,
    ) is Some by {
        looking_up_agrees_with_resolving(ms, base, k);
    }
}

/// What is derived depends on the base's chain alone, not on what else is stored.
pub proof fn lemma_derived_extends(
    ms: Manifests,
    ns: Manifests,
    base: ManifestId,
    writes: Writes,
    created_at_ms: u64,
)
    requires
        extends(ms, ns),
        resolved(ms, base) is Some,
    ensures
        derived(ns, base, writes, created_at_ms) == derived(ms, base, writes, created_at_ms),
        changes_something(ns, base, writes) == changes_something(ms, base, writes),
{
    a_snapshot_never_changes(ms, ns, base);
    assert forall|k: u64| looked_up(ns, base, k) == looked_up(ms, base, k) by {
        looking_up_agrees_with_resolving(ms, base, k);
        looking_up_agrees_with_resolving(ns, base, k);
    }
    assert(added(ns, base, writes) =~= added(ms, base, writes));
    assert(removed(ns, base, writes) =~= removed(ms, base, writes));
}

proof fn lemma_lookup_extends(ms: Manifests, ns: Manifests, m: ManifestView, k: u64, hops: nat)
    requires
        extends(ms, ns),
        lookup_within(ms, m, k, hops) is Some,
    ensures
        lookup_within(ns, m, k, hops) == lookup_within(ms, m, k, hops),
    decreases hops,
{
    if m.local_lookup(k) is None {
        if let Some(base) = m.overlay_base() {
            lemma_lookup_extends(ms, ns, ms[base], k, (hops - 1) as nat);
        }
    }
}

/// What is at a page of a manifest stays when manifests are added.
pub proof fn lemma_looked_up_extends(ms: Manifests, ns: Manifests, id: ManifestId, k: u64)
    requires
        extends(ms, ns),
        looked_up(ms, id, k) is Some,
    ensures
        looked_up(ns, id, k) == looked_up(ms, id, k),
{
    lemma_lookup_extends(ms, ns, ms[id], k, MAX_HOPS as nat);
}

/// What could be derived once is derived the same way when more is stored.
pub proof fn lemma_derivable_extends(
    ms: Manifests,
    ns: Manifests,
    base: ManifestId,
    writes: Writes,
    created_at_ms: u64,
)
    requires
        extends(ms, ns),
        derivable(ms, base, writes),
    ensures
        derivable(ns, base, writes),
        changes_something(ns, base, writes) == changes_something(ms, base, writes),
        changes_something(ms, base, writes) ==> derived(ns, base, writes, created_at_ms) == derived(
            ms,
            base,
            writes,
            created_at_ms,
        ),
{
    assert forall|k: u64| #[trigger] writes.contains_key(k) implies looked_up(ns, base, k)
        == looked_up(ms, base, k) && looked_up(ms, base, k) is Some by {
        lemma_lookup_extends(ms, ns, ms[base], k, MAX_HOPS as nat);
    }
    assert(changes_something(ns, base, writes) == changes_something(ms, base, writes)) by {
        if changes_something(ms, base, writes) {
            let k = choose|k: u64| #[trigger]
                writes.contains_key(k) && looked_up(ms, base, k) != Some(writes[k]);
            assert(looked_up(ns, base, k) != Some(writes[k]));
        }
        if changes_something(ns, base, writes) {
            let k = choose|k: u64| #[trigger]
                writes.contains_key(k) && looked_up(ns, base, k) != Some(writes[k]);
            assert(looked_up(ms, base, k) != Some(writes[k]));
        }
    }
    assert(added(ns, base, writes) =~= added(ms, base, writes));
    assert(removed(ns, base, writes) =~= removed(ms, base, writes));
    if ms[base].depth >= MAX_OVERLAY_DEPTH && changes_something(ms, base, writes) {
        a_snapshot_never_changes(ms, ns, base);
    }
}

/// A transaction that sets nothing anew changes nothing.
pub proof fn a_transaction_without_effect_leaves_the_pages(
    ms: Manifests,
    base: ManifestId,
    writes: Writes,
)
    requires
        resolved(ms, base) is Some,
    ensures
        !changes_something(ms, base, writes) <==> apply_changes(
            resolved(ms, base).unwrap(),
            writes,
        ) == resolved(ms, base).unwrap(),
{
    let pages = resolved(ms, base).unwrap();
    let after = apply_changes(pages, writes);
    if !changes_something(ms, base, writes) {
        assert forall|k: u64| after.contains_key(k) <==> pages.contains_key(k) by {
            looking_up_agrees_with_resolving(ms, base, k);
        }
        assert forall|k: u64| #[trigger] after.contains_key(k) implies after[k] == pages[k] by {
            looking_up_agrees_with_resolving(ms, base, k);
        }
        assert(after =~= pages);
    } else {
        let k = choose|k: u64| #[trigger]
            writes.contains_key(k) && looked_up(ms, base, k) != Some(writes[k]);
        looking_up_agrees_with_resolving(ms, base, k);
        assert(at(after, k) != at(pages, k));
    }
}

proof fn lemma_count(pages: Map<u64, PageId>, ms: Manifests, base: ManifestId, writes: Writes)
    requires
        resolved(ms, base) == Some(pages),
        pages.dom().finite(),
        writes.dom().finite(),
    ensures
        apply_changes(pages, writes).dom().finite(),
        apply_changes(pages, writes).dom().len() == pages.dom().len() + added(
            ms,
            base,
            writes,
        ).len() - removed(ms, base, writes).len(),
        added(ms, base, writes).len() <= writes.dom().len(),
{
    let plus = added(ms, base, writes);
    let minus = removed(ms, base, writes);
    let after = apply_changes(pages, writes);
    assert(plus.subset_of(writes.dom()));
    assert(minus.subset_of(writes.dom()));
    vstd::set_lib::lemma_len_subset(plus, writes.dom());
    vstd::set_lib::lemma_len_subset(minus, writes.dom());
    assert forall|k: u64| plus.contains(k) implies !pages.contains_key(k) by {
        looking_up_agrees_with_resolving(ms, base, k);
    }
    assert forall|k: u64| minus.contains(k) implies pages.contains_key(k) by {
        looking_up_agrees_with_resolving(ms, base, k);
    }
    let kept = pages.dom().difference(minus);
    assert(minus.subset_of(pages.dom()));
    vstd::set_lib::lemma_len_difference(pages.dom(), minus);
    assert(pages.dom().intersect(minus) =~= minus);
    assert(kept.len() == pages.dom().len() - minus.len()) by {
        vstd::set_lib::lemma_set_disjoint_lens(kept, minus);
        assert(kept + minus =~= pages.dom());
    }
    assert(kept.disjoint(plus));
    vstd::set_lib::lemma_set_disjoint_lens(kept, plus);
    assert forall|k: u64| after.dom().contains(k) <==> (kept + plus).contains(k) by {
        looking_up_agrees_with_resolving(ms, base, k);
    }
    assert(after.dom() =~= kept + plus);
}

/// Committing on a sound manifest gives a sound manifest that holds the base's pages with the
/// transaction's changes, and stays within the depth limit.
pub proof fn committing_applies_the_changes(
    ms: Manifests,
    base: ManifestId,
    writes: Writes,
    created_at_ms: u64,
)
    requires
        ms.contains_key(base),
        sound(ms, ms[base]),
        writes.dom().finite(),
        resolved(ms, base).unwrap().dom().len() + writes.dom().len() <= i64::MAX,
        ({
            let m = derived(ms, base, writes, created_at_ms);
            ms.contains_key(m.id()) ==> ms[m.id()] == m
        }),
    ensures
        ({
            let m = derived(ms, base, writes, created_at_ms);
            let ns = ms.insert(m.id(), m);
            &&& extends(ms, ns)
            &&& sound(ns, m)
            &&& resolved(ns, m.id()) == Some(apply_changes(resolved(ms, base).unwrap(), writes))
            &&& resolved(ns, base) == resolved(ms, base)
            &&& m.parent == Some(base)
        }),
{
    let m = derived(ms, base, writes, created_at_ms);
    let ns = ms.insert(m.id(), m);
    lemma_sound_resolves(ms, base);
    let pages = resolved(ms, base).unwrap();
    lemma_count(pages, ms, base, writes);
    a_snapshot_never_changes(ms, ns, base);
    if ms[base].depth >= MAX_OVERLAY_DEPTH {
    } else {
        lemma_resolve_more(ms, ns, ms[base], ms[base].depth as nat, ms[base].depth as nat);
        assert(ns.contains_key(base));
        assert(ns[base] == ms[base]);
        assert(resolve_within(ns, m, m.depth as nat) == Some(apply_changes(pages, writes)));
        lemma_resolve_more(ns, ns, m, m.depth as nat, MAX_HOPS as nat);
    }
}

// ---------------------------------------------------------------------------------------------
// History.
// ---------------------------------------------------------------------------------------------

/// The ancestor `n` commits back, if there is one.
pub open spec fn ancestor(ms: Manifests, id: ManifestId, n: nat) -> Option<ManifestId>
    decreases n,
{
    if n == 0 {
        Some(id)
    } else {
        match ancestor(ms, id, (n - 1) as nat) {
            Some(x) => if ms.contains_key(x) {
                ms[x].parent
            } else {
                None
            },
            None => None,
        }
    }
}

/// `x` is `id` or one of its ancestors.
pub open spec fn is_ancestor(ms: Manifests, x: ManifestId, id: ManifestId) -> bool {
    exists|n: nat| #[trigger] ancestor(ms, id, n) == Some(x)
}

/// Every ancestor can be read.
pub open spec fn has_history(ms: Manifests, id: ManifestId) -> bool {
    forall|n: nat| (#[trigger] ancestor(ms, id, n)) matches Some(x) ==> ms.contains_key(x)
}

/// `c` is the most recent ancestor of `b` that is also one of `a`.
pub open spec fn is_merge_base(ms: Manifests, a: ManifestId, b: ManifestId, c: ManifestId) -> bool {
    exists|n: nat| #[trigger] nearest_at(ms, a, b, c, n)
}

pub open spec fn nearest_at(ms: Manifests, a: ManifestId, b: ManifestId, c: ManifestId, n: nat) -> bool {
    &&& ancestor(ms, b, n) == Some(c)
    &&& is_ancestor(ms, c, a)
    &&& forall|j: nat, x: ManifestId|
        j < n && #[trigger] ancestor(ms, b, j) == Some(x) ==> !#[trigger] is_ancestor(ms, x, a)
}

/// `a` and `b` have an ancestor in common.
pub open spec fn related(ms: Manifests, a: ManifestId, b: ManifestId) -> bool {
    exists|x: ManifestId| #[trigger] is_ancestor(ms, x, a) && is_ancestor(ms, x, b)
}

/// Whoever is one's own ancestor is one's own merge base.
pub proof fn the_merge_base_with_an_ancestor_is_the_ancestor(ms: Manifests, a: ManifestId, b: ManifestId)
    requires
        is_ancestor(ms, b, a),
    ensures
        is_merge_base(ms, a, b, b),
{
    assert(ancestor(ms, b, 0) == Some(b));
    assert(nearest_at(ms, a, b, b, 0));
}

/// Two manifests have one merge base at most, seen from one of them.
pub proof fn there_is_one_merge_base(
    ms: Manifests,
    a: ManifestId,
    b: ManifestId,
    c: ManifestId,
    d: ManifestId,
)
    requires
        is_merge_base(ms, a, b, c),
        is_merge_base(ms, a, b, d),
    ensures
        c == d,
{
    let n = choose|n: nat| #[trigger] nearest_at(ms, a, b, c, n);
    let m = choose|m: nat| #[trigger] nearest_at(ms, a, b, d, m);
    if n < m {
        assert(!is_ancestor(ms, c, a));
    } else if m < n {
        assert(!is_ancestor(ms, d, a));
    }
}

/// Where no manifest is its own ancestor, the merge base is the same seen from either side.
pub proof fn the_merge_base_is_symmetric(
    ms: Manifests,
    a: ManifestId,
    b: ManifestId,
    c: ManifestId,
    d: ManifestId,
)
    requires
        is_merge_base(ms, a, b, c),
        is_merge_base(ms, b, a, d),
        forall|x: ManifestId, n: nat| n > 0 ==> #[trigger] ancestor(ms, x, n) != Some(x),
    ensures
        c == d,
{
    let n = choose|n: nat| #[trigger] nearest_at(ms, a, b, c, n);
    let m = choose|m: nat| #[trigger] nearest_at(ms, b, a, d, m);
    let i = choose|i: nat| #[trigger] ancestor(ms, b, i) == Some(d);
    let j = choose|j: nat| #[trigger] ancestor(ms, a, j) == Some(c);
    assert(is_ancestor(ms, d, a));
    assert(is_ancestor(ms, c, b));
    assert(i >= n && j >= m);
    let (p, q) = ((i - n) as nat, (j - m) as nat);
    lemma_ancestor_chain(ms, b, c, n, p);
    lemma_ancestor_chain(ms, a, d, m, q);
    assert(ancestor(ms, c, p) == Some(d));
    assert(ancestor(ms, d, q) == Some(c));
    lemma_ancestor_chain(ms, c, d, p, q);
    assert(p + q == 0);
}

/// An ancestor's ancestor is an ancestor.
pub proof fn lemma_ancestor_chain(ms: Manifests, id: ManifestId, x: ManifestId, n: nat, k: nat)
    requires
        ancestor(ms, id, n) == Some(x),
    ensures
        ancestor(ms, id, n + k) == ancestor(ms, x, k),
    decreases k,
{
    if k > 0 {
        lemma_ancestor_chain(ms, id, x, n, (k - 1) as nat);
        assert(n + k - 1 == n + (k - 1) as nat);
    }
}

/// Once history has ended it does not start again.
pub proof fn lemma_history_ends(ms: Manifests, id: ManifestId, n: nat, k: nat)
    requires
        ancestor(ms, id, n) is None,
        n <= k,
    ensures
        ancestor(ms, id, k) is None,
    decreases k,
{
    if n < k {
        lemma_history_ends(ms, id, n, (k - 1) as nat);
    }
}

// ---------------------------------------------------------------------------------------------
// Reachability.
// ---------------------------------------------------------------------------------------------

/// `y` is the parent of `x`, or the manifest that `x` overlays.
pub open spec fn points_at(ms: Manifests, x: ManifestId, y: ManifestId) -> bool {
    ms.contains_key(x) && (ms[x].parent == Some(y) || ms[x].overlay_base() == Some(y))
}

/// Each manifest on the way points at the next.
pub open spec fn is_way(ms: Manifests, way: Seq<ManifestId>) -> bool {
    way.len() > 0 && forall|i: int|
        0 <= i < way.len() - 1 ==> points_at(ms, #[trigger] way[i], way[i + 1])
}

/// There is a way from one of the roots to `id`.
pub open spec fn reachable(ms: Manifests, roots: Seq<ManifestId>, id: ManifestId) -> bool {
    exists|way: Seq<ManifestId>| #[trigger]
        is_way(ms, way) && roots.contains(way[0]) && way.last() == id
}

/// The roots are reachable.
pub proof fn lemma_root_reachable(ms: Manifests, roots: Seq<ManifestId>, id: ManifestId)
    requires
        roots.contains(id),
    ensures
        reachable(ms, roots, id),
{
    let way = seq![id];
    assert(is_way(ms, way));
}

/// What a reachable manifest points at is reachable.
pub proof fn lemma_reachable_step(
    ms: Manifests,
    roots: Seq<ManifestId>,
    x: ManifestId,
    y: ManifestId,
)
    requires
        reachable(ms, roots, x),
        points_at(ms, x, y),
    ensures
        reachable(ms, roots, y),
{
    let way = choose|way: Seq<ManifestId>| #[trigger]
        is_way(ms, way) && roots.contains(way[0]) && way.last() == x;
    let next = way.push(y);
    assert forall|i: int| 0 <= i < next.len() - 1 implies points_at(
        ms,
        #[trigger] next[i],
        next[i + 1],
    ) by {
        if i < way.len() - 1 {
            assert(points_at(ms, way[i], way[i + 1]));
        }
    }
    assert(is_way(ms, next));
}

/// A set that has the roots, and with each manifest what it points at, has all that is reachable.
pub proof fn lemma_closed_set(
    ms: Manifests,
    roots: Seq<ManifestId>,
    set: Set<ManifestId>,
    id: ManifestId,
)
    requires
        forall|r: ManifestId| roots.contains(r) ==> #[trigger] set.contains(r),
        forall|x: ManifestId, y: ManifestId|
            set.contains(x) && #[trigger] points_at(ms, x, y) ==> set.contains(y),
        reachable(ms, roots, id),
    ensures
        set.contains(id),
{
    let way = choose|way: Seq<ManifestId>| #[trigger]
        is_way(ms, way) && roots.contains(way[0]) && way.last() == id;
    lemma_way_stays(ms, set, way, way.len() - 1);
}

proof fn lemma_way_stays(ms: Manifests, set: Set<ManifestId>, way: Seq<ManifestId>, i: int)
    requires
        is_way(ms, way),
        set.contains(way[0]),
        forall|x: ManifestId, y: ManifestId|
            set.contains(x) && #[trigger] points_at(ms, x, y) ==> set.contains(y),
        0 <= i < way.len(),
    ensures
        set.contains(way[i]),
    decreases i,
{
    if i > 0 {
        lemma_way_stays(ms, set, way, i - 1);
        assert(points_at(ms, way[i - 1], way[i - 1 + 1]));
    }
}

/// A page is live if some reachable manifest has it.
pub open spec fn live(ms: Manifests, roots: Seq<ManifestId>, page: PageId) -> bool {
    exists|id: ManifestId| #[trigger]
        reachable(ms, roots, id) && refers_to(ms, id, page)
}

/// The manifest's database has this page.
pub open spec fn refers_to(ms: Manifests, id: ManifestId, page: PageId) -> bool {
    resolved(ms, id) is Some && resolved(ms, id).unwrap().contains_value(page)
}

/// Dropping manifests that are not reachable leaves the reachable ones as they were.
pub proof fn lemma_restriction_keeps_reachable(
    ms: Manifests,
    ns: Manifests,
    roots: Seq<ManifestId>,
    id: ManifestId,
    hops: nat,
)
    requires
        reachable(ms, roots, id),
        ms.contains_key(id),
        resolve_within(ms, ms[id], hops) is Some,
        forall|x: ManifestId| #[trigger]
            reachable(ms, roots, x) && ms.contains_key(x) ==> ns.contains_key(x) && ns[x] == ms[x],
    ensures
        ns.contains_key(id),
        ns[id] == ms[id],
        resolve_within(ns, ns[id], hops) == resolve_within(ms, ms[id], hops),
    decreases hops,
{
    match ms[id].body {
        BodyView::Flat(_) => {},
        BodyView::Overlay { base, .. } => {
            assert(points_at(ms, id, base));
            lemma_reachable_step(ms, roots, id, base);
            lemma_restriction_keeps_reachable(ms, ns, roots, base, (hops - 1) as nat);
        },
    }
}

} // verus!
