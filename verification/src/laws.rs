//! What holds of the page store as a whole, over all its operations.

use crate::cas::{Backing, Cas, ManifestStore};
use crate::chain::{
    a_snapshot_never_changes, all_sound, changes_something, committing_applies_the_changes, derived, extends,
    is_way, lemma_reachable_step, lemma_restriction_keeps_reachable, lemma_root_reachable,
    lemma_sound_extends, lemma_sound_resolves, live, looked_up, looking_up_agrees_with_resolving, points_at, reachable,
    refers_to, resolved, sound, Manifests, Writes, MAX_HOPS,
};
use crate::clock::Clock;
use crate::error::PagerError;
use crate::gc::GcStats;
use crate::manifest::{
    apply_changes, empty_view, BodyView, ManifestId, ManifestView, MAX_OVERLAY_DEPTH,
};
use crate::page::PageId;
use crate::pager::{bytes_at, collected, committed_to, trimmed, Pager};
use vstd::prelude::*;

verus! {

/// No manifest with the same hash but other content is stored.
pub open spec fn no_clash(ms: Manifests, m: ManifestView) -> bool {
    ms.contains_key(m.id()) ==> ms[m.id()] == m
}

/// Whatever a commit does, on whichever head, every manifest that could be resolved still can, to
/// the same pages, with the same bytes: a fork's writes never show in its base, and a snapshot is
/// what it was.
pub proof fn a_commit_disturbs_no_other_manifest<B: Backing>(
    a: B,
    b: B,
    base: ManifestId,
    writes: Writes,
    now_ms: u64,
    r: Result<ManifestId, PagerError>,
    other: ManifestId,
    k: u64,
)
    requires
        committed_to(a, b, base, writes, now_ms, r),
        no_clash(a.manifests(), derived(a.manifests(), base, writes, now_ms)),
        resolved(a.manifests(), other) is Some,
    ensures
        extends(a.manifests(), b.manifests()),
        resolved(b.manifests(), other) == resolved(a.manifests(), other),
        bytes_at(b, other, k) == bytes_at(a, other, k),
{
    assert(extends(a.manifests(), b.manifests()));
    a_snapshot_never_changes(a.manifests(), b.manifests(), other);
    looking_up_agrees_with_resolving(a.manifests(), other, k);
    looking_up_agrees_with_resolving(b.manifests(), other, k);
}

/// A commit gives a manifest with the base's pages and the transaction's changes, and keeps the
/// rules that the base kept.
pub proof fn a_commit_applies_its_transaction<B: Backing>(
    a: B,
    b: B,
    base: ManifestId,
    writes: Writes,
    now_ms: u64,
    id: ManifestId,
)
    requires
        committed_to(a, b, base, writes, now_ms, Ok(id)),
        !a.held_manifests().contains(id) || a.manifests().contains_key(id),
        no_clash(a.manifests(), derived(a.manifests(), base, writes, now_ms)),
        a.manifests().contains_key(base),
        sound(a.manifests(), a.manifests()[base]),
        writes.dom().finite(),
        resolved(a.manifests(), base).unwrap().dom().len() + writes.dom().len() <= i64::MAX,
    ensures
        b.manifests().contains_key(id),
        sound(b.manifests(), b.manifests()[id]),
        resolved(b.manifests(), id) == Some(
            apply_changes(resolved(a.manifests(), base).unwrap(), writes),
        ),
{
    let m = derived(a.manifests(), base, writes, now_ms);
    lemma_sound_resolves(a.manifests(), base);
    if changes_something(a.manifests(), base, writes) {
        committing_applies_the_changes(a.manifests(), base, writes, now_ms);
        assert(b.manifests() =~= a.manifests().insert(m.id(), m));
    } else {
        crate::chain::a_transaction_without_effect_leaves_the_pages(a.manifests(), base, writes);
    }
}

/// A page that was written and committed reads back, and a removed one does not.
pub proof fn what_was_committed_reads_back<B: Backing>(
    a: B,
    b: B,
    base: ManifestId,
    writes: Writes,
    now_ms: u64,
    id: ManifestId,
    k: u64,
)
    requires
        committed_to(a, b, base, writes, now_ms, Ok(id)),
        !a.held_manifests().contains(id) || a.manifests().contains_key(id),
        no_clash(a.manifests(), derived(a.manifests(), base, writes, now_ms)),
        a.manifests().contains_key(base),
        sound(a.manifests(), a.manifests()[base]),
        writes.dom().finite(),
        resolved(a.manifests(), base).unwrap().dom().len() + writes.dom().len() <= i64::MAX,
        writes.contains_key(k),
    ensures
        looked_up(b.manifests(), id, k) == Some(writes[k]),
        writes[k] matches Some(p) ==> bytes_at(b, id, k) == (if a.pages().contains_key(p) {
            Some(a.pages()[p])
        } else {
            None
        }),
        writes[k] is None ==> bytes_at(b, id, k) is None,
{
    a_commit_applies_its_transaction(a, b, base, writes, now_ms, id);
    looking_up_agrees_with_resolving(b.manifests(), id, k);
}

/// Committing the same transaction on the same base gives the same manifest, whatever else the
/// two stores hold.
pub proof fn committing_is_deterministic(
    ms: Manifests,
    ns: Manifests,
    base: ManifestId,
    writes: Writes,
    now_ms: u64,
)
    requires
        extends(ms, ns) || extends(ns, ms),
        resolved(ms, base) is Some,
        resolved(ns, base) is Some,
    ensures
        derived(ms, base, writes, now_ms) == derived(ns, base, writes, now_ms),
        changes_something(ms, base, writes) == changes_something(ns, base, writes),
{
    if extends(ms, ns) {
        crate::chain::lemma_derived_extends(ms, ns, base, writes, now_ms);
    } else {
        crate::chain::lemma_derived_extends(ns, ms, base, writes, now_ms);
    }
}

/// A collection leaves every manifest that the roots lead to as it was, with all its bytes.
pub proof fn a_collection_keeps_every_live_database<S: Cas + ManifestStore, C: Clock>(
    a: Pager<S, C>,
    b: Pager<S, C>,
    roots: Seq<ManifestId>,
    id: ManifestId,
    k: u64,
)
    requires
        trimmed(
            a.backing().held_pages(),
            a.backing().pages(),
            b.backing().held_pages(),
            b.backing().pages(),
            a.kept_pages(roots),
        ),
        trimmed(
            a.backing().held_manifests(),
            a.ms(),
            b.backing().held_manifests(),
            b.ms(),
            a.kept_manifests(roots),
        ),
        reachable(a.ms(), roots, id),
        resolved(a.ms(), id) is Some,
    ensures
        resolved(b.ms(), id) == resolved(a.ms(), id),
        bytes_at(b.backing(), id, k) == bytes_at(a.backing(), id, k),
{
    assert forall|x: ManifestId| #[trigger]
        reachable(a.ms(), roots, x) && a.ms().contains_key(x) implies b.ms().contains_key(x)
        && b.ms()[x] == a.ms()[x] by {
        assert(a.kept_manifests(roots).contains(x));
    }
    lemma_restriction_keeps_reachable(a.ms(), b.ms(), roots, id, MAX_HOPS as nat);
    looking_up_agrees_with_resolving(a.ms(), id, k);
    looking_up_agrees_with_resolving(b.ms(), id, k);
    let pages = resolved(a.ms(), id).unwrap();
    if pages.contains_key(k) {
        let p = pages[k];
        assert(pages.contains_value(p));
        assert(refers_to(a.ms(), id, p));
        assert(live(a.ms(), roots, p));
        assert(a.kept_pages(roots).contains(p));
    }
}

/// A page that a transaction has staged survives any collection until the transaction ends.
pub proof fn a_collection_keeps_every_pinned_page<S: Cas + ManifestStore, C: Clock>(
    a: Pager<S, C>,
    b: Pager<S, C>,
    roots: Seq<ManifestId>,
    p: PageId,
)
    requires
        trimmed(
            a.backing().held_pages(),
            a.backing().pages(),
            b.backing().held_pages(),
            b.backing().pages(),
            a.kept_pages(roots),
        ),
        a.pin_counts().contains_key(p),
        a.backing().pages().contains_key(p),
    ensures
        b.backing().pages().contains_key(p),
        b.backing().pages()[p] == a.backing().pages()[p],
{
    assert(a.kept_pages(roots).contains(p));
}

proof fn lemma_way_is_reachable(ms: Manifests, roots: Seq<ManifestId>, way: Seq<ManifestId>, i: int)
    requires
        is_way(ms, way),
        roots.contains(way[0]),
        0 <= i < way.len(),
    ensures
        reachable(ms, roots, way[i]),
    decreases i,
{
    if i == 0 {
        lemma_root_reachable(ms, roots, way[0]);
    } else {
        lemma_way_is_reachable(ms, roots, way, i - 1);
        assert(points_at(ms, way[i - 1], way[i - 1 + 1]));
        lemma_reachable_step(ms, roots, way[i - 1], way[i]);
    }
}

/// The roots lead to the same manifests after a collection as before.
pub proof fn a_collection_does_not_change_what_is_reachable(
    ms: Manifests,
    ns: Manifests,
    roots: Seq<ManifestId>,
    id: ManifestId,
)
    requires
        forall|x: ManifestId| #[trigger]
            reachable(ms, roots, x) && ms.contains_key(x) ==> ns.contains_key(x) && ns[x] == ms[x],
        forall|x: ManifestId| #[trigger] ns.contains_key(x) ==> ms.contains_key(x) && ms[x] == ns[x],
    ensures
        reachable(ms, roots, id) <==> reachable(ns, roots, id),
{
    if reachable(ms, roots, id) {
        let way = choose|way: Seq<ManifestId>| #[trigger]
            is_way(ms, way) && roots.contains(way[0]) && way.last() == id;
        assert forall|i: int| 0 <= i < way.len() - 1 implies points_at(
            ns,
            #[trigger] way[i],
            way[i + 1],
        ) by {
            lemma_way_is_reachable(ms, roots, way, i);
            assert(points_at(ms, way[i], way[i + 1]));
        }
        assert(is_way(ns, way));
    }
    if reachable(ns, roots, id) {
        let way = choose|way: Seq<ManifestId>| #[trigger]
            is_way(ns, way) && roots.contains(way[0]) && way.last() == id;
        assert forall|i: int| 0 <= i < way.len() - 1 implies points_at(
            ms,
            #[trigger] way[i],
            way[i + 1],
        ) by {
            assert(points_at(ns, way[i], way[i + 1]));
        }
        assert(is_way(ms, way));
    }
}

/// After a collection that went through on a steady store, a second one with the same roots would
/// keep everything that is left.
pub proof fn a_second_collection_finds_nothing<S: Cas + ManifestStore, C: Clock>(
    a: Pager<S, C>,
    b: Pager<S, C>,
    roots: Seq<ManifestId>,
)
    requires
        a.all_resolve(roots),
        trimmed(
            a.backing().held_manifests(),
            a.ms(),
            b.backing().held_manifests(),
            b.ms(),
            a.kept_manifests(roots),
        ),
        b.pin_counts() == a.pin_counts(),
        b.backing().held_pages().subset_of(a.kept_pages(roots)),
        b.backing().held_manifests().subset_of(a.kept_manifests(roots)),
    ensures
        b.all_resolve(roots),
        b.kept_pages(roots) == a.kept_pages(roots),
        b.kept_manifests(roots) == a.kept_manifests(roots),
        b.backing().held_pages().difference(b.kept_pages(roots)) == Set::<PageId>::empty(),
        b.backing().held_manifests().difference(b.kept_manifests(roots)) == Set::<
            ManifestId,
        >::empty(),
{
    let (ms, ns) = (a.ms(), b.ms());
    assert forall|x: ManifestId| #[trigger]
        reachable(ms, roots, x) && ms.contains_key(x) implies ns.contains_key(x) && ns[x]
        == ms[x] by {
        assert(a.kept_manifests(roots).contains(x));
    }
    assert forall|x: ManifestId|
        reachable(ns, roots, x) <==> #[trigger] reachable(ms, roots, x) by {
        a_collection_does_not_change_what_is_reachable(ms, ns, roots, x);
    }
    assert(b.kept_manifests(roots) =~= a.kept_manifests(roots)) by {
        assert forall|x: ManifestId| b.kept_manifests(roots).contains(x) <==> a.kept_manifests(
            roots,
        ).contains(x) by {
            assert(reachable(ns, roots, x) <==> reachable(ms, roots, x));
        }
    }
    assert forall|x: ManifestId| #[trigger] reachable(ms, roots, x) implies resolved(ns, x)
        == resolved(ms, x) by {
        lemma_restriction_keeps_reachable(ms, ns, roots, x, MAX_HOPS as nat);
    }
    assert forall|p: PageId| live(ns, roots, p) <==> live(ms, roots, p) by {
        if live(ns, roots, p) {
            let x = choose|x: ManifestId| #[trigger]
                reachable(ns, roots, x) && refers_to(ns, x, p);
            a_collection_does_not_change_what_is_reachable(ms, ns, roots, x);
            assert(reachable(ms, roots, x) && refers_to(ms, x, p));
        }
        if live(ms, roots, p) {
            let x = choose|x: ManifestId| #[trigger]
                reachable(ms, roots, x) && refers_to(ms, x, p);
            assert(reachable(ns, roots, x) && refers_to(ns, x, p));
        }
    }
    assert(b.kept_pages(roots) =~= a.kept_pages(roots));
    assert(b.backing().held_pages().difference(b.kept_pages(roots)) =~= Set::<PageId>::empty());
    assert(b.backing().held_manifests().difference(b.kept_manifests(roots)) =~= Set::<
        ManifestId,
    >::empty());
}

/// A collection right after one that went through goes through too and finds nothing. In a tidy store
/// its figures say so: they are clean, and it keeps as much as the first one kept.
pub proof fn collecting_twice_is_clean<S: Cas + ManifestStore, C: Clock>(
    a: Pager<S, C>,
    b: Pager<S, C>,
    c: Pager<S, C>,
    roots: Seq<ManifestId>,
    first: GcStats,
    r: Result<GcStats, PagerError>,
)
    requires
        a.backing().steady(),
        collected(a, b, roots, Ok(first)),
        collected(b, c, roots, r),
    ensures
        r is Ok,
        a.backing().tidy() ==> (r matches Ok(second) && second.clean() && second.pages_retained
            == first.pages_retained && second.manifests_retained == first.manifests_retained),
        c.backing().held_pages() == b.backing().held_pages(),
        c.backing().held_manifests() == b.backing().held_manifests(),
{
    a_second_collection_finds_nothing(a, b, roots);
    let (hp, hm) = (b.backing().held_pages(), b.backing().held_manifests());
    assert(hp =~= a.backing().held_pages().intersect(a.kept_pages(roots)));
    assert(hm =~= a.backing().held_manifests().intersect(a.kept_manifests(roots)));
    assert(hp.intersect(b.kept_pages(roots)) =~= hp);
    assert(hm.intersect(b.kept_manifests(roots)) =~= hm);
    assert(c.backing().held_pages() =~= hp);
    assert(c.backing().held_manifests() =~= hm);
}

/// The manifest that is read back after a commit: its parent is the base. Below the depth limit it
/// is an overlay on the base that holds exactly the transaction's changes; at the limit it is flat
/// and holds the base's pages with the changes applied. The base is what it was.
pub proof fn what_a_commit_stores<B: Backing>(
    a: B,
    b: B,
    base: ManifestId,
    writes: Writes,
    now_ms: u64,
    id: ManifestId,
)
    requires
        committed_to(a, b, base, writes, now_ms, Ok(id)),
        changes_something(a.manifests(), base, writes),
        !a.held_manifests().contains(id) || a.manifests().contains_key(id),
        no_clash(a.manifests(), derived(a.manifests(), base, writes, now_ms)),
    ensures
        a.manifests().contains_key(base),
        b.manifests().contains_key(id),
        ({
            let (m, was) = (b.manifests()[id], a.manifests()[base]);
            &&& m.parent == Some(base)
            &&& m.created_at_ms == now_ms
            &&& was.depth < MAX_OVERLAY_DEPTH ==> m.overlay_base() == Some(base) && m.body == (
            BodyView::Overlay { base, changes: writes }) && m.depth == was.depth + 1
            &&& was.depth >= MAX_OVERLAY_DEPTH ==> m.overlay_base() is None && resolved(
                a.manifests(),
                base,
            ) is Some && m.body == BodyView::Flat(
                apply_changes(resolved(a.manifests(), base).unwrap(), writes),
            ) && m.depth == 0
            &&& b.manifests().contains_key(base) && b.manifests()[base] == was
            &&& resolved(a.manifests(), base) is Some ==> resolved(b.manifests(), base) == resolved(
                a.manifests(),
                base,
            )
        }),
{
    let m = derived(a.manifests(), base, writes, now_ms);
    assert(b.manifests() =~= a.manifests().insert(m.id(), m));
    if resolved(a.manifests(), base) is Some {
        a_snapshot_never_changes(a.manifests(), b.manifests(), base);
    }
}

/// Storing the empty root keeps the rules: in a store where every manifest was built by committing,
/// as in an empty one, it is one of them.
pub proof fn a_new_root_keeps_the_store_sound(ms: Manifests, page_size: usize)
    requires
        all_sound(ms),
        no_clash(ms, empty_view(page_size)),
    ensures
        all_sound(ms.insert(empty_view(page_size).id(), empty_view(page_size))),
{
    let root = empty_view(page_size);
    let ns = ms.insert(root.id(), root);
    assert(Map::<u64, PageId>::empty().dom() =~= Set::empty());
    assert forall|id: ManifestId| #[trigger] ns.contains_key(id) implies sound(ns, ns[id]) by {
        if id != root.id() {
            lemma_sound_extends(ms, ns, ms[id]);
        }
    }
}

/// Committing keeps the rules, on whichever manifest and whether or not it goes through.
pub proof fn a_commit_keeps_the_store_sound<B: Backing>(
    a: B,
    b: B,
    base: ManifestId,
    writes: Writes,
    now_ms: u64,
    r: Result<ManifestId, PagerError>,
)
    requires
        committed_to(a, b, base, writes, now_ms, r),
        all_sound(a.manifests()),
        no_clash(a.manifests(), derived(a.manifests(), base, writes, now_ms)),
        a.manifests().contains_key(base),
        writes.dom().finite(),
        resolved(a.manifests(), base).unwrap().dom().len() + writes.dom().len() <= i64::MAX,
    ensures
        all_sound(b.manifests()),
{
    let ms = a.manifests();
    let m = derived(ms, base, writes, now_ms);
    let ns = ms.insert(m.id(), m);
    lemma_sound_resolves(ms, base);
    committing_applies_the_changes(ms, base, writes, now_ms);
    assert(b.manifests() =~= ms || b.manifests() =~= ns);
    assert forall|id: ManifestId| #[trigger] ns.contains_key(id) implies sound(ns, ns[id]) by {
        if id != m.id() {
            lemma_sound_extends(ms, ns, ms[id]);
        }
    }
}

/// A collection, even one that stopped half way, keeps the rules for every manifest that the roots
/// lead to.
pub proof fn a_collection_keeps_what_it_keeps_sound<S: Cas + ManifestStore, C: Clock>(
    a: Pager<S, C>,
    b: Pager<S, C>,
    roots: Seq<ManifestId>,
    r: Result<GcStats, PagerError>,
    id: ManifestId,
)
    requires
        collected(a, b, roots, r),
        reachable(a.ms(), roots, id),
        a.ms().contains_key(id),
        sound(a.ms(), a.ms()[id]),
    ensures
        b.ms().contains_key(id),
        b.ms()[id] == a.ms()[id],
        sound(b.ms(), b.ms()[id]),
{
    let (ms, ns) = (a.ms(), b.ms());
    assert forall|x: ManifestId| #[trigger]
        reachable(ms, roots, x) && ms.contains_key(x) implies ns.contains_key(x) && ns[x]
        == ms[x] by {
        assert(a.kept_manifests(roots).contains(x));
    }
    lemma_restriction_keeps_reachable(ms, ns, roots, id, ms[id].depth as nat);
    if let Some(base) = ms[id].overlay_base() {
        assert(points_at(ms, id, base));
        lemma_reachable_step(ms, roots, id, base);
        assert(reachable(ms, roots, base));
    }
}

/// The depth of a manifest that was built by committing is within the limit, zero exactly where
/// the manifest is flat, and one more than its base's otherwise.
pub proof fn the_depth_counts_the_overlays(ms: Manifests, m: ManifestView)
    requires
        sound(ms, m),
    ensures
        m.depth <= MAX_OVERLAY_DEPTH,
        m.depth == 0 <==> m.body is Flat,
        m.overlay_base() matches Some(b) ==> ms.contains_key(b) && m.depth == ms[b].depth + 1,
{
}

/// A manifest that was built by committing counts the pages of its database.
pub proof fn the_count_is_the_number_of_pages(ms: Manifests, id: ManifestId)
    requires
        ms.contains_key(id),
        sound(ms, ms[id]),
    ensures
        resolved(ms, id) is Some,
        ms[id].page_count == resolved(ms, id).unwrap().dom().len(),
        ms[id].page_count == 0 <==> resolved(ms, id).unwrap() == Map::<u64, PageId>::empty(),
{
    lemma_sound_resolves(ms, id);
    let pages = resolved(ms, id).unwrap();
    if pages.dom().len() == 0 {
        assert(pages.dom() =~= Set::empty());
        assert(pages =~= Map::empty());
    }
}

/// Committing keeps the count right, and rewriting pages that are there or removing pages that are
/// not does not change it.
pub proof fn a_commit_keeps_the_count<B: Backing>(
    a: B,
    b: B,
    base: ManifestId,
    writes: Writes,
    now_ms: u64,
    id: ManifestId,
)
    requires
        committed_to(a, b, base, writes, now_ms, Ok(id)),
        !a.held_manifests().contains(id) || a.manifests().contains_key(id),
        no_clash(a.manifests(), derived(a.manifests(), base, writes, now_ms)),
        a.manifests().contains_key(base),
        sound(a.manifests(), a.manifests()[base]),
        writes.dom().finite(),
        resolved(a.manifests(), base).unwrap().dom().len() + writes.dom().len() <= i64::MAX,
    ensures
        ({
            let pages = resolved(a.manifests(), base).unwrap();
            &&& b.manifests().contains_key(id)
            &&& b.manifests()[id].page_count == apply_changes(pages, writes).dom().len()
            &&& (forall|k: u64| #[trigger]
                writes.contains_key(k) ==> (writes[k] is Some <==> pages.contains_key(k)))
                ==> b.manifests()[id].page_count == a.manifests()[base].page_count
        }),
{
    let pages = resolved(a.manifests(), base).unwrap();
    a_commit_applies_its_transaction(a, b, base, writes, now_ms, id);
    the_count_is_the_number_of_pages(a.manifests(), base);
    the_count_is_the_number_of_pages(b.manifests(), id);
    if forall|k: u64| #[trigger]
        writes.contains_key(k) ==> (writes[k] is Some <==> pages.contains_key(k)) {
        assert(apply_changes(pages, writes).dom() =~= pages.dom());
    }
}

} // verus!
