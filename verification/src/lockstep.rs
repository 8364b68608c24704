//! The store and the naive model, run side by side.
//!
//! Whatever is written, removed, forked, rewound or collected, the store has what the model has,
//! as long as no two different contents with the same hash have met in it.

use crate::cas::{page_put, same_but_pages, unread, Backing, MemStore};
use crate::chain::{
    a_snapshot_never_changes, all_sound, ancestor, changes_something, derived, extends, has_history,
    is_ancestor, is_merge_base, related, the_merge_base_is_symmetric, lemma_closed_set,
    lemma_reachable_step, lemma_resolved_is_derivable, lemma_restriction_keeps_reachable,
    lemma_root_reachable, lemma_sound_extends, lemma_sound_resolves, live,
    looking_up_agrees_with_resolving, points_at, reachable, refers_to, resolved, sound, Manifests,
    Writes,
};
use crate::clock::{may_say, Clock};
use crate::diff::at;
use crate::error::{Fault, PagerError};
use crate::laws::{a_commit_applies_its_transaction, no_clash};
use crate::manifest::{apply_changes, empty_view, ManifestId, ManifestView, MAX_OVERLAY_DEPTH};
use crate::model::{add_keys, contents, ModelSnapshotId, ModelSnapshots, ModelStore};
use crate::ordmap::{compare_bytes, lemma_before_irreflexive, Order};
use crate::page::{page_size_ok, LogicalPageNo, PageHasher, PageId, MIN_PAGE_SIZE};
use crate::pager::{
    bytes_at, committed_to, forgotten, releasing_undoes_pinning, trimmed, unpinned, unresolvable, Fork, PageStore,
    Pager, StoreConfig,
};
use crate::pagemap::{entries, lemma_map_of_increasing, lemma_map_of_keys, map_of};
use crate::text::hex;
use crate::tier::bytes_of;
use std::collections::BTreeMap;
use vstd::prelude::*;

verus! {

/// How many logical pages the sessions use: few, so that operations meet on the same ones.
pub const MAX_PAGE_NO: LogicalPageNo = 8;

/// One step of a session.
#[derive(Clone, Copy, Debug)]
pub enum Op {
    /// Writes a page of a store.
    Write { store: u8, page_no: u8, content: u8 },
    /// Removes one.
    Remove { store: u8, page_no: u8 },
    /// Commits to one store many times in a row, so that its chain of overlays collapses.
    DeepWrite { store: u8, page_no: u8, rounds: u8 },
    /// Takes a snapshot of a store.
    Snapshot { store: u8 },
    /// Forks a new store off a snapshot.
    Fork { snapshot: u8 },
    /// Moves a store onto a snapshot.
    Rewind { store: u8, snapshot: u8 },
    /// Asks for the merge base of two snapshots.
    MergeBase { a: u8, b: u8 },
    /// Collects, with every store and every snapshot as a root.
    Gc,
}

/// A state of a database.
pub type State = Map<u64, Seq<u8>>;

/// Two different things that have the same hash.
pub enum Clash {
    Pages(Seq<u8>, Seq<u8>),
    Manifests(ManifestView, ManifestView),
}

/// They are different, and their hashes are the same.
pub open spec fn is_clash(h: PageHasher, c: Clash) -> bool {
    match c {
        Clash::Pages(a, b) => a != b && h.id_of(a) == h.id_of(b),
        Clash::Manifests(a, b) => a != b && a.id() == b.id(),
    }
}

/// All of them are.
pub open spec fn all_clash(h: PageHasher, met: Seq<Clash>) -> bool {
    forall|i: int| 0 <= i < met.len() ==> is_clash(h, #[trigger] met[i])
}

/// What a transaction writes that changes one page, to these bytes or, where none are given, by
/// removing it.
pub open spec fn writes_of(h: PageHasher, k: u64, given: Option<Seq<u8>>) -> Writes {
    Map::<u64, Option<PageId>>::empty().insert(
        k,
        match given {
            Some(b) => Some(h.id_of(b)),
            None => None,
        },
    )
}

/// The bytes are stored as a page, where there are some.
pub open spec fn page_staged<B: Backing>(a: B, b: B, given: Option<Seq<u8>>) -> bool {
    match given {
        Some(bytes) => same_but_pages(a, b) && page_put(a, b, a.hasher().id_of(bytes), bytes),
        None => b == a,
    }
}

/// One page was changed and committed on top of `base`, at a time that the clock may say.
pub open spec fn one_commit<B: Backing, C: Clock>(
    clock: C,
    a: B,
    b: B,
    base: ManifestId,
    k: u64,
    given: Option<Seq<u8>>,
    r: Result<ManifestId, PagerError>,
) -> bool {
    exists|mid: B, now_ms: u64|
        may_say(clock, now_ms) && #[trigger] page_staged(a, mid, given) && #[trigger] committed_to(
            mid,
            b,
            base,
            writes_of(a.hasher(), k, given),
            now_ms,
            r,
        )
}

/// Changing one page on top of `base` meets something with the same hash: other bytes are stored
/// under the id of those that are written, or another manifest under the id of the one that the
/// commit gives.
pub open spec fn meets<B: Backing, C: Clock>(
    clock: C,
    a: B,
    base: ManifestId,
    k: u64,
    given: Option<Seq<u8>>,
    c: Clash,
) -> bool {
    match c {
        Clash::Pages(x, y) => given == Some(y) && a.pages().contains_key(a.hasher().id_of(y)) && x
            == a.pages()[a.hasher().id_of(y)],
        Clash::Manifests(x, y) => a.manifests().contains_key(y.id()) && x == a.manifests()[y.id()]
            && exists|now_ms: u64| #[trigger]
            may_say(clock, now_ms) && y == derived(
                a.manifests(),
                base,
                writes_of(a.hasher(), k, given),
                now_ms,
            ),
    }
}

/// What was stored, and where the store was, before and after each commit of a deep write: the first
/// commit writes the content of the byte 0, the next that of 1, and so on.
pub open spec fn is_run<B: Backing, C: Clock>(clock: C, run: Seq<(B, ManifestId)>, k: u64) -> bool {
    &&& run.len() > 0
    &&& forall|j: int|
        0 <= j < run.len() - 1 ==> one_commit(
            clock,
            (#[trigger] run[j]).0,
            run[j + 1].0,
            run[j].1,
            k,
            Some(content(j as u8)),
            Ok(run[j + 1].1),
        )
}

/// The content that a byte stands for.
pub open spec fn content(byte: u8) -> Seq<u8> {
    Seq::new((1 + byte % 64) as nat, |i: int| byte)
}

/// How many commits a deep write makes: enough for the chain to collapse, and not too many.
pub open spec fn rounds_of(rounds: u8) -> int {
    1 + rounds as int % (MAX_OVERLAY_DEPTH * 2 + 2)
}

/// The states of the stores, and of the snapshots, after a step.
pub open spec fn stepped(states: Seq<State>, frozen: Seq<State>, op: Op) -> (
    Seq<State>,
    Seq<State>,
) {
    match op {
        Op::Write { store, page_no, content: byte } => {
            let i = store as int % states.len() as int;
            (states.update(i, states[i].insert((page_no % 8) as u64, content(byte))), frozen)
        },
        Op::Remove { store, page_no } => {
            let i = store as int % states.len() as int;
            (states.update(i, states[i].remove((page_no % 8) as u64)), frozen)
        },
        Op::DeepWrite { store, page_no, rounds } => {
            let i = store as int % states.len() as int;
            let last = content((rounds_of(rounds) - 1) as u8);
            (states.update(i, states[i].insert((page_no % 8) as u64, last)), frozen)
        },
        Op::Snapshot { store } => (states, frozen.push(states[store as int % states.len() as int])),
        Op::Fork { snapshot } => if frozen.len() == 0 {
            (states, frozen)
        } else {
            (states.push(frozen[snapshot as int % frozen.len() as int]), frozen)
        },
        Op::Rewind { store, snapshot } => if frozen.len() == 0 {
            (states, frozen)
        } else {
            let i = store as int % states.len() as int;
            (states.update(i, frozen[snapshot as int % frozen.len() as int]), frozen)
        },
        Op::MergeBase { .. } => (states, frozen),
        Op::Gc => (states, frozen),
    }
}

/// A manifest's database is this state: it has its pages and no others, with its bytes.
pub open spec fn holds<B: Backing>(b: B, id: ManifestId, m: State) -> bool {
    &&& resolved(b.manifests(), id) is Some
    &&& resolved(b.manifests(), id).unwrap().dom() == m.dom()
    &&& forall|k: u64| #[trigger] m.contains_key(k) ==> bytes_at(b, id, k) == Some(m[k])
}

/// Everything that is stored reads back, and every manifest was built by committing and has its
/// history.
pub open spec fn orderly<B: Backing>(b: B) -> bool {
    let ms = b.manifests();
    &&& b.held_pages() == b.pages().dom()
    &&& b.held_manifests() == ms.dom()
    &&& all_sound(ms)
    &&& forall|id: ManifestId, p: ManifestId| #[trigger]
        points_at(ms, id, p) ==> ms.contains_key(p)
    &&& has_generations(ms)
}

/// Every manifest is of a later generation than its parent.
pub open spec fn later_than_parents(ms: Manifests, generation: Map<ManifestId, nat>) -> bool {
    forall|id: ManifestId, p: ManifestId|
        ms.contains_key(id) && ms.contains_key(p) && #[trigger] is_parent(ms, p, id)
            ==> generation[p] < generation[id]
}

/// `p` is the parent of `id`.
pub open spec fn is_parent(ms: Manifests, p: ManifestId, id: ManifestId) -> bool {
    ms[id].parent == Some(p)
}

/// The manifests can be told apart by generations, so that none is its own ancestor.
pub open spec fn has_generations(ms: Manifests) -> bool {
    exists|generation: Map<ManifestId, nat>| #[trigger] later_than_parents(ms, generation)
}

/// Each of the manifests has the state at its place.
pub open spec fn all_hold<B: Backing>(b: B, ids: Seq<ManifestId>, states: Seq<State>) -> bool {
    ids.len() == states.len() && forall|i: int|
        0 <= i < ids.len() ==> holds(b, #[trigger] ids[i], states[i])
}

/// Only a few logical pages occur.
pub open spec fn small(m: State) -> bool {
    forall|k: u64| #[trigger] m.contains_key(k) ==> k < 8
}

proof fn lemma_small(m: State)
    requires
        small(m),
    ensures
        m.dom().finite(),
        m.dom().len() <= 8,
{
    let all: Set<u64> = set![0u64, 1u64, 2u64, 3u64, 4u64, 5u64, 6u64, 7u64];
    assert(m.dom().subset_of(all)) by {
        assert forall|k: u64| m.dom().contains(k) implies all.contains(k) by {
            assert(m.contains_key(k));
        }
    }
    vstd::set_lib::lemma_len_subset(m.dom(), all);
}

/// Storing a page under the hash that it has disturbs no database.
proof fn lemma_page_stored<B: Backing>(a: B, b: B, id: PageId, bytes: Seq<u8>)
    requires
        orderly(a),
        page_put(a, b, id, bytes),
        same_but_pages(a, b),
        a.hasher().id_of(bytes) == id,
        a.pages().contains_key(id) ==> a.pages()[id] == bytes,
    ensures
        orderly(b),
        b.pages() == a.pages().insert(id, bytes),
        forall|x: ManifestId, m: State| #[trigger] holds(a, x, m) ==> holds(b, x, m),
{
    assert(b.pages() =~= a.pages().insert(id, bytes)) by {
        if a.held_pages().contains(id) {
            assert(a.pages().dom().contains(id));
        }
    }
    assert(b.held_pages() =~= b.pages().dom());
    assert forall|x: ManifestId, m: State| #[trigger] holds(a, x, m) implies holds(b, x, m) by {
        assert forall|k: u64| #[trigger] m.contains_key(k) implies bytes_at(b, x, k) == Some(
            m[k],
        ) by {
            assert(bytes_at(a, x, k) == Some(m[k]));
        }
    }
}

/// A commit disturbs no other database, and its own has the base's state with the changes.
proof fn lemma_committed<B: Backing>(
    a: B,
    b: B,
    base: ManifestId,
    writes: Writes,
    now_ms: u64,
    id: ManifestId,
    m: State,
)
    requires
        orderly(a),
        committed_to(a, b, base, writes, now_ms, Ok(id)),
        no_clash(a.manifests(), derived(a.manifests(), base, writes, now_ms)),
        holds(a, base, m),
        small(m),
        writes.dom().finite(),
        writes.dom().len() <= 1,
    ensures
        orderly(b),
        b.pages() == a.pages(),
        b.manifests().contains_key(id),
        resolved(b.manifests(), id) == Some(
            apply_changes(resolved(a.manifests(), base).unwrap(), writes),
        ),
        forall|x: ManifestId, n: State| #[trigger] holds(a, x, n) ==> holds(b, x, n),
{
    let (ms, ns) = (a.manifests(), b.manifests());
    let d = derived(ms, base, writes, now_ms);
    assert(ms.contains_key(base));
    lemma_small(m);
    a_commit_applies_its_transaction(a, b, base, writes, now_ms, id);
    assert(extends(ms, ns));
    if changes_something(ms, base, writes) {
        assert(ns =~= ms.insert(d.id(), d)) by {
            if a.held_manifests().contains(d.id()) {
                assert(ms.dom().contains(d.id()));
            }
        }
        assert(b.held_manifests() =~= ns.dom());
        assert forall|x: ManifestId| #[trigger] ns.contains_key(x) implies sound(ns, ns[x]) by {
            if x != d.id() {
                lemma_sound_extends(ms, ns, ms[x]);
            }
        }
        assert forall|x: ManifestId, p: ManifestId| #[trigger]
            points_at(ns, x, p) implies ns.contains_key(p) by {
            if x != d.id() {
                assert(points_at(ms, x, p));
            } else {
                assert(p == base);
            }
        }
        let g = choose|g: Map<ManifestId, nat>| #[trigger] later_than_parents(ms, g);
        if ms.contains_key(d.id()) {
            assert(ns =~= ms);
        } else {
            let later = g.insert(d.id(), g[base] + 1);
            assert forall|x: ManifestId, p: ManifestId|
                ns.contains_key(x) && ns.contains_key(p) && #[trigger] is_parent(
                    ns,
                    p,
                    x,
                ) implies later[p] < later[x] by {
                if x != d.id() {
                    assert(points_at(ms, x, p));
                    assert(is_parent(ms, p, x));
                }
            }
            assert(later_than_parents(ns, later));
        }
    }
    assert forall|x: ManifestId, n: State| #[trigger] holds(a, x, n) implies holds(b, x, n) by {
        a_snapshot_never_changes(ms, ns, x);
        assert forall|k: u64| #[trigger] n.contains_key(k) implies bytes_at(b, x, k) == Some(
            n[k],
        ) by {
            assert(bytes_at(a, x, k) == Some(n[k]));
            looking_up_agrees_with_resolving(ms, x, k);
            looking_up_agrees_with_resolving(ns, x, k);
        }
    }
}

/// After writing one page, the database has the state with that page.
proof fn lemma_written<B: Backing>(
    a: B,
    b: B,
    base: ManifestId,
    id: ManifestId,
    k: u64,
    page: Option<PageId>,
    bytes: Seq<u8>,
    m: State,
)
    requires
        holds(a, base, m),
        b.pages() == a.pages(),
        page matches Some(p) ==> a.pages().contains_key(p) && a.pages()[p] == bytes,
        resolved(b.manifests(), id) == Some(
            apply_changes(
                resolved(a.manifests(), base).unwrap(),
                Map::<u64, Option<PageId>>::empty().insert(k, page),
            ),
        ),
    ensures
        holds(
            b,
            id,
            if page is Some {
                m.insert(k, bytes)
            } else {
                m.remove(k)
            },
        ),
{
    let n = if page is Some {
        m.insert(k, bytes)
    } else {
        m.remove(k)
    };
    let pages = resolved(a.manifests(), base).unwrap();
    let writes = Map::<u64, Option<PageId>>::empty().insert(k, page);
    let after = apply_changes(pages, writes);
    assert(after.dom() =~= n.dom());
    assert forall|j: u64| #[trigger] n.contains_key(j) implies bytes_at(b, id, j) == Some(n[j]) by {
        looking_up_agrees_with_resolving(b.manifests(), id, j);
        if j != k {
            assert(m.contains_key(j));
            assert(bytes_at(a, base, j) == Some(m[j]));
            looking_up_agrees_with_resolving(a.manifests(), base, j);
        }
    }
}

/// In an orderly store what the roots lead to is there, and resolves.
proof fn lemma_all_there<B: Backing>(b: B, roots: Seq<ManifestId>, id: ManifestId)
    requires
        orderly(b),
        forall|i: int| 0 <= i < roots.len() ==> b.manifests().contains_key(#[trigger] roots[i]),
        reachable(b.manifests(), roots, id),
    ensures
        b.manifests().contains_key(id),
        resolved(b.manifests(), id) is Some,
{
    let ms = b.manifests();
    assert forall|x: ManifestId| #[trigger] roots.contains(x) implies ms.dom().contains(x) by {
        let i = choose|i: int| 0 <= i < roots.len() && roots[i] == x;
        assert(ms.contains_key(roots[i]));
    }
    assert forall|x: ManifestId, y: ManifestId|
        ms.dom().contains(x) && #[trigger] points_at(ms, x, y) implies ms.dom().contains(y) by {}
    lemma_closed_set(ms, roots, ms.dom(), id);
    lemma_sound_resolves(ms, id);
}

/// A collection leaves an orderly store orderly, and disturbs no database among its roots.
proof fn lemma_collected<B: Backing>(
    a: B,
    b: B,
    roots: Seq<ManifestId>,
    kept_pages: Set<PageId>,
    kept: Set<ManifestId>,
    x: ManifestId,
    m: State,
)
    requires
        orderly(a),
        forall|i: int| 0 <= i < roots.len() ==> a.manifests().contains_key(#[trigger] roots[i]),
        trimmed(a.held_pages(), a.pages(), b.held_pages(), b.pages(), kept_pages),
        trimmed(a.held_manifests(), a.manifests(), b.held_manifests(), b.manifests(), kept),
        b.held_pages().subset_of(kept_pages),
        b.held_manifests().subset_of(kept),
        b.pages().dom().subset_of(b.held_pages()),
        b.manifests().dom().subset_of(b.held_manifests()),
        forall|id: ManifestId| #[trigger]
            kept.contains(id) <==> reachable(a.manifests(), roots, id),
        forall|p: PageId| #[trigger] live(a.manifests(), roots, p) ==> kept_pages.contains(p),
    ensures
        orderly(b),
        roots.contains(x) && holds(a, x, m) ==> holds(b, x, m),
{
    let (ms, ns) = (a.manifests(), b.manifests());
    assert(b.held_pages() =~= b.pages().dom()) by {
        assert forall|p: PageId| b.held_pages().contains(p) implies b.pages().dom().contains(p) by {
            assert(a.pages().dom().contains(p));
            assert(kept_pages.contains(p));
        }
    }
    assert(b.held_manifests() =~= ns.dom()) by {
        assert forall|id: ManifestId| b.held_manifests().contains(id) implies ns.dom().contains(
            id,
        ) by {
            assert(ms.dom().contains(id));
            assert(kept.contains(id));
        }
    }
    assert forall|id: ManifestId| #[trigger]
        reachable(ms, roots, id) && ms.contains_key(id) implies ns.contains_key(id) && ns[id]
        == ms[id] by {
        assert(kept.contains(id));
    }
    assert forall|id: ManifestId| #[trigger] ns.contains_key(id) implies sound(ns, ns[id]) by {
        assert(b.held_manifests().contains(id));
        assert(kept.contains(id));
        assert(sound(ms, ms[id]));
        lemma_restriction_keeps_reachable(ms, ns, roots, id, ms[id].depth as nat);
    }
    assert forall|id: ManifestId, p: ManifestId| #[trigger]
        points_at(ns, id, p) implies ns.contains_key(p) by {
        assert(b.held_manifests().contains(id));
        assert(kept.contains(id));
        assert(points_at(ms, id, p));
        lemma_reachable_step(ms, roots, id, p);
        assert(ms.contains_key(p));
    }
    let g = choose|g: Map<ManifestId, nat>| #[trigger] later_than_parents(ms, g);
    assert forall|id: ManifestId, p: ManifestId|
        ns.contains_key(id) && ns.contains_key(p) && #[trigger] is_parent(ns, p, id) implies g[p]
        < g[id] by {
        assert(is_parent(ms, p, id));
    }
    assert(later_than_parents(ns, g));
    if roots.contains(x) && holds(a, x, m) {
        lemma_root_reachable(ms, roots, x);
        lemma_restriction_keeps_reachable(ms, ns, roots, x, crate::chain::MAX_HOPS as nat);
        assert forall|k: u64| #[trigger] m.contains_key(k) implies bytes_at(b, x, k) == Some(
            m[k],
        ) by {
            assert(bytes_at(a, x, k) == Some(m[k]));
            looking_up_agrees_with_resolving(ms, x, k);
            looking_up_agrees_with_resolving(ns, x, k);
            let p = resolved(ms, x).unwrap()[k];
            assert(resolved(ms, x).unwrap().contains_key(k));
            assert(resolved(ms, x).unwrap().contains_value(p));
            assert(refers_to(ms, x, p));
            assert(live(ms, roots, p));
            assert(kept_pages.contains(p));
        }
    }
}

proof fn lemma_roots_there<B: Backing>(
    b: B,
    heads: Seq<ManifestId>,
    states: Seq<State>,
    marks: Seq<ManifestId>,
    frozen: Seq<State>,
)
    requires
        orderly(b),
        all_hold(b, heads, states),
        all_hold(b, marks, frozen),
    ensures
        forall|k: int|
            0 <= k < (heads + marks).len() ==> b.manifests().contains_key(
                #[trigger] (heads + marks)[k],
            ),
        forall|id: ManifestId| #[trigger]
            reachable(b.manifests(), heads + marks, id) ==> resolved(b.manifests(), id) is Some,
{
    let all = heads + marks;
    assert forall|k: int| 0 <= k < all.len() implies b.manifests().contains_key(
        #[trigger] all[k],
    ) by {
        if k < heads.len() {
            assert(holds(b, heads[k], states[k]));
        } else {
            let n = k - heads.len();
            assert(holds(b, marks[n], frozen[n]));
        }
    }
    assert forall|id: ManifestId| #[trigger]
        reachable(b.manifests(), all, id) implies resolved(b.manifests(), id) is Some by {
        lemma_all_there(b, all, id);
    }
}

/// Of what was stored, these pages and these manifests are left, as they were.
pub open spec fn only_kept<B: Backing>(
    a: B,
    b: B,
    pages: Set<PageId>,
    manifests: Set<ManifestId>,
) -> bool {
    &&& b.held_pages() == a.held_pages().intersect(pages)
    &&& b.pages() == a.pages().restrict(pages)
    &&& b.held_manifests() == a.held_manifests().intersect(manifests)
    &&& b.manifests() == a.manifests().restrict(manifests)
}

proof fn lemma_only_kept<B: Backing>(a: B, b: B, pages: Set<PageId>, manifests: Set<ManifestId>)
    requires
        trimmed(a.held_pages(), a.pages(), b.held_pages(), b.pages(), pages),
        trimmed(a.held_manifests(), a.manifests(), b.held_manifests(), b.manifests(), manifests),
        b.held_pages().subset_of(pages),
        b.held_manifests().subset_of(manifests),
        b.pages().dom().subset_of(b.held_pages()),
        b.manifests().dom().subset_of(b.held_manifests()),
    ensures
        only_kept(a, b, pages, manifests),
{
    assert(b.held_pages() =~= a.held_pages().intersect(pages));
    assert(b.pages() =~= a.pages().restrict(pages));
    assert(b.held_manifests() =~= a.held_manifests().intersect(manifests));
    assert(b.manifests() =~= a.manifests().restrict(manifests));
}

/// After a collection with all of them as roots, all of them have what they had.
proof fn lemma_all_collected<B: Backing>(
    a: B,
    b: B,
    heads: Seq<ManifestId>,
    states: Seq<State>,
    marks: Seq<ManifestId>,
    frozen: Seq<State>,
    kept_pages: Set<PageId>,
    kept: Set<ManifestId>,
)
    requires
        orderly(a),
        all_hold(a, heads, states),
        all_hold(a, marks, frozen),
        heads.len() > 0,
        trimmed(a.held_pages(), a.pages(), b.held_pages(), b.pages(), kept_pages),
        trimmed(a.held_manifests(), a.manifests(), b.held_manifests(), b.manifests(), kept),
        b.held_pages().subset_of(kept_pages),
        b.held_manifests().subset_of(kept),
        b.pages().dom().subset_of(b.held_pages()),
        b.manifests().dom().subset_of(b.held_manifests()),
        forall|id: ManifestId| #[trigger]
            kept.contains(id) <==> reachable(a.manifests(), heads + marks, id),
        forall|p: PageId| #[trigger]
            live(a.manifests(), heads + marks, p) ==> kept_pages.contains(p),
    ensures
        orderly(b),
        all_hold(b, heads, states),
        all_hold(b, marks, frozen),
{
    let all = heads + marks;
    lemma_roots_there(a, heads, states, marks, frozen);
    assert forall|k: int| 0 <= k < heads.len() implies holds(b, #[trigger] heads[k], states[k]) by {
        assert(holds(a, heads[k], states[k]));
        assert(all[k] == heads[k]);
        lemma_collected(a, b, all, kept_pages, kept, heads[k], states[k]);
    }
    assert forall|k: int| 0 <= k < marks.len() implies holds(b, #[trigger] marks[k], frozen[k]) by {
        assert(holds(a, marks[k], frozen[k]));
        assert(all[heads.len() + k] == marks[k]);
        lemma_collected(a, b, all, kept_pages, kept, marks[k], frozen[k]);
    }
    lemma_collected(a, b, all, kept_pages, kept, heads[0], states[0]);
}

/// An orderly store has the history of everything in it.
proof fn lemma_history<B: Backing>(b: B, id: ManifestId, n: nat)
    requires
        orderly(b),
        b.manifests().contains_key(id),
    ensures
        ancestor(b.manifests(), id, n) matches Some(x) ==> b.manifests().contains_key(x),
    decreases n,
{
    if n > 0 {
        lemma_history(b, id, (n - 1) as nat);
        let ms = b.manifests();
        match ancestor(ms, id, (n - 1) as nat) {
            Some(x) => {
                match ms[x].parent {
                    Some(p) => {
                        assert(points_at(ms, x, p));
                    },
                    None => {},
                }
            },
            None => {},
        }
    }
}

proof fn lemma_generations<B: Backing>(b: B, g: Map<ManifestId, nat>, id: ManifestId, n: nat)
    requires
        orderly(b),
        later_than_parents(b.manifests(), g),
        b.manifests().contains_key(id),
    ensures
        ancestor(b.manifests(), id, n) matches Some(x) ==> g[x] + n <= g[id],
    decreases n,
{
    if n > 0 {
        lemma_generations(b, g, id, (n - 1) as nat);
        lemma_history(b, id, (n - 1) as nat);
        let ms = b.manifests();
        match ancestor(ms, id, (n - 1) as nat) {
            Some(x) => {
                match ms[x].parent {
                    Some(p) => {
                        assert(points_at(ms, x, p));
                        assert(is_parent(ms, p, x));
                    },
                    None => {},
                }
            },
            None => {},
        }
    }
}

/// In an orderly store the merge base is the same seen from either side.
proof fn lemma_bases_same<B: Backing>(
    b: B,
    x: ManifestId,
    y: ManifestId,
    c: Option<ManifestId>,
    d: Option<ManifestId>,
)
    requires
        orderly(b),
        bases_are(b.manifests(), x, y, c, d),
    ensures
        c == d,
{
    let ms = b.manifests();
    match (c, d) {
        (Some(p), Some(q)) => {
            let g = choose|g: Map<ManifestId, nat>| #[trigger] later_than_parents(ms, g);
            assert forall|z: ManifestId, n: nat| n > 0 implies #[trigger] ancestor(ms, z, n)
                != Some(z) by {
                if ms.contains_key(z) {
                    lemma_generations(b, g, z, n);
                } else {
                    assert(ancestor(ms, z, 1) is None) by {
                        assert(ancestor(ms, z, 0) == Some(z));
                    }
                    crate::chain::lemma_history_ends(ms, z, 1, n);
                }
            }
            the_merge_base_is_symmetric(ms, x, y, p, q);
        },
        (Some(p), None) => {
            let n = choose|n: nat| #[trigger] crate::chain::nearest_at(ms, x, y, p, n);
            assert(is_ancestor(ms, p, y) && is_ancestor(ms, p, x));
            assert(related(ms, y, x));
        },
        (None, Some(q)) => {
            let n = choose|n: nat| #[trigger] crate::chain::nearest_at(ms, y, x, q, n);
            assert(is_ancestor(ms, q, x) && is_ancestor(ms, q, y));
            assert(related(ms, x, y));
        },
        (None, None) => {},
    }
}

proof fn lemma_whole_history<B: Backing>(b: B, id: ManifestId)
    requires
        orderly(b),
        b.manifests().contains_key(id),
    ensures
        has_history(b.manifests(), id),
{
    assert forall|n: nat|
        (#[trigger] ancestor(b.manifests(), id, n)) is Some implies b.manifests().contains_key(
        ancestor(b.manifests(), id, n).unwrap(),
    ) by {
        lemma_history(b, id, n);
    }
}

/// Builds the content that a byte stands for.
pub fn content_of(byte: u8) -> (v: Vec<u8>)
    ensures
        v@ == content(byte),
{
    let n: u8 = 1 + byte % 64;
    let mut v: Vec<u8> = Vec::new();
    let mut i: u8 = 0;
    while i < n
        invariant
            i <= n,
            v@.len() == i,
            forall|j: int| 0 <= j < v@.len() ==> v@[j] == byte,
        decreases n - i,
    {
        v.push(byte);
        i = i + 1;
    }
    assert(v@ =~= content(byte));
    v
}

/// A store with some heads on it, and the model of each of them.
pub struct World<C: Clock> {
    db: Pager<MemStore, C>,
    stores: Vec<Fork>,
    model: Vec<ModelStore>,
    model_snaps: ModelSnapshots,
    snapshots: Vec<(ManifestId, ModelSnapshotId)>,
    met: Ghost<Seq<Clash>>,
}

impl<C: Clock> World<C> {
    /// What the model has in each store.
    pub closed spec fn states(&self) -> Seq<State> {
        Seq::new(self.model@.len(), |i: int| self.model@[i]@)
    }

    /// What the model has in each snapshot.
    pub closed spec fn frozen(&self) -> Seq<State> {
        Seq::new(self.snapshots@.len(), |i: int| self.model_snaps@[self.snapshots@[i].1])
    }

    /// The different contents with the same hash that have met.
    pub closed spec fn met(&self) -> Seq<Clash> {
        self.met@
    }

    /// What is stored.
    pub closed spec fn backing(&self) -> MemStore {
        self.db.backing()
    }

    /// Where each store is.
    pub closed spec fn heads(&self) -> Seq<ManifestId> {
        Seq::new(self.stores@.len(), |i: int| self.stores@[i].spec_head())
    }

    /// Where each snapshot is.
    pub closed spec fn marks(&self) -> Seq<ManifestId> {
        Seq::new(self.snapshots@.len(), |i: int| self.snapshots@[i].0)
    }

    /// The clock that commits ask.
    pub closed spec fn spec_clock(&self) -> C {
        self.db.spec_clock()
    }

    /// Every store and every snapshot: what a collection keeps.
    pub open spec fn roots(&self) -> Seq<ManifestId> {
        self.heads() + self.marks()
    }

    /// The pages that the stores and the snapshots need.
    pub open spec fn live_pages(&self) -> Set<PageId> {
        Set::new(|p: PageId| live(self.backing().manifests(), self.roots(), p))
    }

    /// The manifests that the stores and the snapshots lead to.
    pub open spec fn reached(&self) -> Set<ManifestId> {
        Set::new(|id: ManifestId| reachable(self.backing().manifests(), self.roots(), id))
    }

    /// Every store and every snapshot has what the model has.
    pub open spec fn in_step(&self) -> bool {
        &&& orderly(self.backing())
        &&& all_hold(self.backing(), self.heads(), self.states())
        &&& all_hold(self.backing(), self.marks(), self.frozen())
    }

    spec fn kept_together(&self) -> bool {
        &&& self.db.wf()
        &&& self.db.backing().steady()
        &&& self.db.spec_config().hasher == self.db.backing().hasher()
        &&& self.db.spec_config().page_size == MIN_PAGE_SIZE
        &&& self.db.pin_counts() == Map::<PageId, usize>::empty()
        &&& self.stores@.len() == self.model@.len()
        &&& self.stores@.len() > 0
        &&& self.model_snaps.wf()
        &&& self.model_snaps.next() == self.snapshots@.len()
        &&& forall|i: int|
            0 <= i < self.snapshots@.len() ==> self.model_snaps@.contains_key(
                (#[trigger] self.snapshots@[i]).1,
            )
        &&& forall|i: int| 0 <= i < self.states().len() ==> small(#[trigger] self.states()[i])
        &&& forall|i: int| 0 <= i < self.frozen().len() ==> small(#[trigger] self.frozen()[i])
        &&& all_clash(self.db.backing().hasher(), self.met@)
    }

    /// As long as no different contents with the same hash have met, the store and the model are
    /// in step; and those that have met do have the same hash.
    pub closed spec fn wf(&self) -> bool {
        self.kept_together() && (self.met@.len() == 0 ==> self.in_step())
    }

    /// What has met does have the same hash.
    pub proof fn what_has_met_has_the_same_hash(&self)
        requires
            self.wf(),
        ensures
            all_clash(self.backing().hasher(), self.met()),
    {
    }

    /// As long as nothing has met, the store has what the model has.
    pub proof fn the_store_agrees_with_the_model(&self)
        requires
            self.wf(),
            self.met().len() == 0,
        ensures
            self.in_step(),
            self.heads().len() == self.states().len(),
    {
    }

    /// One empty store in memory, and its model.
    pub fn new(clock: C) -> (r: Result<World<C>, PagerError>)
        ensures
            match r {
                Ok(w) => {
                    &&& w.wf()
                    &&& w.met().len() == 0
                    &&& w.states() == seq![Map::<u64, Seq<u8>>::empty()]
                    &&& w.frozen() == Seq::<State>::empty()
                    &&& w.spec_clock() == clock
                },
                Err(_) => false,
            },
    {
        let mut config = StoreConfig::default();
        config.page_size = MIN_PAGE_SIZE;
        assert(config.refusal() is None) by {
            vstd::arithmetic::power2::lemma2_to64();
            assert(page_size_ok(4096)) by {
                assert(vstd::arithmetic::power2::pow2(12) == 4096);
            }
        }
        let db = match Pager::in_memory_with_clock(config, clock) {
            Ok(db) => db,
            Err(e) => {
                return Err(e);
            },
        };
        let first = match db.at(db.head()) {
            Ok(f) => f,
            Err(e) => {
                return Err(e);
            },
        };
        let mut stores: Vec<Fork> = Vec::new();
        stores.push(first);
        let mut model: Vec<ModelStore> = Vec::new();
        model.push(ModelStore::new());
        let w = World {
            db,
            stores,
            model,
            model_snaps: ModelSnapshots::new(),
            snapshots: Vec::new(),
            met: Ghost(Seq::empty()),
        };
        proof {
            let ms = w.db.ms();
            let root = empty_view(MIN_PAGE_SIZE);
            assert(w.states() =~= seq![Map::<u64, Seq<u8>>::empty()]);
            assert(w.frozen() =~= Seq::<State>::empty());
            assert(orderly(w.backing())) by {
                assert(w.backing().held_pages() =~= w.backing().pages().dom());
                assert(w.backing().held_manifests() =~= ms.dom());
                assert(later_than_parents(ms, Map::empty()));
            }
            assert(w.heads()[0] == root.id());
            assert(resolved(ms, root.id()).unwrap().dom() =~= Map::<
                u64,
                Seq<u8>,
            >::empty().dom());
            assert(holds(w.backing(), root.id(), Map::empty()));
            assert(w.in_step());
        }
        Ok(w)
    }

    /// Which store a number stands for.
    fn store_idx(&self, requested: u8) -> (i: usize)
        requires
            self.kept_together(),
        ensures
            i == requested as int % self.states().len() as int,
            i < self.stores@.len(),
    {
        requested as usize % self.stores.len()
    }

    /// Which snapshot a number stands for.
    fn snapshot_at(&self, requested: u8) -> (r: Option<usize>)
        ensures
            match r {
                None => self.frozen().len() == 0,
                Some(i) => self.frozen().len() > 0 && i == requested as int
                    % self.frozen().len() as int && i < self.snapshots@.len(),
            },
    {
        if self.snapshots.len() == 0 {
            return None;
        }
        Some(requested as usize % self.snapshots.len())
    }

    /// Commits one page, or its removal, to a store and to its model.
    fn commit_one(&mut self, idx: usize, page_no: u64, bytes: Option<Vec<u8>>) -> (r: Result<
        (),
        PagerError,
    >)
        requires
            old(self).wf(),
            idx < old(self).stores@.len(),
            page_no < 8,
            bytes matches Some(b) ==> b@.len() <= MIN_PAGE_SIZE,
        ensures
            final(self).wf(),
            committed_one(*old(self), *final(self), idx as int, page_no, bytes_of(bytes), r),
            final(self).met().len() >= old(self).met().len(),
            forall|i: int|
                0 <= i < old(self).met().len() ==> #[trigger] final(self).met()[i] == old(
                    self).met()[i],
            forall|i: int|
                old(self).met().len() <= i < final(self).met().len() ==> meets(
                    old(self).spec_clock(),
                    old(self).backing(),
                    old(self).heads()[idx as int],
                    page_no,
                    bytes_of(bytes),
                    #[trigger] final(self).met()[i],
                ),
            r is Err ==> final(self).met().len() > 0,
    {
        let ghost before = *self;
        let ghost m = self.states()[idx as int];
        let ghost base = self.stores@[idx as int].spec_head();
        proof {
            assert(before.heads()[idx as int] == base);
            assert(small(before.states()[idx as int]));
            if before.met@.len() == 0 {
                assert(holds(before.backing(), before.heads()[idx as int], before.states()[idx as int]));
            }
        }
        let mut fork = self.stores[idx];
        let (done, met) = commit_page(
            &mut self.db,
            &mut fork,
            page_no,
            &bytes,
            Ghost(m),
            Ghost(self.met@),
        );
        proof {
            self.met@ = met@;
        }
        match done {
            Ok(()) => {},
            Err(e) => {
                proof {
                    assert(self.states() =~= before.states());
                    assert(self.frozen() =~= before.frozen());
                    assert(self.heads() =~= before.heads());
                    assert(self.marks() =~= before.marks());
                }
                return Err(e);
            },
        }
        self.stores.set(idx, fork);
        let ghost given = bytes_of(bytes);
        let mut model = self.model[idx].clone_of();
        match bytes {
            Some(b) => {
                model.write(page_no, b);
            },
            None => {
                model.remove(page_no);
            },
        }
        self.model.set(idx, model);
        proof {
            let (a, b) = (before.backing(), self.backing());
            let n = changed(m, page_no, given);
            assert(self.states() =~= before.states().update(idx as int, n));
            assert(self.frozen() =~= before.frozen());
            assert(self.heads() =~= before.heads().update(idx as int, fork.spec_head()));
            assert(self.marks() =~= before.marks());
            assert forall|i: int| 0 <= i < self.states().len() implies small(
                #[trigger] self.states()[i],
            ) by {
                assert(small(before.states()[i]));
            }
            if met@.len() == 0 {
                assert(carried(a, b));
                assert forall|i: int| 0 <= i < self.heads().len() implies holds(
                    b,
                    #[trigger] self.heads()[i],
                    self.states()[i],
                ) by {
                    assert(holds(a, before.heads()[i], before.states()[i]));
                }
                assert forall|i: int| 0 <= i < self.marks().len() implies holds(
                    b,
                    #[trigger] self.marks()[i],
                    self.frozen()[i],
                ) by {
                    assert(holds(a, before.marks()[i], before.frozen()[i]));
                }
            }
        }
        Ok(())
    }

    /// Takes a step, in the store and in the model. The answer says whether what the step looks at
    /// was as it should be: the depth of the chain after a deep write, and the symmetry of a merge
    /// base. A step fails, or finds something amiss, only where different contents with the same hash
    /// have met, in this step or before; and only what is written can meet something.
    pub fn apply(&mut self, op: &Op) -> (r: Result<bool, PagerError>)
        requires
            old(self).wf(),
            old(self).frozen().len() < u64::MAX,
        ensures
            final(self).wf(),
            ran(*old(self), *final(self), *op, r),
            meets_more(*old(self), *final(self), *op),
            match r {
                Ok(good) => {
                    &&& (final(self).states(), final(self).frozen()) == stepped(
                        old(self).states(),
                        old(self).frozen(),
                        *op,
                    )
                    &&& final(self).met().len() == 0 ==> good
                },
                Err(_) => final(self).met().len() > 0,
            },
            old(self).met().len() == 0 && !(op is Write || op is Remove || op is DeepWrite)
                ==> r is Ok,
    {
        match *op {
            Op::Write { store, page_no, content: byte } => {
                let idx: usize = self.store_idx(store);
                match self.commit_one(idx, (page_no % 8) as u64, Some(content_of(byte))) {
                    Ok(()) => Ok(true),
                    Err(e) => Err(e),
                }
            },
            Op::Remove { store, page_no } => {
                let idx: usize = self.store_idx(store);
                match self.commit_one(idx, (page_no % 8) as u64, None) {
                    Ok(()) => Ok(true),
                    Err(e) => Err(e),
                }
            },
            Op::DeepWrite { store, page_no, rounds } => {
                let idx: usize = self.store_idx(store);
                self.deep_write(idx, (page_no % 8) as u64, rounds)
            },
            Op::Snapshot { store } => {
                let idx: usize = self.store_idx(store);
                self.take_snapshot(idx);
                Ok(true)
            },
            Op::Fork { snapshot } => match self.snapshot_at(snapshot) {
                None => Ok(true),
                Some(i) => match self.fork_off(i) {
                    Ok(()) => Ok(true),
                    Err(e) => Err(e),
                },
            },
            Op::Rewind { store, snapshot } => {
                let idx: usize = self.store_idx(store);
                match self.snapshot_at(snapshot) {
                    None => Ok(true),
                    Some(i) => match self.rewind_to(idx, i) {
                        Ok(()) => Ok(true),
                        Err(e) => Err(e),
                    },
                }
            },
            Op::MergeBase { a, b } => match (self.snapshot_at(a), self.snapshot_at(b)) {
                (Some(i), Some(j)) => self.merge_bases_agree(i, j),
                _ => Ok(true),
            },
            Op::Gc => match self.collect() {
                Ok(()) => Ok(true),
                Err(e) => Err(e),
            },
        }
    }

    /// Commits to one page many times, and looks at the depth of the chain.
    fn deep_write(&mut self, idx: usize, page_no: u64, rounds: u8) -> (r: Result<bool, PagerError>)
        requires
            old(self).wf(),
            idx < old(self).stores@.len(),
            page_no < 8,
        ensures
            final(self).wf(),
            deepened(*old(self), *final(self), idx as int, page_no, rounds_of(rounds), r),
            old(self).met().len() <= final(self).met().len(),
            forall|i: int|
                0 <= i < old(self).met().len() ==> #[trigger] final(self).met()[i] == old(
                    self).met()[i],
            forall|i: int|
                old(self).met().len() <= i < final(self).met().len() ==> meets_deep(
                    *old(self),
                    idx as int,
                    page_no,
                    rounds_of(rounds),
                    #[trigger] final(self).met()[i],
                ),
            match r {
                Ok(good) => final(self).met().len() == 0 ==> good,
                Err(_) => final(self).met().len() > 0,
            },
    {
        let n: u8 = 1 + rounds % 18;
        let mut round: u8 = 0;
        let ghost mut run: Seq<(MemStore, ManifestId)> = seq![
            (self.backing(), self.heads()[idx as int]),
        ];
        assert(self.heads() =~= self.heads().update(idx as int, self.heads()[idx as int]));
        while round < n
            invariant
                is_run(old(self).spec_clock(), run, page_no),
                run.len() == round + 1,
                run[0] == (old(self).backing(), old(self).heads()[idx as int]),
                run.last() == (self.backing(), self.heads()[idx as int]),
                self.spec_clock() == old(self).spec_clock(),
                self.marks() == old(self).marks(),
                self.heads() == old(self).heads().update(idx as int, run.last().1),
                old(self).heads().len() == old(self).stores@.len(),
                forall|i: int|
                    0 <= i < old(self).met().len() ==> #[trigger] self.met()[i] == old(
                        self).met()[i],
                forall|i: int|
                    old(self).met().len() <= i < self.met().len() ==> meets_deep(
                        *old(self),
                        idx as int,
                        page_no,
                        n as int,
                        #[trigger] self.met()[i],
                    ),
                n == rounds_of(rounds),
                1 <= n <= 18,
                round <= n,
                self.wf(),
                idx < old(self).stores@.len(),
                self.states().len() == old(self).states().len(),
                old(self).states().len() == old(self).stores@.len(),
                page_no < 8,
                old(self).met().len() <= self.met().len(),
                self.frozen() == old(self).frozen(),
                self.states() == deep_states(
                    old(self).states(),
                    idx as int,
                    page_no,
                    round as int,
                ),
            decreases n - round,
        {
            let bytes = content_of(round);
            let ghost before = *self;
            let step = self.commit_one(idx, page_no, Some(bytes));
            proof {
                lemma_meets_deep(*old(self), before, *self, idx as int, page_no, n as int, run);
            }
            match step {
                Ok(()) => {},
                Err(e) => {
                    proof {
                        assert(deepened_by(
                            *old(self),
                            *self,
                            idx as int,
                            page_no,
                            n as int,
                            Err(e),
                            run,
                        ));
                    }
                    return Err(e);
                },
            }
            proof {
                let longer = run.push((self.backing(), self.heads()[idx as int]));
                lemma_run_grows(old(self).spec_clock(), run, page_no, longer.last());
                assert(old(self).heads().update(idx as int, run.last().1).update(
                    idx as int,
                    longer.last().1,
                ) =~= old(self).heads().update(idx as int, longer.last().1));
                run = longer;
                let s = old(self).states();
                let i = idx as int;
                assert(s[i].insert(page_no, content((round - 1) as u8)).insert(
                    page_no,
                    content(round),
                ) =~= s[i].insert(page_no, content(round)));
                assert(self.states() =~= s.update(i, s[i].insert(page_no, content(round))));
            }
            round = round + 1;
        }
        let head = self.stores[idx].head();
        proof {
            assert(self.heads()[idx as int] == head);
            if self.met@.len() == 0 {
                assert(holds(self.backing(), self.heads()[idx as int], self.states()[idx as int]));
                assert(sound(self.db.ms(), self.db.ms()[head]));
            }
        }
        let r = match self.db.manifest(&head) {
            Ok(m) => Ok(m.depth() <= MAX_OVERLAY_DEPTH),
            Err(e) => Err(e),
        };
        assert(deepened_by(*old(self), *self, idx as int, page_no, n as int, r, run));
        r
    }

    /// Takes a snapshot of a store.
    fn take_snapshot(&mut self, idx: usize)
        requires
            old(self).wf(),
            idx < old(self).stores@.len(),
            old(self).frozen().len() < u64::MAX,
        ensures
            final(self).wf(),
            final(self).met() == old(self).met(),
            final(self).spec_clock() == old(self).spec_clock(),
            final(self).backing() == old(self).backing(),
            final(self).heads() == old(self).heads(),
            final(self).marks() == old(self).marks().push(old(self).heads()[idx as int]),
            final(self).states() == old(self).states(),
            final(self).frozen() == old(self).frozen().push(old(self).states()[idx as int]),
    {
        let ghost before = *self;
        let head = self.stores[idx].head();
        let handle: u64 = self.model_snaps.take(self.model[idx].head());
        self.snapshots.push((head, handle));
        proof {
            let (a, b) = (before.backing(), self.backing());
            assert(before.heads()[idx as int] == head);
            assert(before.states()[idx as int] == self.model@[idx as int]@);
            assert(self.states() =~= before.states());
            assert(self.heads() =~= before.heads());
            assert(self.marks() =~= before.marks().push(head));
            assert forall|i: int| 0 <= i < before.frozen().len() implies #[trigger] self.frozen()[i]
                == before.frozen()[i] by {
                assert(before.model_snaps@.contains_key(before.snapshots@[i].1));
                assert(self.snapshots@[i] == before.snapshots@[i]);
            }
            assert(self.frozen() =~= before.frozen().push(before.states()[idx as int]));
            assert forall|i: int| 0 <= i < self.frozen().len() implies small(
                #[trigger] self.frozen()[i],
            ) by {
                assert(small(before.states()[idx as int]));
                if i < before.frozen().len() {
                    assert(small(before.frozen()[i]));
                }
            }
            assert forall|i: int|
                0 <= i < self.snapshots@.len() implies self.model_snaps@.contains_key(
                (#[trigger] self.snapshots@[i]).1,
            ) by {
                if i < before.snapshots@.len() {
                    assert(before.model_snaps@.contains_key(before.snapshots@[i].1));
                }
            }
            if self.met@.len() == 0 {
                assert(holds(b, before.heads()[idx as int], before.states()[idx as int]));
                assert forall|i: int| 0 <= i < self.marks().len() implies holds(
                    b,
                    #[trigger] self.marks()[i],
                    self.frozen()[i],
                ) by {
                    if i < before.marks().len() {
                        assert(holds(a, before.marks()[i], before.frozen()[i]));
                    }
                }
            }
        }
    }

    /// Forks a new store off a snapshot.
    fn fork_off(&mut self, i: usize) -> (r: Result<(), PagerError>)
        requires
            old(self).wf(),
            i < old(self).snapshots@.len(),
        ensures
            final(self).wf(),
            forked_off(*old(self), *final(self), i as int, r),
            r is Err ==> old(self).met().len() > 0,
    {
        let ghost before = *self;
        let (mark, handle) = self.snapshots[i];
        proof {
            assert(before.marks()[i as int] == mark);
            assert(before.model_snaps@.contains_key(before.snapshots@[i as int].1));
            assert(before.frozen()[i as int] == before.model_snaps@[handle]);
            assert(small(before.frozen()[i as int]));
            if before.met@.len() == 0 {
                assert(holds(before.backing(), before.marks()[i as int], before.frozen()[i as int]));
                assert(self.db.ms().dom().contains(mark));
            }
        }
        let fork = match self.db.fork(&mark) {
            Ok(f) => f,
            Err(e) => {
                return Err(e);
            },
        };
        let model = match self.model_snaps.get(handle) {
            Some(state) => ModelStore::forked_from(state),
            None => ModelStore::new(),
        };
        self.stores.push(fork);
        self.model.push(model);
        proof {
            let b = self.backing();
            let m = before.frozen()[i as int];
            assert(self.frozen() =~= before.frozen());
            assert(self.marks() =~= before.marks());
            assert(self.states() =~= before.states().push(m));
            assert(self.heads() =~= before.heads().push(mark));
            assert forall|j: int| 0 <= j < self.states().len() implies small(
                #[trigger] self.states()[j],
            ) by {
                if j < before.states().len() {
                    assert(small(before.states()[j]));
                }
            }
            if self.met@.len() == 0 {
                assert forall|j: int| 0 <= j < self.heads().len() implies holds(
                    b,
                    #[trigger] self.heads()[j],
                    self.states()[j],
                ) by {
                    if j < before.heads().len() {
                        assert(holds(b, before.heads()[j], before.states()[j]));
                    }
                }
                assert forall|j: int| 0 <= j < self.marks().len() implies holds(
                    b,
                    #[trigger] self.marks()[j],
                    self.frozen()[j],
                ) by {
                    assert(holds(b, before.marks()[j], before.frozen()[j]));
                }
            }
        }
        Ok(())
    }

    /// Moves a store onto a snapshot.
    fn rewind_to(&mut self, idx: usize, i: usize) -> (r: Result<(), PagerError>)
        requires
            old(self).wf(),
            idx < old(self).stores@.len(),
            i < old(self).snapshots@.len(),
        ensures
            final(self).wf(),
            moved_to(*old(self), *final(self), idx as int, i as int, r),
            r is Err ==> old(self).met().len() > 0,
    {
        let ghost before = *self;
        let (mark, handle) = self.snapshots[i];
        proof {
            assert(before.marks()[i as int] == mark);
            assert(before.model_snaps@.contains_key(before.snapshots@[i as int].1));
            assert(before.frozen()[i as int] == before.model_snaps@[handle]);
            assert(small(before.frozen()[i as int]));
            if before.met@.len() == 0 {
                assert(holds(before.backing(), before.marks()[i as int], before.frozen()[i as int]));
                assert(self.db.ms().dom().contains(mark));
            }
        }
        let mut fork = self.stores[idx];
        match fork.rewind(&self.db, &mark) {
            Ok(()) => {},
            Err(e) => {
                return Err(e);
            },
        }
        let mut model = self.model[idx].clone_of();
        if let Some(state) = self.model_snaps.get(handle) {
            model.rewind(state);
        }
        self.stores.set(idx, fork);
        self.model.set(idx, model);
        proof {
            let b = self.backing();
            let m = before.frozen()[i as int];
            assert(self.frozen() =~= before.frozen());
            assert(self.marks() =~= before.marks());
            assert(self.states() =~= before.states().update(idx as int, m));
            assert(self.heads() =~= before.heads().update(idx as int, mark));
            assert forall|j: int| 0 <= j < self.states().len() implies small(
                #[trigger] self.states()[j],
            ) by {
                assert(small(before.states()[j]));
            }
            if self.met@.len() == 0 {
                assert forall|j: int| 0 <= j < self.heads().len() implies holds(
                    b,
                    #[trigger] self.heads()[j],
                    self.states()[j],
                ) by {
                    assert(holds(b, before.heads()[j], before.states()[j]));
                }
                assert forall|j: int| 0 <= j < self.marks().len() implies holds(
                    b,
                    #[trigger] self.marks()[j],
                    self.frozen()[j],
                ) by {
                    assert(holds(b, before.marks()[j], before.frozen()[j]));
                }
            }
        }
        Ok(())
    }

    /// Whether two snapshots have the same merge base seen from either side, and it can be read.
    fn merge_bases_agree(&mut self, i: usize, j: usize) -> (r: Result<bool, PagerError>)
        requires
            old(self).wf(),
            i < old(self).snapshots@.len(),
            j < old(self).snapshots@.len(),
        ensures
            final(self).wf(),
            bases_asked(*old(self), *final(self), i as int, j as int, r),
            match r {
                Ok(same) => old(self).met().len() == 0 ==> same,
                Err(_) => old(self).met().len() > 0,
            },
    {
        let ghost before = *self;
        let ghost b = self.db.backing();
        let (x, _) = self.snapshots[i];
        let (y, _) = self.snapshots[j];
        proof {
            assert(before.marks()[i as int] == x && before.marks()[j as int] == y);
            if before.met@.len() == 0 {
                assert(holds(b, before.marks()[i as int], before.frozen()[i as int]));
                assert(holds(b, before.marks()[j as int], before.frozen()[j as int]));
                lemma_whole_history(b, x);
                lemma_whole_history(b, y);
            }
        }
        let one = match self.db.merge_base(&x, &y) {
            Ok(c) => c,
            Err(e) => {
                assert(self.unchanged(&before));
                return Err(e);
            },
        };
        let other = match self.db.merge_base(&y, &x) {
            Ok(c) => c,
            Err(e) => {
                assert(self.unchanged(&before));
                return Err(e);
            },
        };
        if let Some(c) = one {
            proof {
                if before.met@.len() == 0 {
                    let n = choose|n: nat| #[trigger]
                        crate::chain::nearest_at(b.manifests(), x, y, c, n);
                    lemma_history(b, y, n);
                    lemma_sound_resolves(b.manifests(), c);
                }
            }
            match self.db.resolve(&c) {
                Ok(_) => {},
                Err(e) => {
                    assert(self.unchanged(&before));
                    return Err(e);
                },
            }
        }
        assert(self.unchanged(&before));
        let same = match (one, other) {
            (Some(c), Some(d)) => c == d,
            (None, None) => true,
            _ => false,
        };
        proof {
            assert(bases_are(b.manifests(), x, y, one, other));
            assert(same == (one == other));
            assert(bases_compare(b.manifests(), x, y, same));
            if before.met@.len() == 0 {
                lemma_bases_same(b, x, y, one, other);
            }
        }
        Ok(same)
    }

    /// Nothing but what is cached differs.
    spec fn unchanged(&self, before: &Self) -> bool {
        &&& self.backing() == before.backing()
        &&& self.states() == before.states()
        &&& self.frozen() == before.frozen()
        &&& self.heads() == before.heads()
        &&& self.marks() == before.marks()
        &&& self.met() == before.met()
        &&& self.spec_clock() == before.spec_clock()
        &&& self.wf()
    }

    /// Collects, with every store and every snapshot as a root: what they lead to is all that is
    /// left afterwards, but for pinned pages. Where a manifest on the way cannot be read, nothing
    /// that they lead to is lost.
    fn collect(&mut self) -> (r: Result<(), PagerError>)
        requires
            old(self).wf(),
        ensures
            final(self).wf(),
            swept(*old(self), *final(self), r),
            r is Err ==> old(self).met().len() > 0,
    {
        let ghost before = *self;
        let ghost a = self.db.backing();
        let mut roots: Vec<ManifestId> = Vec::new();
        let mut i: usize = 0;
        while i < self.stores.len()
            invariant
                i <= self.stores@.len(),
                roots@ == self.heads().take(i as int),
            decreases self.stores@.len() - i,
        {
            roots.push(self.stores[i].head());
            assert(roots@ =~= self.heads().take(i as int + 1));
            i = i + 1;
        }
        assert(roots@ =~= self.heads());
        let mut j: usize = 0;
        while j < self.snapshots.len()
            invariant
                j <= self.snapshots@.len(),
                roots@ == self.heads() + self.marks().take(j as int),
            decreases self.snapshots@.len() - j,
        {
            let (mark, _) = self.snapshots[j];
            roots.push(mark);
            assert(roots@ =~= self.heads() + self.marks().take(j as int + 1));
            j = j + 1;
        }
        assert(roots@ =~= self.heads() + self.marks());
        let ghost all = roots@;
        proof {
            if before.met@.len() == 0 {
                lemma_roots_there(a, self.heads(), self.states(), self.marks(), self.frozen());
                assert(self.db.all_resolve(all));
            }
        }
        let done = self.db.gc(roots.as_slice());
        proof {
            let b = self.db.backing();
            self.db.lemma_wf();
            b.contents_are_what_their_ids_say();
            assert(self.states() =~= before.states());
            assert(self.frozen() =~= before.frozen());
            assert(self.heads() =~= before.heads());
            assert(self.marks() =~= before.marks());
            if before.met@.len() == 0 {
                lemma_all_collected(
                    a,
                    b,
                    self.heads(),
                    self.states(),
                    self.marks(),
                    self.frozen(),
                    before.db.kept_pages(all),
                    before.db.kept_manifests(all),
                );
            }
            assert(before.db.kept_pages(all) =~= before.live_pages());
            assert(before.db.kept_manifests(all) =~= before.reached());
            if done is Ok {
                lemma_only_kept(a, b, before.db.kept_pages(all), before.db.kept_manifests(all));
            }
        }
        match done {
            Ok(_) => Ok(()),
            Err(e) => Err(e),
        }
    }

    /// Reads every store in full, and says whether each has what the model has.
    pub fn check_agreement(&mut self) -> (r: Result<bool, PagerError>)
        requires
            old(self).wf(),
        ensures
            final(self).wf(),
            final(self).met() == old(self).met(),
            final(self).states() == old(self).states(),
            final(self).frozen() == old(self).frozen(),
            final(self).heads() == old(self).heads(),
            final(self).marks() == old(self).marks(),
            final(self).backing() == old(self).backing(),
            match r {
                Ok(good) => {
                    &&& good == all_hold(old(self).backing(), old(self).heads(), old(self).states())
                    &&& old(self).met().len() == 0 ==> good
                },
                Err(_) => old(self).met().len() > 0,
            },
    {
        let ghost before = *self;
        let mut i: usize = 0;
        while i < self.stores.len()
            invariant
                i <= self.stores@.len(),
                before == *old(self),
                self.unchanged(&before),
                self.met() == before.met(),
                self.stores@ == before.stores@,
                self.model@ == before.model@,
                before.wf(),
                forall|j: int|
                    0 <= j < i ==> holds(
                        before.backing(),
                        #[trigger] before.heads()[j],
                        before.states()[j],
                    ),
            decreases self.stores@.len() - i,
        {
            let head = self.stores[i].head();
            proof {
                assert(before.heads()[i as int] == head);
                assert(before.states()[i as int] == self.model@[i as int]@);
                if before.met@.len() == 0 {
                    assert(holds(
                        before.backing(),
                        before.heads()[i as int],
                        before.states()[i as int],
                    ));
                }
            }
            let one = agrees(&mut self.db, head, &self.model[i]);
            proof {
                assert(self.states() =~= before.states());
                assert(self.frozen() =~= before.frozen());
                assert(self.heads() =~= before.heads());
                assert(self.marks() =~= before.marks());
                assert(self.unchanged(&before));
            }
            match one {
                Ok(true) => {},
                Ok(false) => {
                    return Ok(false);
                },
                Err(e) => {
                    return Err(e);
                },
            }
            i = i + 1;
        }
        Ok(true)
    }

    /// Reads every snapshot in full, and says whether each still has the bytes that it had.
    pub fn check_snapshots(&mut self) -> (r: Result<bool, PagerError>)
        requires
            old(self).wf(),
        ensures
            final(self).wf(),
            final(self).met() == old(self).met(),
            final(self).states() == old(self).states(),
            final(self).frozen() == old(self).frozen(),
            final(self).heads() == old(self).heads(),
            final(self).marks() == old(self).marks(),
            final(self).backing() == old(self).backing(),
            match r {
                Ok(good) => {
                    &&& good == all_hold(old(self).backing(), old(self).marks(), old(self).frozen())
                    &&& old(self).met().len() == 0 ==> good
                },
                Err(_) => old(self).met().len() > 0,
            },
    {
        let ghost before = *self;
        let mut i: usize = 0;
        while i < self.snapshots.len()
            invariant
                i <= self.snapshots@.len(),
                before == *old(self),
                self.unchanged(&before),
                self.met() == before.met(),
                self.snapshots@ == before.snapshots@,
                self.model_snaps == before.model_snaps,
                before.wf(),
                forall|j: int|
                    0 <= j < i ==> holds(
                        before.backing(),
                        #[trigger] before.marks()[j],
                        before.frozen()[j],
                    ),
            decreases self.snapshots@.len() - i,
        {
            let (mark, handle) = self.snapshots[i];
            proof {
                assert(before.marks()[i as int] == mark);
                assert(before.model_snaps@.contains_key(before.snapshots@[i as int].1));
                assert(before.frozen()[i as int] == self.model_snaps@[handle]);
                if before.met@.len() == 0 {
                    assert(holds(
                        before.backing(),
                        before.marks()[i as int],
                        before.frozen()[i as int],
                    ));
                }
            }
            let state = match self.model_snaps.get(handle) {
                Some(state) => ModelStore::forked_from(state),
                None => ModelStore::new(),
            };
            let one = agrees(&mut self.db, mark, &state);
            proof {
                assert(self.states() =~= before.states());
                assert(self.frozen() =~= before.frozen());
                assert(self.heads() =~= before.heads());
                assert(self.marks() =~= before.marks());
                assert(self.unchanged(&before));
            }
            match one {
                Ok(true) => {},
                Ok(false) => {
                    return Ok(false);
                },
                Err(e) => {
                    return Err(e);
                },
            }
            i = i + 1;
        }
        Ok(true)
    }
}

/// Reads a manifest's database in full, and says whether it is what the model has.
fn agrees<C: Clock>(db: &mut Pager<MemStore, C>, id: ManifestId, model: &ModelStore) -> (r: Result<
    bool,
    PagerError,
>)
    requires
        old(db).wf(),
        old(db).backing().steady(),
    ensures
        final(db).wf(),
        old(db).same_but_cache(final(db)),
        match r {
            Ok(same) => same == holds(old(db).backing(), id, model@),
            Err(_) => !holds(old(db).backing(), id, model@),
        },
{
    broadcast use vstd::std_specs::btree::group_btree_axioms;

    let ghost b = db.backing();
    let pages = match db.resolve(&id) {
        Ok(pages) => pages,
        Err(e) => {
            return Err(e);
        },
    };
    let list = entries(&pages);
    proof {
        lemma_map_of_keys(list@);
        lemma_map_of_increasing(list@);
    }
    let mut i: usize = 0;
    while i < list.len()
        invariant
            i <= list@.len(),
            db.wf(),
            old(db).same_but_cache(db),
            b == old(db).backing(),
            b.steady(),
            resolved(b.manifests(), id) == Some(pages@),
            forall|j: int| 0 <= j < list@.len() ==> pages@.contains_key((#[trigger] list@[j]).0),
            forall|j: int|
                0 <= j < i ==> model@.contains_key((#[trigger] list@[j]).0) && bytes_at(
                    b,
                    id,
                    list@[j].0,
                ) == Some(model@[list@[j].0]),
        decreases list@.len() - i,
    {
        let (k, _) = list[i];
        assert(pages@.dom().contains(list@[i as int].0));
        let page = match db.read(&id, k) {
            Ok(page) => page,
            Err(e) => {
                proof {
                    looking_up_agrees_with_resolving(b.manifests(), id, k);
                    if holds(b, id, model@) {
                        assert(model@.dom().contains(k));
                        assert(model@.contains_key(k));
                    }
                }
                return Err(e);
            },
        };
        match model.read(k) {
            Some(bytes) => {
                let order = compare_bytes(page.as_bytes(), bytes);
                proof {
                    if order is Before {
                        lemma_before_irreflexive(page@, bytes@);
                    }
                    if order is After {
                        lemma_before_irreflexive(bytes@, page@);
                    }
                }
                match order {
                    Order::Same => {},
                    _ => {
                        return Ok(false);
                    },
                }
            },
            None => {
                return Ok(false);
            },
        }
        i = i + 1;
    }
    let mut numbers: BTreeMap<u64, ()> = BTreeMap::new();
    let state = model.head();
    add_keys(&mut numbers, state);
    let others = entries(&numbers);
    proof {
        lemma_map_of_keys(others@);
        assert(contents(*state).dom() =~= state@.dom());
        assert(numbers@.dom() =~= model@.dom());
        assert forall|n: int| 0 <= n < others@.len() implies model@.contains_key(
            (#[trigger] others@[n]).0,
        ) by {
            assert(map_of(others@).contains_key(others@[n].0));
            assert(numbers@.dom().contains(others@[n].0));
        }
    }
    let mut j: usize = 0;
    while j < others.len()
        invariant
            j <= others@.len(),
            db.wf(),
            old(db).same_but_cache(db),
            b == old(db).backing(),
            resolved(b.manifests(), id) == Some(pages@),
            forall|n: int| 0 <= n < others@.len() ==> model@.contains_key((#[trigger] others@[n]).0),
            forall|n: int| 0 <= n < j ==> pages@.contains_key((#[trigger] others@[n]).0),
        decreases others@.len() - j,
    {
        let (k, _) = others[j];
        assert(model@.dom().contains(others@[j as int].0));
        if !pages.contains_key(&k) {
            proof {
                if holds(b, id, model@) {
                    assert(pages@.dom().contains(k));
                }
            }
            return Ok(false);
        }
        j = j + 1;
    }
    proof {
        assert forall|k: u64| pages@.dom().contains(k) <==> model@.dom().contains(k) by {
            if pages@.dom().contains(k) {
                let n = choose|n: int| 0 <= n < list@.len() && (#[trigger] list@[n]).0 == k;
                assert(model@.contains_key(list@[n].0));
            }
            if model@.dom().contains(k) {
                assert(numbers@.dom().contains(k));
                assert(map_of(others@).contains_key(k));
                let n = choose|n: int| 0 <= n < others@.len() && (#[trigger] others@[n]).0 == k;
                assert(pages@.contains_key(others@[n].0));
            }
        }
        assert(pages@.dom() =~= model@.dom());
        assert forall|k: u64| #[trigger] model@.contains_key(k) implies bytes_at(b, id, k) == Some(
            model@[k],
        ) by {
            assert(pages@.dom().contains(k));
            assert(map_of(list@).contains_key(k));
            let n = choose|n: int| 0 <= n < list@.len() && (#[trigger] list@[n]).0 == k;
            assert(bytes_at(b, id, list@[n].0) == Some(model@[list@[n].0]));
        }
    }
    Ok(true)
}

/// The merge bases of two manifests, seen from either side.
pub open spec fn bases_are(
    ms: Manifests,
    a: ManifestId,
    b: ManifestId,
    c: Option<ManifestId>,
    d: Option<ManifestId>,
) -> bool {
    &&& match c {
        Some(x) => is_merge_base(ms, a, b, x),
        None => !related(ms, a, b),
    }
    &&& match d {
        Some(x) => is_merge_base(ms, b, a, x),
        None => !related(ms, b, a),
    }
}

/// Whether the merge bases of two manifests are the same, seen from either side. One that there is
/// can be read.
pub open spec fn bases_compare(ms: Manifests, a: ManifestId, b: ManifestId, same: bool) -> bool {
    exists|c: Option<ManifestId>, d: Option<ManifestId>| #[trigger]
        bases_are(ms, a, b, c, d) && same == (c == d) && (c matches Some(x) ==> resolved(ms, x)
            is Some)
}

/// A state with one page written, or removed.
pub open spec fn changed(m: State, k: u64, given: Option<Seq<u8>>) -> State {
    match given {
        Some(b) => m.insert(k, b),
        None => m.remove(k),
    }
}

/// Nothing that a step could change differs.
pub open spec fn untouched<C: Clock>(a: World<C>, b: World<C>) -> bool {
    &&& same_but_stores(a, b)
    &&& b.heads() == a.heads()
    &&& b.states() == a.states()
}

/// Nothing differs but where the stores are, and what their models have.
pub open spec fn same_but_stores<C: Clock>(a: World<C>, b: World<C>) -> bool {
    &&& b.spec_clock() == a.spec_clock()
    &&& b.backing() == a.backing()
    &&& b.marks() == a.marks()
    &&& b.frozen() == a.frozen()
    &&& b.met() == a.met()
}

/// A new store was forked off a snapshot, which has to be there.
pub open spec fn forked_off<C: Clock>(
    a: World<C>,
    b: World<C>,
    i: int,
    r: Result<(), PagerError>,
) -> bool {
    &&& same_but_stores(a, b)
    &&& match r {
        Ok(()) => a.backing().held_manifests().contains(a.marks()[i]) && b.heads()
            == a.heads().push(a.marks()[i]) && b.states() == a.states().push(a.frozen()[i]),
        Err(e) => untouched(a, b) && absent(a.backing(), a.marks()[i], e@),
    }
}

/// A store was moved onto a snapshot, which has to be there.
pub open spec fn moved_to<C: Clock>(
    a: World<C>,
    b: World<C>,
    n: int,
    i: int,
    r: Result<(), PagerError>,
) -> bool {
    &&& same_but_stores(a, b)
    &&& match r {
        Ok(()) => a.backing().held_manifests().contains(a.marks()[i]) && b.heads()
            == a.heads().update(n, a.marks()[i]) && b.states() == a.states().update(
            n,
            a.frozen()[i],
        ),
        Err(e) => untouched(a, b) && absent(a.backing(), a.marks()[i], e@),
    }
}

/// The manifest is not there, and the error says so.
pub open spec fn absent<B: Backing>(b: B, id: ManifestId, e: Fault) -> bool {
    !b.held_manifests().contains(id) && e == Fault::MissingManifest(hex(id.0@))
}

/// The merge bases of two snapshots were asked for, from either side: the answer says whether they
/// are the same. Where there is an error, the history of one of them cannot be told, or the merge
/// base not be read.
pub open spec fn bases_asked<C: Clock>(
    a: World<C>,
    b: World<C>,
    i: int,
    j: int,
    r: Result<bool, PagerError>,
) -> bool {
    let (x, y) = (a.marks()[i], a.marks()[j]);
    let ms = a.backing().manifests();
    &&& untouched(a, b)
    &&& match r {
        Ok(same) => bases_compare(ms, x, y, same),
        Err(e) => forgotten(a.backing(), x, e@) || forgotten(a.backing(), y, e@) || exists|
            c: ManifestId,
        | #[trigger]
            is_merge_base(ms, x, y, c) && unresolvable(a.backing(), c, e@),
    }
}

/// What no store and no snapshot leads to was collected, and nothing else. Where a manifest on the
/// way cannot be read nothing was.
pub open spec fn swept<C: Clock>(a: World<C>, b: World<C>, r: Result<(), PagerError>) -> bool {
    let ms = a.backing().manifests();
    &&& b.spec_clock() == a.spec_clock()
    &&& b.heads() == a.heads()
    &&& b.marks() == a.marks()
    &&& b.states() == a.states()
    &&& b.frozen() == a.frozen()
    &&& b.met() == a.met()
    &&& match r {
        Ok(()) => {
            &&& forall|id: ManifestId| #[trigger]
                reachable(ms, a.roots(), id) ==> resolved(ms, id) is Some
            &&& only_kept(
                a.backing(),
                b.backing(),
                a.live_pages(),
                a.reached(),
            )
        },
        Err(e) => b.backing() == a.backing() && exists|id: ManifestId| #[trigger]
            reachable(ms, a.roots(), id) && unresolvable(a.backing(), id, e@),
    }
}

/// The states of the stores after the first `m` commits of a deep write.
pub open spec fn deep_states(states: Seq<State>, i: int, k: u64, m: int) -> Seq<State> {
    if m <= 0 {
        states
    } else {
        states.update(i, states[i].insert(k, content((m - 1) as u8)))
    }
}

/// One page of a store was committed `n` times in a row, and then the answer says whether its chain
/// is as short as it should be. Where there is an error, one of the commits failed, after those
/// before it, or the manifest could not be read in the end.
pub open spec fn deepened<C: Clock>(
    a: World<C>,
    b: World<C>,
    i: int,
    k: u64,
    n: int,
    r: Result<bool, PagerError>,
) -> bool {
    exists|run: Seq<(MemStore, ManifestId)>| #[trigger]
        is_run(a.spec_clock(), run, k) && deepened_by(a, b, i, k, n, r, run)
}

/// The same, with what was stored in between.
pub open spec fn deepened_by<C: Clock>(
    a: World<C>,
    b: World<C>,
    i: int,
    k: u64,
    n: int,
    r: Result<bool, PagerError>,
    run: Seq<(MemStore, ManifestId)>,
) -> bool {
    let (last, head) = run.last();
    &&& run[0] == (a.backing(), a.heads()[i])
    &&& b.spec_clock() == a.spec_clock()
    &&& b.marks() == a.marks()
    &&& b.frozen() == a.frozen()
    &&& b.heads() == a.heads().update(i, head)
    &&& b.states() == deep_states(a.states(), i, k, run.len() - 1)
    &&& match r {
        Ok(good) => run.len() == n + 1 && b.backing() == last && last.manifests().contains_key(head)
            && good == (last.manifests()[head].depth <= MAX_OVERLAY_DEPTH),
        Err(e) => (run.len() <= n && one_commit(
            a.spec_clock(),
            last,
            b.backing(),
            head,
            k,
            Some(content((run.len() - 1) as u8)),
            Err(e),
        )) || (run.len() == n + 1 && b.backing() == last && unread(last, head, e@)),
    }
}

/// One of the `n` commits of a deep write meets something with the same hash.
pub open spec fn meets_deep<C: Clock>(a: World<C>, i: int, k: u64, n: int, c: Clash) -> bool {
    exists|run: Seq<(MemStore, ManifestId)>| #[trigger]
        is_run(a.spec_clock(), run, k) && run[0] == (a.backing(), a.heads()[i]) && run.len() <= n
            && meets(
            a.spec_clock(),
            run.last().0,
            run.last().1,
            k,
            Some(content((run.len() - 1) as u8)),
            c,
        )
}

/// A run goes on with one more commit.
proof fn lemma_run_grows<B: Backing, C: Clock>(
    clock: C,
    run: Seq<(B, ManifestId)>,
    k: u64,
    next: (B, ManifestId),
)
    requires
        is_run(clock, run, k),
        one_commit(
            clock,
            run.last().0,
            next.0,
            run.last().1,
            k,
            Some(content((run.len() - 1) as u8)),
            Ok(next.1),
        ),
    ensures
        is_run(clock, run.push(next), k),
{
    let longer = run.push(next);
    assert forall|j: int| 0 <= j < longer.len() - 1 implies one_commit(
        clock,
        (#[trigger] longer[j]).0,
        longer[j + 1].0,
        longer[j].1,
        k,
        Some(content(j as u8)),
        Ok(longer[j + 1].1),
    ) by {
        if j < run.len() - 1 {
            assert(longer[j] == run[j] && longer[j + 1] == run[j + 1]);
        } else {
            assert(longer[j] == run.last());
        }
    }
}

/// What met in one commit of a deep write met in the deep write.
proof fn lemma_meets_deep<C: Clock>(
    a: World<C>,
    before: World<C>,
    b: World<C>,
    i: int,
    k: u64,
    n: int,
    run: Seq<(MemStore, ManifestId)>,
)
    requires
        is_run(a.spec_clock(), run, k),
        run.len() <= n,
        run[0] == (a.backing(), a.heads()[i]),
        a.met().len() <= before.met().len() <= b.met().len(),
        forall|j: int|
            0 <= j < before.met().len() ==> #[trigger] b.met()[j] == before.met()[j],
        forall|j: int|
            a.met().len() <= j < before.met().len() ==> meets_deep(
                a,
                i,
                k,
                n,
                #[trigger] before.met()[j],
            ),
        forall|j: int|
            before.met().len() <= j < b.met().len() ==> meets(
                a.spec_clock(),
                run.last().0,
                run.last().1,
                k,
                Some(content((run.len() - 1) as u8)),
                #[trigger] b.met()[j],
            ),
    ensures
        forall|j: int|
            a.met().len() <= j < b.met().len() ==> meets_deep(a, i, k, n, #[trigger] b.met()[j]),
{
    assert forall|j: int| a.met().len() <= j < b.met().len() implies meets_deep(
        a,
        i,
        k,
        n,
        #[trigger] b.met()[j],
    ) by {
        if j < before.met().len() {
            assert(b.met()[j] == before.met()[j]);
        }
    }
}

/// The step meets something with the same hash.
pub open spec fn met_in_step<C: Clock>(a: World<C>, op: Op, c: Clash) -> bool {
    match op {
        Op::Write { store, page_no, content: byte } => {
            let i = store as int % a.states().len() as int;
            let k = (page_no % 8) as u64;
            meets(a.spec_clock(), a.backing(), a.heads()[i], k, Some(content(byte)), c)
        },
        Op::Remove { store, page_no } => {
            let i = store as int % a.states().len() as int;
            meets(a.spec_clock(), a.backing(), a.heads()[i], (page_no % 8) as u64, None, c)
        },
        Op::DeepWrite { store, page_no, rounds } => {
            let i = store as int % a.states().len() as int;
            meets_deep(a, i, (page_no % 8) as u64, rounds_of(rounds), c)
        },
        _ => false,
    }
}

/// What has met before has met, and everything else met in this step.
pub open spec fn meets_more<C: Clock>(a: World<C>, b: World<C>, op: Op) -> bool {
    &&& a.met().len() <= b.met().len()
    &&& forall|i: int| 0 <= i < a.met().len() ==> #[trigger] b.met()[i] == a.met()[i]
    &&& forall|i: int|
        a.met().len() <= i < b.met().len() ==> met_in_step(a, op, #[trigger] b.met()[i])
}

/// The answer of a step that looks at nothing.
pub open spec fn done(r: Result<bool, PagerError>) -> Result<(), PagerError> {
    match r {
        Ok(_) => Ok(()),
        Err(e) => Err(e),
    }
}

/// What a step does to the store and to the model, and what it gives.
pub open spec fn ran<C: Clock>(a: World<C>, b: World<C>, op: Op, r: Result<bool, PagerError>) -> bool {
    let (stores, marks) = (a.states().len() as int, a.frozen().len() as int);
    match op {
        Op::Write { store, page_no, content: byte } => (r matches Ok(good) ==> good)
            && committed_one(
            a,
            b,
            store as int % stores,
            (page_no % 8) as u64,
            Some(content(byte)),
            done(r),
        ),
        Op::Remove { store, page_no } => (r matches Ok(good) ==> good) && committed_one(
            a,
            b,
            store as int % stores,
            (page_no % 8) as u64,
            None,
            done(r),
        ),
        Op::DeepWrite { store, page_no, rounds } => deepened(
            a,
            b,
            store as int % stores,
            (page_no % 8) as u64,
            rounds_of(rounds),
            r,
        ),
        Op::Snapshot { store } => r == Ok::<bool, PagerError>(true) && b.spec_clock()
            == a.spec_clock() && b.backing() == a.backing() && b.heads() == a.heads() && b.marks()
            == a.marks().push(a.heads()[store as int % stores]),
        Op::Fork { snapshot } => (r matches Ok(good) ==> good) && if marks == 0 {
            r is Ok && untouched(a, b)
        } else {
            forked_off(a, b, snapshot as int % marks, done(r))
        },
        Op::Rewind { store, snapshot } => (r matches Ok(good) ==> good) && if marks == 0 {
            r is Ok && untouched(a, b)
        } else {
            moved_to(a, b, store as int % stores, snapshot as int % marks, done(r))
        },
        Op::MergeBase { a: x, b: y } => if marks == 0 {
            r == Ok::<bool, PagerError>(true) && untouched(a, b)
        } else {
            bases_asked(a, b, x as int % marks, y as int % marks, r)
        },
        Op::Gc => (r matches Ok(good) ==> good) && swept(a, b, done(r)),
    }
}

/// A page was changed in one store and in its model. Where the commit failed, both are as they were.
pub open spec fn committed_one<C: Clock>(
    a: World<C>,
    b: World<C>,
    i: int,
    k: u64,
    given: Option<Seq<u8>>,
    r: Result<(), PagerError>,
) -> bool {
    &&& b.spec_clock() == a.spec_clock()
    &&& b.marks() == a.marks()
    &&& b.frozen() == a.frozen()
    &&& match r {
        Ok(()) => {
            &&& one_commit(
                a.spec_clock(),
                a.backing(),
                b.backing(),
                a.heads()[i],
                k,
                given,
                Ok(b.heads()[i]),
            )
            &&& b.heads() == a.heads().update(i, b.heads()[i])
            &&& b.states() == a.states().update(i, changed(a.states()[i], k, given))
        },
        Err(e) => {
            &&& one_commit(a.spec_clock(), a.backing(), b.backing(), a.heads()[i], k, given, Err(e))
            &&& b.heads() == a.heads()
            &&& b.states() == a.states()
        },
    }
}

/// Every database that `a` has, `b` has too.
pub open spec fn carried<B: Backing>(a: B, b: B) -> bool {
    forall|x: ManifestId, m: State| #[trigger] holds(a, x, m) ==> holds(b, x, m)
}

/// Commits one page, or its removal, on a head. What clashes on the way is added to what has met.
fn commit_page<C: Clock>(
    db: &mut Pager<MemStore, C>,
    fork: &mut Fork,
    page_no: u64,
    bytes: &Option<Vec<u8>>,
    Ghost(m): Ghost<State>,
    Ghost(met): Ghost<Seq<Clash>>,
) -> (r: (Result<(), PagerError>, Ghost<Seq<Clash>>))
    requires
        old(db).wf(),
        old(db).backing().steady(),
        old(db).spec_config().hasher == old(db).backing().hasher(),
        old(db).spec_config().page_size == MIN_PAGE_SIZE,
        bytes matches Some(b) ==> b@.len() <= MIN_PAGE_SIZE,
        old(db).pin_counts() == Map::<PageId, usize>::empty(),
        all_clash(old(db).backing().hasher(), met),
        met.len() == 0 ==> orderly(old(db).backing()) && holds(
            old(db).backing(),
            old(fork).spec_head(),
            m,
        ) && small(m),
    ensures
        final(db).wf(),
        final(db).backing().steady(),
        final(db).spec_config() == old(db).spec_config(),
        final(db).backing().hasher() == old(db).backing().hasher(),
        final(db).spec_clock() == old(db).spec_clock(),
        final(db).pin_counts() == Map::<PageId, usize>::empty(),
        one_commit(
            old(db).spec_clock(),
            old(db).backing(),
            final(db).backing(),
            old(fork).spec_head(),
            page_no,
            bytes_of(*bytes),
            match r.0 {
                Ok(()) => Ok(final(fork).spec_head()),
                Err(e) => Err(e),
            },
        ),
        r.0 is Err ==> final(fork).spec_head() == old(fork).spec_head(),
        met.len() <= r.1@.len(),
        forall|i: int| 0 <= i < met.len() ==> #[trigger] r.1@[i] == met[i],
        forall|i: int|
            met.len() <= i < r.1@.len() ==> meets(
                old(db).spec_clock(),
                old(db).backing(),
                old(fork).spec_head(),
                page_no,
                bytes_of(*bytes),
                #[trigger] r.1@[i],
            ),
        all_clash(old(db).backing().hasher(), r.1@),
        r.0 is Err ==> r.1@.len() > 0,
        r.1@.len() == 0 ==> {
            &&& orderly(final(db).backing())
            &&& carried(old(db).backing(), final(db).backing())
            &&& holds(
                final(db).backing(),
                final(fork).spec_head(),
                changed(m, page_no, bytes_of(*bytes)),
            )
        },
{
    let ghost a0 = db.backing();
    let ghost h = a0.hasher();
    let ghost mut seen = met;
    proof {
        db.lemma_wf();
        a0.contents_are_what_their_ids_say();
    }
    let base = fork.head();
    let mut txn = fork.begin();
    let mut page: Option<PageId> = None;
    match bytes {
        Some(b) => {
            let copy = b.clone();
            assert(copy@ =~= b@);
            match db.write(&mut txn, page_no, copy) {
                Ok(id) => {
                    page = Some(id);
                    proof {
                        if a0.pages().contains_key(id) && a0.pages()[id] != b@ {
                            seen = seen.push(Clash::Pages(a0.pages()[id], b@));
                        }
                    }
                },
                Err(e) => {
                    return (Err(e), Ghost(seen));
                },
            }
            proof {
                if seen.len() == 0 {
                    lemma_page_stored(a0, db.backing(), page.unwrap(), b@);
                }
            }
        },
        None => {
            let _ = db.remove(&mut txn, page_no);
        },
    }
    let ghost a1 = db.backing();
    let ghost writes = txn.staged();
    proof {
        assert(writes =~= Map::<u64, Option<PageId>>::empty().insert(page_no, page));
        assert(writes.dom() =~= Set::<u64>::empty().insert(page_no));
        db.lemma_wf();
        a1.contents_are_what_their_ids_say();
        if seen.len() == 0 {
            assert(holds(a0, base, m));
            assert(orderly(a1));
            assert(carried(a0, a1));
            assert(holds(a1, base, m));
            lemma_resolved_is_derivable(a1.manifests(), base, writes);
        }
    }
    let ghost (pins, pinned) = (db.pin_counts(), txn.spec_pinned());
    let done = fork.commit(db, txn);
    let ghost a2 = db.backing();
    let ghost now = choose|now: u64|
        may_say(db.spec_clock(), now) && #[trigger] committed_to(a1, a2, base, writes, now, done);
    proof {
        assert(unpinned(pins, pinned) == Map::<PageId, usize>::empty()) by {
            let none = Map::<PageId, usize>::empty();
            match page {
                Some(id) => {
                    releasing_undoes_pinning(none, id);
                    assert(pinned =~= seq![id]);
                    assert(pinned.drop_last() =~= Seq::empty());
                    reveal_with_fuel(unpinned, 2);
                },
                None => {},
            }
        }
        assert(writes =~= writes_of(h, page_no, bytes_of(*bytes)));
        assert(page_staged(a0, a1, bytes_of(*bytes)));
        let d = derived(a1.manifests(), base, writes, now);
        if !no_clash(a1.manifests(), d) {
            seen = seen.push(Clash::Manifests(a1.manifests()[d.id()], d));
        }
    }
    match done {
        Ok(id) => {
            proof {
                if seen.len() == 0 {
                    lemma_committed(a1, a2, base, writes, now, id, m);
                    lemma_written(
                        a1,
                        a2,
                        base,
                        id,
                        page_no,
                        page,
                        match bytes_of(*bytes) {
                            Some(b) => b,
                            None => Seq::empty(),
                        },
                        m,
                    );
                    assert(carried(a0, a2)) by {
                        assert forall|x: ManifestId, n: State| #[trigger]
                            holds(a0, x, n) implies holds(a2, x, n) by {
                            assert(holds(a1, x, n));
                        }
                    }
                }
            }
            (Ok(()), Ghost(seen))
        },
        Err(e) => (Err(e), Ghost(seen)),
    }
}

/// A step leaves every snapshot as it is and in its place, and changes at most one store, and that one
/// at no page that it does not name unless it moves it onto a snapshot. What it writes is a run of one
/// byte; what it removes is gone; a snapshot is the state of its store, and a fork or a rewind the state
/// of its snapshot.
pub proof fn a_step_changes_what_it_names(
    states: Seq<State>,
    frozen: Seq<State>,
    op: Op,
    j: int,
    k: u64,
    x: int,
)
    requires
        states.len() > 0,
        0 <= j < states.len(),
    ensures
        ({
            let (next, marks) = stepped(states, frozen, op);
            &&& frozen.is_prefix_of(marks)
            &&& match op {
                Op::Write { store, page_no, content: byte } => {
                    &&& next.len() == states.len() && marks == frozen
                    &&& j != store as int % states.len() as int || k != page_no as int % 8
                        ==> next[j].get(k) == states[j].get(k)
                    &&& j == store as int % states.len() as int && k == page_no as int % 8 ==> (
                    next[j].get(k) matches Some(b) && b.len() == 1 + byte as int % 64 && (0 <= x
                        < b.len() ==> b[x] == byte))
                },
                Op::Remove { store, page_no } => {
                    &&& next.len() == states.len() && marks == frozen
                    &&& next[j].get(k) == (if j == store as int % states.len() as int && k
                        == page_no as int % 8 {
                        None
                    } else {
                        states[j].get(k)
                    })
                },
                Op::DeepWrite { store, page_no, rounds } => {
                    let last = rounds as int % 18;
                    &&& next.len() == states.len() && marks == frozen
                    &&& j != store as int % states.len() as int || k != page_no as int % 8
                        ==> next[j].get(k) == states[j].get(k)
                    &&& j == store as int % states.len() as int && k == page_no as int % 8 ==> (
                    next[j].get(k) matches Some(b) && b.len() == 1 + last && (0 <= x < b.len()
                        ==> b[x] == last))
                },
                Op::Snapshot { store } => next == states && marks.len() == frozen.len() + 1
                    && marks.last() == states[store as int % states.len() as int],
                Op::Fork { snapshot } => marks == frozen && states.is_prefix_of(next) && next.len()
                    == states.len() + (if frozen.len() == 0 {
                    0int
                } else {
                    1
                }) && (frozen.len() > 0 ==> next.last() == frozen[snapshot as int
                    % frozen.len() as int]),
                Op::Rewind { store, snapshot } => marks == frozen && next.len() == states.len()
                    && next[j] == (if frozen.len() > 0 && j == store as int % states.len() as int {
                    frozen[snapshot as int % frozen.len() as int]
                } else {
                    states[j]
                }),
                _ => next == states && marks == frozen,
            }
        }),
{
    let (next, marks) = stepped(states, frozen, op);
    assert(marks.take(frozen.len() as int) =~= frozen);
    assert(next.len() >= states.len());
    if op is Fork {
        assert(next.take(states.len() as int) =~= states);
    }
}

} // verus!
