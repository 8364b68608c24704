//! What the operations of the page store are for, said of what goes in and what comes out.

use crate::cas::{Backing, Cas, ManifestStore};
use crate::chain::{
    ancestor, changes_something, derived, is_ancestor, is_merge_base, lemma_ancestor_chain,
    lemma_closed_set, lemma_reachable_step, lemma_resolve_more, lemma_root_reachable,
    lemma_sound_resolves, live, looked_up, looking_up_agrees_with_resolving, nearest_at, points_at,
    reachable, refers_to, related, resolved, sound, Manifests, Writes, MAX_HOPS,
};
use crate::clock::Clock;
use crate::error::{Fault, PagerError};
use crate::gc::GcStats;
use crate::laws::{a_commit_applies_its_transaction, no_clash, what_a_commit_stores};
use crate::codec::{wire_change_entry, wire_items, wire_page_entry};
use crate::manifest::{
    changes_to_wire, id_bytes, pages_to_wire, BodyView, Manifest, ManifestId,
};
use crate::page::{Page, PageHasher, PageId};
use crate::pagemap::{entries_of, lemma_entries_exist, lemma_map_of_keys, map_of};
use crate::pager::{
    bytes_at, collected, committed_to, pinned_once, read_outcome, staged_write, unpinned, unpinned_once,
    IdentityPolicy, Pager, StoreConfig, Txn,
};
use crate::record::{Record, RecordKind, WalError};
use crate::text::hex;
use vstd::arithmetic::power2::pow2;
use vstd::bytes::{spec_u32_to_le_bytes, spec_u64_to_le_bytes};
use vstd::prelude::*;

verus! {

// ---------------------------------------------------------------------------------------------
// Commits.
// ---------------------------------------------------------------------------------------------

/// A flat manifest is its map. In an overlay a page that it changes has what the change says, or is
/// gone where that says so, and every other page is what it is in the manifest underneath.
pub proof fn a_manifest_is_made_of_its_layers(ms: Manifests, id: ManifestId, k: u64)
    requires
        resolved(ms, id) is Some,
    ensures
        ms.contains_key(id),
        match ms[id].body {
            BodyView::Flat(pages) => resolved(ms, id).unwrap() == pages,
            BodyView::Overlay { base, changes } => {
                &&& resolved(ms, base) is Some
                &&& resolved(ms, id).unwrap().get(k) == (if changes.contains_key(k) {
                    changes[k]
                } else {
                    resolved(ms, base).unwrap().get(k)
                })
            },
        },
        looked_up(ms, id, k) == Some(resolved(ms, id).unwrap().get(k)),
{
    looking_up_agrees_with_resolving(ms, id, k);
    if let BodyView::Overlay { base, changes } = ms[id].body {
        lemma_resolve_more(ms, ms, ms[base], (MAX_HOPS - 1) as nat, MAX_HOPS as nat);
    }
}

/// After a commit a page that the transaction wrote is what it wrote, one that it removed is gone,
/// and every other page is what it was: in the map, when it is looked up, and when its bytes are read.
pub proof fn a_commit_changes_what_it_writes_and_nothing_else<B: Backing>(
    a: B,
    b: B,
    base: ManifestId,
    writes: Writes,
    now_ms: u64,
    id: ManifestId,
    k: u64,
)
    requires
        committed_to(a, b, base, writes, now_ms, Ok(id)),
        !a.held_manifests().contains(id) || a.manifests().contains_key(id),
        no_clash(a.manifests(), derived(a.manifests(), base, writes, now_ms)),
        a.manifests().contains_key(base),
        sound(a.manifests(), a.manifests()[base]),
        writes.dom().finite(),
        resolved(a.manifests(), base).unwrap().dom().len() + writes.dom().len() <= i64::MAX,
    ensures
        ({
            let (before, after) = (resolved(a.manifests(), base), resolved(b.manifests(), id));
            let now = if writes.contains_key(k) {
                writes[k]
            } else {
                before.unwrap().get(k)
            };
            &&& before is Some && after is Some
            &&& after.unwrap().get(k) == now
            &&& looked_up(b.manifests(), id, k) == Some(now)
            &&& bytes_at(b, id, k) == (match now {
                Some(p) => a.pages().get(p),
                None => None,
            })
            &&& !writes.contains_key(k) ==> bytes_at(b, id, k) == bytes_at(a, base, k)
            &&& b.manifests()[id].page_count == after.unwrap().dom().len()
        }),
{
    a_commit_applies_its_transaction(a, b, base, writes, now_ms, id);
    lemma_sound_resolves(a.manifests(), base);
    lemma_sound_resolves(b.manifests(), id);
    looking_up_agrees_with_resolving(a.manifests(), base, k);
    looking_up_agrees_with_resolving(b.manifests(), id, k);
}

/// A transaction that sets nothing to anything new gives its base back, and stores nothing. Any other
/// gives a manifest that was committed on the base at the given time, for the same page size and
/// schema.
pub proof fn a_commit_says_where_it_comes_from<B: Backing>(
    a: B,
    b: B,
    base: ManifestId,
    writes: Writes,
    now_ms: u64,
    id: ManifestId,
)
    requires
        committed_to(a, b, base, writes, now_ms, Ok(id)),
        !a.held_manifests().contains(id) || a.manifests().contains_key(id),
        no_clash(a.manifests(), derived(a.manifests(), base, writes, now_ms)),
        resolved(a.manifests(), base) is Some,
    ensures
        (forall|k: u64| #[trigger]
            writes.contains_key(k) ==> resolved(a.manifests(), base).unwrap().get(k) == writes[k])
            ==> id == base && b == a,
        (exists|k: u64| #[trigger]
            writes.contains_key(k) && resolved(a.manifests(), base).unwrap().get(k) != writes[k])
            ==> {
            let (m, was) = (b.manifests()[id], a.manifests()[base]);
            &&& b.manifests().contains_key(id)
            &&& m.parent == Some(base)
            &&& m.created_at_ms == now_ms
            &&& m.schema_version == was.schema_version
            &&& m.page_size == was.page_size
            &&& m.format_version == 2
            &&& m.depth == (if was.depth < 8 {
                was.depth + 1
            } else {
                0
            })
            &&& m.body is Flat <==> was.depth >= 8
            &&& b.pages() == a.pages()
            &&& forall|x: ManifestId| #[trigger]
                a.manifests().contains_key(x) ==> b.manifests().contains_key(x)
                    && b.manifests()[x] == a.manifests()[x]
        },
{
    let ms = a.manifests();
    assert forall|k: u64| looked_up(ms, base, k) == Some(
        #[trigger] resolved(ms, base).unwrap().get(k),
    ) by {
        looking_up_agrees_with_resolving(ms, base, k);
    }
    if exists|k: u64| #[trigger]
        writes.contains_key(k) && resolved(ms, base).unwrap().get(k) != writes[k] {
        let k = choose|k: u64| #[trigger]
            writes.contains_key(k) && resolved(ms, base).unwrap().get(k) != writes[k];
        assert(looked_up(ms, base, k) != Some(writes[k]));
        assert(changes_something(ms, base, writes));
        what_a_commit_stores(a, b, base, writes, now_ms, id);
        let m = derived(ms, base, writes, now_ms);
        assert(b.manifests() =~= ms.insert(m.id(), m));
    } else {
        assert(!changes_something(ms, base, writes)) by {
            if changes_something(ms, base, writes) {
                let k = choose|k: u64| #[trigger]
                    writes.contains_key(k) && looked_up(ms, base, k) != Some(writes[k]);
                assert(resolved(ms, base).unwrap().get(k) == writes[k]);
            }
        }
    }
}

/// What is staged is there under its hash, the transaction has it at its page and what it had at every
/// other, and what was readable before is still what it was: a second page never takes the place of
/// one with another hash.
pub proof fn a_staged_page_is_stored_beside_the_others<S: Cas + ManifestStore, C: Clock>(
    a: Pager<S, C>,
    b: Pager<S, C>,
    t: Txn,
    u: Txn,
    page_no: u64,
    bytes: Seq<u8>,
    id: PageId,
    k: u64,
    other: PageId,
)
    requires
        staged_write(a, b, t, u, page_no, bytes, Ok(id)),
        a.backing().hasher() == a.spec_config().hasher,
        a.backing().held_pages().contains(id) ==> a.backing().pages().get(id) == Some(bytes),
    ensures
        bytes.len() <= a.spec_config().page_size,
        b.backing().pages().get(id) == Some(bytes),
        other != id ==> b.backing().pages().get(other) == a.backing().pages().get(other),
        u.staged().get(k) == (if k == page_no {
            Some(Some(id))
        } else {
            t.staged().get(k)
        }),
        b.pin_counts().contains_key(id),
        b.spec_head() == a.spec_head(),
        b.ms() == a.ms(),
{
}

// ---------------------------------------------------------------------------------------------
// History.
// ---------------------------------------------------------------------------------------------

/// A manifest descends from itself, and from whatever its parent descends from: from nothing else.
pub proof fn history_is_the_chain_of_parents(ms: Manifests, x: ManifestId, id: ManifestId)
    ensures
        is_ancestor(ms, x, id) <==> x == id || (ms.contains_key(id) && ms[id].parent is Some
            && is_ancestor(ms, x, ms[id].parent->Some_0)),
{
    if is_ancestor(ms, x, id) {
        let n = choose|n: nat| #[trigger] ancestor(ms, id, n) == Some(x);
        if n > 0 {
            assert(ancestor(ms, id, 1) is Some) by {
                if ancestor(ms, id, 1) is None {
                    crate::chain::lemma_history_ends(ms, id, 1, n);
                }
            }
            assert(ancestor(ms, id, 0) == Some(id));
            let p = ms[id].parent->Some_0;
            lemma_ancestor_chain(ms, id, p, 1, (n - 1) as nat);
            assert(ancestor(ms, p, (n - 1) as nat) == Some(x));
        }
    }
    if x == id {
        assert(ancestor(ms, id, 0) == Some(x));
    }
    if ms.contains_key(id) && ms[id].parent is Some && is_ancestor(
        ms,
        x,
        ms[id].parent->Some_0,
    ) {
        let p = ms[id].parent->Some_0;
        let n = choose|n: nat| #[trigger] ancestor(ms, p, n) == Some(x);
        assert(ancestor(ms, id, 0) == Some(id));
        assert(ancestor(ms, id, 1) == Some(p));
        lemma_ancestor_chain(ms, id, p, 1, n);
        assert(ancestor(ms, id, 1 + n) == Some(x));
    }
}

/// A merge base is an ancestor of both, and every other that they have in common is one of its own:
/// nothing nearer could have been found. Where there is none, they have nothing in common.
pub proof fn a_merge_base_is_the_nearest_common_ancestor(
    ms: Manifests,
    a: ManifestId,
    b: ManifestId,
    c: ManifestId,
    x: ManifestId,
)
    ensures
        is_merge_base(ms, a, b, c) ==> is_ancestor(ms, c, a) && is_ancestor(ms, c, b),
        is_merge_base(ms, a, b, c) && is_ancestor(ms, x, a) && is_ancestor(ms, x, b) ==> is_ancestor(
            ms,
            x,
            c,
        ),
        !related(ms, a, b) ==> !(is_ancestor(ms, x, a) && is_ancestor(ms, x, b)),
{
    if is_merge_base(ms, a, b, c) {
        let n = choose|n: nat| #[trigger] nearest_at(ms, a, b, c, n);
        assert(ancestor(ms, b, n) == Some(c));
        if is_ancestor(ms, x, a) && is_ancestor(ms, x, b) {
            let j = choose|j: nat| #[trigger] ancestor(ms, b, j) == Some(x);
            assert(j >= n);
            lemma_ancestor_chain(ms, b, c, n, (j - n) as nat);
            assert(ancestor(ms, c, (j - n) as nat) == Some(x));
        }
    }
}

// ---------------------------------------------------------------------------------------------
// Collections.
// ---------------------------------------------------------------------------------------------

/// What a collection that went through on a steady store leaves, said without searching: every root
/// that was there, and with every manifest that is left its parent and the one that it overlays. It
/// leaves no more than that: any set with these in it has everything that is left.
pub proof fn a_collection_leaves_what_the_roots_need<S: Cas + ManifestStore, C: Clock>(
    a: Pager<S, C>,
    b: Pager<S, C>,
    roots: Seq<ManifestId>,
    stats: GcStats,
    enough: Set<ManifestId>,
)
    requires
        collected(a, b, roots, Ok(stats)),
        a.backing().steady(),
    ensures
        forall|x: ManifestId| #[trigger]
            roots.contains(x) && a.backing().held_manifests().contains(x)
                ==> b.backing().held_manifests().contains(x),
        forall|x: ManifestId, y: ManifestId|
            #![trigger b.backing().held_manifests().contains(x), a.backing().held_manifests().contains(y)]
            b.backing().held_manifests().contains(x) && a.ms().contains_key(x) && (
            a.ms()[x].parent == Some(y) || a.ms()[x].overlay_base() == Some(y))
                && a.backing().held_manifests().contains(y)
                ==> b.backing().held_manifests().contains(y),
        (forall|x: ManifestId| #[trigger] roots.contains(x) ==> enough.contains(x)) && (forall|
            x: ManifestId,
            y: ManifestId,
        |
            #![trigger enough.contains(x), enough.contains(y)]
            enough.contains(x) && a.ms().contains_key(x) && (a.ms()[x].parent == Some(y)
                || a.ms()[x].overlay_base() == Some(y)) ==> enough.contains(y))
            ==> b.backing().held_manifests().subset_of(enough),
        forall|x: ManifestId| #[trigger] b.ms().contains_key(x) ==> a.ms().contains_key(x)
            && b.ms()[x] == a.ms()[x],
{
    let ms = a.ms();
    assert forall|x: ManifestId| #[trigger]
        roots.contains(x) && a.backing().held_manifests().contains(x) implies b.backing().held_manifests().contains(
    x) by {
        lemma_root_reachable(ms, roots, x);
        assert(a.kept_manifests(roots).contains(x));
    }
    assert forall|x: ManifestId, y: ManifestId|
        #![trigger b.backing().held_manifests().contains(x), a.backing().held_manifests().contains(y)]
        b.backing().held_manifests().contains(x) && ms.contains_key(x) && (ms[x].parent == Some(y)
            || ms[x].overlay_base() == Some(y)) && a.backing().held_manifests().contains(
        y) implies b.backing().held_manifests().contains(y) by {
        assert(a.kept_manifests(roots).contains(x));
        assert(points_at(ms, x, y));
        lemma_reachable_step(ms, roots, x, y);
        assert(a.kept_manifests(roots).contains(y));
    }
    if (forall|x: ManifestId| #[trigger] roots.contains(x) ==> enough.contains(x)) && (forall|
        x: ManifestId,
        y: ManifestId,
    |
        #![trigger enough.contains(x), enough.contains(y)]
        enough.contains(x) && ms.contains_key(x) && (ms[x].parent == Some(y)
            || ms[x].overlay_base() == Some(y)) ==> enough.contains(y)) {
        assert forall|x: ManifestId|
            b.backing().held_manifests().contains(x) implies enough.contains(x) by {
            assert(a.kept_manifests(roots).contains(x));
            assert forall|p: ManifestId, q: ManifestId|
                enough.contains(p) && #[trigger] points_at(ms, p, q) implies enough.contains(q) by {
                assert(enough.contains(q) == enough.contains(q));
            }
            lemma_closed_set(ms, roots, enough, x);
        }
    }
}

/// The database of a manifest has this content at some page.
pub open spec fn somewhere_in(ms: Manifests, id: ManifestId, p: PageId) -> bool {
    resolved(ms, id) is Some && exists|k: u64| #[trigger]
        resolved(ms, id).unwrap().get(k) == Some(p)
}

/// Of the pages such a collection leaves those that a database that is left has, at any of its pages,
/// and those that are pinned: no more, and no fewer. Their bytes are what they were.
pub proof fn a_collection_leaves_the_pages_of_what_it_leaves<S: Cas + ManifestStore, C: Clock>(
    a: Pager<S, C>,
    b: Pager<S, C>,
    roots: Seq<ManifestId>,
    stats: GcStats,
    p: PageId,
)
    requires
        collected(a, b, roots, Ok(stats)),
        a.backing().steady(),
        forall|x: ManifestId| #[trigger]
            a.ms().contains_key(x) ==> a.backing().held_manifests().contains(x),
    ensures
        b.backing().held_pages().contains(p) <==> a.backing().held_pages().contains(p) && (
        a.pin_counts().contains_key(p) || exists|x: ManifestId| #[trigger]
            b.backing().held_manifests().contains(x) && somewhere_in(a.ms(), x, p)),
        b.backing().pages().contains_key(p) ==> b.backing().pages().get(p)
            == a.backing().pages().get(p),
{
    let ms = a.ms();
    if live(ms, roots, p) && a.backing().held_pages().contains(p) {
        let x = choose|x: ManifestId| #[trigger] reachable(ms, roots, x) && refers_to(ms, x, p);
        let pages = resolved(ms, x).unwrap();
        let k = choose|k: u64| #[trigger] pages.dom().contains(k) && pages[k] == p;
        assert(a.kept_manifests(roots).contains(x));
        assert(b.backing().held_manifests().contains(x));
        assert(pages.get(k) == Some(p));
        assert(somewhere_in(ms, x, p));
        assert(a.kept_pages(roots).contains(p));
    }
    if a.pin_counts().contains_key(p) {
        assert(a.kept_pages(roots).contains(p));
    }
    if exists|x: ManifestId| #[trigger]
        b.backing().held_manifests().contains(x) && somewhere_in(ms, x, p) {
        let x = choose|x: ManifestId| #[trigger]
            b.backing().held_manifests().contains(x) && somewhere_in(ms, x, p);
        let pages = resolved(ms, x).unwrap();
        let k = choose|k: u64| #[trigger] pages.get(k) == Some(p);
        assert(a.kept_manifests(roots).contains(x));
        assert(pages.dom().contains(k) && pages[k] == p);
        assert(refers_to(ms, x, p));
        assert(live(ms, roots, p));
        assert(a.kept_pages(roots).contains(p));
    }
    if b.backing().held_pages().contains(p) {
        assert(a.kept_pages(roots).contains(p));
    }
}

// ---------------------------------------------------------------------------------------------
// Pins.
// ---------------------------------------------------------------------------------------------

/// How often a page is pinned.
pub open spec fn pins_of(pins: Map<PageId, usize>, id: PageId) -> int {
    if pins.contains_key(id) {
        pins[id] as int
    } else {
        0
    }
}

/// A pin counts one up, a release one down, each for its own page alone; and a page that is pinned no
/// more is not in the list.
pub proof fn pins_are_counted(pins: Map<PageId, usize>, id: PageId, q: PageId)
    requires
        forall|x: PageId| #[trigger] pins.contains_key(x) ==> 0 < pins[x] < usize::MAX,
    ensures
        pins_of(pinned_once(pins, id), q) == pins_of(pins, q) + (if q == id {
            1int
        } else {
            0
        }),
        pins_of(unpinned_once(pins, id), q) == pins_of(pins, q) - (if q == id && pins.contains_key(
            id,
        ) {
            1int
        } else {
            0
        }),
        pinned_once(pins, id).contains_key(q) <==> pins_of(pinned_once(pins, id), q) > 0,
        unpinned_once(pins, id).contains_key(q) <==> pins_of(unpinned_once(pins, id), q) > 0,
{
}

/// Releasing a list releases each page once for every time that it is in the list, and never more
/// often than it was pinned.
pub proof fn a_list_of_pins_is_released_one_by_one(
    pins: Map<PageId, usize>,
    ids: Seq<PageId>,
    q: PageId,
)
    requires
        forall|x: PageId| #[trigger] pins.contains_key(x) ==> 0 < pins[x],
    ensures
        pins_of(unpinned(pins, ids), q) == (if pins_of(pins, q) >= ids.to_multiset().count(q) {
            pins_of(pins, q) - ids.to_multiset().count(q)
        } else {
            0
        }),
        unpinned(pins, ids).contains_key(q) <==> pins_of(unpinned(pins, ids), q) > 0,
    decreases ids.len(),
{
    broadcast use vstd::seq_lib::group_to_multiset_ensures;

    if ids.len() > 0 {
        let init = ids.drop_last();
        a_list_of_pins_is_released_one_by_one(pins, init, q);
        assert(ids =~= init.push(ids.last()));
        assert(ids.to_multiset() =~= init.to_multiset().insert(ids.last()));
    }
}

// ---------------------------------------------------------------------------------------------
// Configuration.
// ---------------------------------------------------------------------------------------------

/// A store can be made exactly with a power of two from four kibibytes to sixteen mebibytes as its
/// page size and, where the policy asks for it, only with a key.
pub proof fn a_store_is_made_with_sensible_pages(c: &StoreConfig, r: Result<(), PagerError>)
    requires
        call_ensures(StoreConfig::check, (c,), r),
    ensures
        r is Ok <==> 4096 <= c.page_size <= 16777216 && (exists|k: nat|
            c.page_size == #[trigger] pow2(k)) && (c.policy == IdentityPolicy::KeyedOnly
            ==> c.hasher is Keyed),
        r is Err ==> r->Err_0@ == Fault::InvalidPageSize(c.page_size) || (r->Err_0@
            == Fault::UnkeyedStoreInKeyedBuild && c.hasher == PageHasher::Unkeyed),
{
}

// ---------------------------------------------------------------------------------------------
// Reading.
// ---------------------------------------------------------------------------------------------

/// On a steady store a read gives the page that the manifest's database has there, with the bytes that
/// are stored under its id; and where it gives none, it says whether the database has no such page,
/// or the store no such content.
pub proof fn a_read_gives_the_page_of_the_database<B: Backing>(
    b: B,
    id: ManifestId,
    k: u64,
    r: Result<Page, PagerError>,
)
    requires
        read_outcome(b, id, k, r),
        b.steady(),
        resolved(b.manifests(), id) is Some,
    ensures
        ({
            let there = resolved(b.manifests(), id).unwrap().get(k);
            &&& r is Ok <==> there is Some && b.pages().contains_key(there.unwrap())
            &&& r is Ok ==> r->Ok_0.spec_id() == there.unwrap() && b.pages()[there.unwrap()]
                == r->Ok_0@
            &&& there is None ==> r->Err_0@ == (Fault::PageNotFound {
                page_no: k,
                manifest: hex(id.0@),
            })
            &&& there is Some && !b.held_pages().contains(there.unwrap()) && !b.pages().contains_key(
                there.unwrap(),
            ) ==> r->Err_0@ == Fault::MissingPage(there.unwrap())
            &&& there is Some && b.held_pages().contains(there.unwrap()) && !b.pages().contains_key(
                there.unwrap(),
            ) ==> r->Err_0@ is CorruptPage
        }),
{
    looking_up_agrees_with_resolving(b.manifests(), id, k);
}

// ---------------------------------------------------------------------------------------------
// What is stored.
// ---------------------------------------------------------------------------------------------

/// A manifest is stored field by field, numbers with the lowest byte first: the version, the body, the
/// parent, the time, the schema, the page size, the depth and the count. The body starts with a zero
/// where it is flat, and with a one and the id underneath where it is not; then come how many entries
/// there are, and the entries in order.
pub proof fn a_manifest_is_stored_field_by_field(
    m: &Manifest,
    stored: Result<Vec<u8>, PagerError>,
)
    requires
        call_ensures(Manifest::encode, (m,), stored),
    ensures
        ({
            let body = match m@.body {
                BodyView::Flat(pages) => spec_u32_to_le_bytes(0) + (spec_u64_to_le_bytes(
                    pages.dom().len() as u64,
                ) + page_bytes(entries_of(pages))),
                BodyView::Overlay { base, changes } => spec_u32_to_le_bytes(1) + (base.0@ + (
                spec_u64_to_le_bytes(changes.dom().len() as u64) + change_bytes(
                    entries_of(changes),
                ))),
            };
            let parent = match m.parent {
                Some(p) => seq![1u8] + p.0@,
                None => seq![0u8],
            };
            stored is Ok && stored->Ok_0@ == spec_u32_to_le_bytes(m.format_version) + (body + (parent
                + (spec_u64_to_le_bytes(m.created_at_ms) + (spec_u32_to_le_bytes(m.schema_version)
                + (spec_u32_to_le_bytes(m.page_size) + (spec_u32_to_le_bytes(m.depth)
                + spec_u64_to_le_bytes(m.page_count)))))))
        }),
{
    match m@.body {
        BodyView::Flat(pages) => {
            lemma_entries_exist(pages);
            lemma_entry_count(pages);
            lemma_page_bytes(entries_of(pages));
        },
        BodyView::Overlay { base, changes } => {
            lemma_entries_exist(changes);
            lemma_entry_count(changes);
            lemma_change_bytes(entries_of(changes));
        },
    }
}

/// Pages one after the other: the number, and the id.
pub open spec fn page_bytes(s: Seq<(u64, PageId)>) -> Seq<u8>
    decreases s.len(),
{
    if s.len() == 0 {
        Seq::empty()
    } else {
        spec_u64_to_le_bytes(s[0].0) + s[0].1.0@ + page_bytes(s.skip(1))
    }
}

/// Changes one after the other: the number, and a one and the id, or a zero where the page is removed.
pub open spec fn change_bytes(s: Seq<(u64, Option<PageId>)>) -> Seq<u8>
    decreases s.len(),
{
    if s.len() == 0 {
        Seq::empty()
    } else {
        spec_u64_to_le_bytes(s[0].0) + (match s[0].1 {
            Some(p) => seq![1u8] + p.0@,
            None => seq![0u8],
        }) + change_bytes(s.skip(1))
    }
}

proof fn lemma_entry_count<V>(m: Map<u64, V>)
    requires
        m.dom().finite(),
    ensures
        entries_of(m).len() == m.dom().len(),
{
    lemma_entries_exist(m);
    let s = entries_of(m);
    let keys = s.map_values(|e: (u64, V)| e.0);
    lemma_map_of_keys(s);
    assert forall|i: int, j: int|
        0 <= i < keys.len() && 0 <= j < keys.len() && i != j implies keys[i] != keys[j] by {
        if i < j {
            assert(s[i].0 < s[j].0);
        } else {
            assert(s[j].0 < s[i].0);
        }
    }
    keys.unique_seq_to_set();
    assert forall|k: u64| keys.to_set().contains(k) <==> m.dom().contains(k) by {
        if keys.to_set().contains(k) {
            let i = choose|i: int| 0 <= i < keys.len() && keys[i] == k;
            assert(s[i].0 == k);
        }
        if m.dom().contains(k) {
            assert(map_of(s).contains_key(k));
            let i = choose|i: int| 0 <= i < s.len() && (#[trigger] s[i]).0 == k;
            assert(keys[i] == k);
        }
    }
    assert(keys.to_set() =~= m.dom());
}

proof fn lemma_page_bytes(s: Seq<(u64, PageId)>)
    ensures
        wire_items(pages_to_wire(s), wire_page_entry()) == page_bytes(s),
    decreases s.len(),
{
    let w = pages_to_wire(s);
    if s.len() > 0 {
        assert(w.skip(1) =~= pages_to_wire(s.skip(1)));
        assert(w[0] == (s[0].0, s[0].1.0));
        lemma_page_bytes(s.skip(1));
    }
}

proof fn lemma_change_bytes(s: Seq<(u64, Option<PageId>)>)
    ensures
        wire_items(changes_to_wire(s), wire_change_entry()) == change_bytes(s),
    decreases s.len(),
{
    let w = changes_to_wire(s);
    if s.len() > 0 {
        assert(w.skip(1) =~= changes_to_wire(s.skip(1)));
        assert(w[0] == (s[0].0, id_bytes(s[0].1)));
        lemma_change_bytes(s.skip(1));
    }
}

/// The root of a store is empty, was committed on nothing, at no time, and is for pages of the given
/// size.
pub proof fn the_root_is_empty(page_size: usize, m: Manifest)
    requires
        call_ensures(Manifest::empty, (page_size,), m),
        page_size <= u32::MAX,
    ensures
        m@.body == BodyView::Flat(Map::empty()),
        m.parent is None,
        m.created_at_ms == 0 && m.schema_version == 0 && m.depth == 0 && m.page_count == 0,
        m.page_size == page_size,
        m.format_version == 2,
{
}

/// A record is its number, what kind it is, and what it says: numbers with the lowest byte first.
pub proof fn a_record_is_written_field_by_field(r: &Record, framed: Result<Vec<u8>, WalError>)
    requires
        call_ensures(Record::encode, (r,), framed),
    ensures
        ({
            let rest = match r.kind {
                RecordKind::Write { page_no, page } => spec_u32_to_le_bytes(0)
                    + spec_u64_to_le_bytes(page_no) + (match page {
                    Some(p) => seq![1u8] + p.0@,
                    None => seq![0u8],
                }),
                RecordKind::Commit { manifest, created_at_ms } => spec_u32_to_le_bytes(1)
                    + manifest.0@ + spec_u64_to_le_bytes(created_at_ms),
                RecordKind::Checkpoint { manifest } => spec_u32_to_le_bytes(2) + manifest.0@,
            };
            framed is Ok && framed->Ok_0@.skip(8) =~= spec_u64_to_le_bytes(r.lsn) + rest
        }),
{
    vstd::bytes::lemma_auto_spec_u32_to_from_le_bytes();
    assert(framed->Ok_0@.skip(8) =~= crate::record::payload(*r));
}

/// A collection counts what it took and what it left: on a steady and tidy store as many pages and
/// manifests were retained as there are now, and as many swept as were there and are no more. One that
/// fails takes nothing.
pub proof fn a_collection_counts_what_it_took<S: Cas + ManifestStore, C: Clock>(
    a: Pager<S, C>,
    b: Pager<S, C>,
    roots: Seq<ManifestId>,
    r: Result<GcStats, PagerError>,
)
    requires
        collected(a, b, roots, r),
        a.backing().steady(),
        a.backing().tidy(),
        a.backing().held_pages().len() <= u64::MAX && a.backing().held_pages().finite(),
        a.backing().held_manifests().len() <= u64::MAX && a.backing().held_manifests().finite(),
    ensures
        r matches Ok(s) ==> {
            let (pages, manifests) = (a.backing().held_pages(), a.backing().held_manifests());
            &&& s.pages_retained == b.backing().held_pages().len()
            &&& s.manifests_retained == b.backing().held_manifests().len()
            &&& s.pages_swept + s.pages_retained == pages.len()
            &&& s.manifests_swept + s.manifests_retained == manifests.len()
            &&& s.pages_swept == 0 && s.manifests_swept == 0 <==> b.backing().held_pages() == pages
                && b.backing().held_manifests() == manifests
        },
        r is Err ==> b.backing() == a.backing() && b.spec_head() == a.spec_head(),
{
    if let Ok(s) = r {
        lemma_divided(
            a.backing().held_pages(),
            b.backing().held_pages(),
            a.kept_pages(roots),
        );
        lemma_divided(
            a.backing().held_manifests(),
            b.backing().held_manifests(),
            a.kept_manifests(roots),
        );
    }
}

proof fn lemma_divided<K>(all: Set<K>, left: Set<K>, keep: Set<K>)
    requires
        all.finite(),
        left.subset_of(all),
        left.subset_of(keep),
        forall|k: K| #[trigger] keep.contains(k) && all.contains(k) ==> left.contains(k),
    ensures
        all.intersect(keep) == left,
        all.difference(keep).len() + left.len() == all.len(),
        all.difference(keep).len() == 0 <==> left == all,
{
    assert(all.intersect(keep) =~= left);
    vstd::set_lib::lemma_set_disjoint_lens(all.difference(keep), left);
    assert(all.difference(keep) + left =~= all);
    if all.difference(keep).len() == 0 {
        assert(all.difference(keep) =~= Set::empty());
        assert forall|k: K| all.contains(k) implies left.contains(k) by {
            assert(!all.difference(keep).contains(k));
        }
        assert(left =~= all);
    }
    if left == all {
        assert(all.difference(keep) =~= Set::empty());
    }
}

/// Unless something else is said, a store has pages of 64 KiB, known by their plain hash, in a pool
/// called `default`.
pub proof fn a_store_is_plain_unless_said_otherwise(c: StoreConfig)
    requires
        call_ensures(<StoreConfig as Default>::default, (), c),
    ensures
        c.page_size == 65536,
        c.hasher == PageHasher::Unkeyed,
        c.pool@ == "default"@,
        c.policy == IdentityPolicy::Any,
{
}

} // verus!
