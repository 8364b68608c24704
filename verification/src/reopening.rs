//! What holds of a store that was closed, or lost its process, and is opened again on the same
//! files.

use crate::cas::{manifest_put, same_but_manifests, same_manifests, same_pages, Backing};
use crate::chain::{extends, lemma_looked_up_extends};
use crate::clock::Clock;
use crate::durability::{
    a_store_without_a_log_is_in_step, accounted, in_step, lemma_segments_listed, near, recoverable,
    recovery_loses_nothing, what_is_accounted_for_can_be_recovered,
};
use crate::durable::{just_opened, DurableStore};
use crate::fsstore::{manifest_path, under, FsStore};
use crate::laws::no_clash;
use crate::log::{agree, lemma_replay_extends, onto, other_manifests_do_not_matter, Outcome};
use crate::manifest::{empty_view, ManifestId, ManifestView};
use crate::pager::{bytes_at, opened, StoreConfig};
use crate::record::WalError;
use crate::replay::{intact, lemma_put_intact};
use crate::vfs::{dirs_made, is_child, leads_to, Names, Vfs};
use crate::wal::{
    are_segments, begun, is_segment, lemma_segments_are, log, marker, orderly, recovered,
    recovery_of, same_store, segment_number, segments, Recovery, Wal,
};
use vstd::prelude::*;

verus! {

/// A log is what it was where the entries of its directory are.
proof fn lemma_same_entries(
    files: Map<Names, Seq<u8>>,
    dirs: Set<Names>,
    more: Set<Names>,
    dir: Names,
)
    requires
        forall|e: Names| #[trigger]
            is_child(e, dir) ==> (dirs.contains(e) <==> more.contains(e)),
    ensures
        log(files, dirs, dir) == log(files, more, dir),
        orderly(files, dirs, dir) ==> orderly(files, more, dir),
{
    let segs = segments(files, dirs, dir);
    lemma_segments_listed(files, dirs, dir);
    assert forall|n: u64| #[trigger]
        is_segment(files, dirs, dir, n) <==> is_segment(files, more, dir, n) by {
        if is_segment(files, dirs, dir, n) {
            let e = choose|e: Names|
                is_child(e, dir) && (files.contains_key(e) || dirs.contains(e))
                    && #[trigger] segment_number(e.last()) == Some(n);
            assert(files.contains_key(e) || more.contains(e));
        }
        if is_segment(files, more, dir, n) {
            let e = choose|e: Names|
                is_child(e, dir) && (files.contains_key(e) || more.contains(e))
                    && #[trigger] segment_number(e.last()) == Some(n);
            assert(files.contains_key(e) || dirs.contains(e));
        }
    }
    assert(are_segments(segs, files, more, dir));
    lemma_segments_are(segs, files, more, dir);
}

/// What opening a store again does to what it shows.
proof fn lemma_reopened<V: Vfs, C: Clock>(
    d: FsStore<V>,
    vfs: V,
    root: Names,
    config: StoreConfig,
    clock: C,
    e: DurableStore<V, C>,
)
    requires
        d.roots() == seq![root.push("pages"@), root.push("manifests"@)],
        vfs.files() == d.spec_vfs().files(),
        vfs.dirs() == d.spec_vfs().dirs(),
        just_opened(vfs, root, config, clock, e),
        intact(d),
        no_clash(d.manifests(), empty_view(config.page_size)),
    ensures
        ({
            let v = empty_view(config.page_size);
            let (files, dirs) = d.elsewhere();
            let (f, g) = e.backing().elsewhere();
            let dir = e.spec_wal().spec_dir();
            &&& intact(e.backing())
            &&& e.backing().manifests() == d.manifests().insert(v.id(), v)
            &&& d.hasher() == config.hasher ==> same_pages(d, e.backing())
            &&& f == files
            &&& orderly(files, dirs, dir) ==> orderly(f, g, dir)
            &&& log(f, g, dir) == log(files, dirs, dir)
        }),
{
    let v = empty_view(config.page_size);
    let b = e.backing();
    let dir = e.spec_wal().spec_dir();
    let mid = choose|mid: FsStore<V>| #[trigger]
        opened(vfs, mid, v) && same_store(mid, b) && same_manifests(mid, b)
            && b.elsewhere().0 == mid.elsewhere().0 && dirs_made(
            mid.elsewhere().1,
            b.elsewhere().1,
            dir,
            dir,
        );
    let a = choose|a: FsStore<V>| #[trigger]
        manifest_put(a, mid, v) && same_but_manifests(a, mid) && a.inv() && a.spec_vfs().files()
            == vfs.files() && dirs_made(
            vfs.dirs(),
            a.spec_vfs().dirs(),
            mid.roots()[0],
            mid.roots()[1],
        );
    a.shows();
    d.shows();
    assert(a.roots() == d.roots());
    assert(intact(a));
    lemma_put_intact(a, mid, v);
    assert(a.elsewhere().0 =~= d.elsewhere().0);
    assert forall|c: Names| #[trigger]
        is_child(c, dir) implies (d.elsewhere().1.contains(c) <==> b.elsewhere().1.contains(c)) by {
        assert(c.len() == dir.len() + 1);
        assert(!leads_to(c, dir));
        assert(!leads_to(c, a.roots()[0]));
        assert(!leads_to(c, a.roots()[1]));
    }
    lemma_same_entries(d.elsewhere().0, d.elsewhere().1, b.elsewhere().1, dir);
}

/// A store that can be recovered to some head is recovered to the same head once it was closed, or
/// its process was lost, and it is opened again on the same files; and its pages and manifests are
/// all there.
pub proof fn reopening_loses_nothing<V: Vfs, C: Clock>(
    d: FsStore<V>,
    vfs: V,
    root: Names,
    config: StoreConfig,
    clock: C,
    e: DurableStore<V, C>,
    head: ManifestId,
)
    requires
        d.roots() == seq![root.push("pages"@), root.push("manifests"@)],
        vfs.files() == d.spec_vfs().files(),
        vfs.dirs() == d.spec_vfs().dirs(),
        just_opened(vfs, root, config, clock, e),
        recoverable(d, root.push("wal"@), empty_view(config.page_size), head),
        unclashing(d, root.push("wal"@), empty_view(config.page_size)),
    ensures
        recoverable(e.backing(), root.push("wal"@), empty_view(config.page_size), head),
        extends(d.manifests(), e.backing().manifests()),
        d.hasher() == config.hasher ==> same_pages(d, e.backing()),
{
    let v = empty_view(config.page_size);
    let dir = root.push("wal"@);
    let (files, dirs) = d.elsewhere();
    let ms = d.manifests();
    let mark = marker(files, dir);
    let recs = log(files, dirs, dir);
    let st = begun(ms, ms.dom(), mark, v, 0);
    let end = recovery_of(ms, ms.dom(), files, dirs, dir, v, 0)->Fine_0;
    let more = ms.insert(v.id(), v);
    lemma_replay_extends(st, recs);
    assert(no_clash(ms, v));
    lemma_reopened(d, vfs, root, config, clock, e);
    assert(e.backing().held_manifests() == more.dom());
    match mark {
        Some((manifest, lsn)) => {
            assert(extends(st.ms, more));
            assert(agree(more, end.ms));
            other_manifests_do_not_matter(st, more, recs);
            assert(begun(more, more.dom(), mark, v, 0) == onto(st, more));
        },
        None => {
            assert(more.dom().insert(v.id()) =~= more.dom());
            assert(ms.contains_key(v.id()) ==> more =~= ms);
        },
    }
}

/// No other manifest has the root's id, in the store or among those that recovering it brings back.
pub open spec fn unclashing<B: Backing>(b: B, dir: Names, root: ManifestView) -> bool {
    let (files, dirs) = b.elsewhere();
    recovery_of(
        b.manifests(),
        b.held_manifests(),
        files,
        dirs,
        dir,
        root,
        0,
    ) matches Outcome::Fine(end) ==> no_clash(end.ms, root)
}

/// What is accounted for survives: once the store is opened again, recovering gives the head that
/// its log led to, or one that a failed operation tried to reach.
pub proof fn what_is_accounted_for_survives<V: Vfs, C: Clock>(
    d: FsStore<V>,
    w: Wal,
    vfs: V,
    root: Names,
    config: StoreConfig,
    clock: C,
    e: DurableStore<V, C>,
    at: ManifestId,
    tried: Set<ManifestId>,
)
    requires
        d.roots() == seq![root.push("pages"@), root.push("manifests"@)],
        w.spec_dir() == root.push("wal"@),
        vfs.files() == d.spec_vfs().files(),
        vfs.dirs() == d.spec_vfs().dirs(),
        just_opened(vfs, root, config, clock, e),
        accounted(d, w, empty_view(config.page_size), at, tried),
        unclashing(d, w.spec_dir(), empty_view(config.page_size)),
    ensures
        near(e.backing(), w.spec_dir(), empty_view(config.page_size), at, tried),
{
    let v = empty_view(config.page_size);
    let dir = w.spec_dir();
    what_is_accounted_for_can_be_recovered(d, w, v, at, tried);
    let h = if recoverable(d, dir, v, at) {
        at
    } else {
        choose|h: ManifestId| tried.contains(h) && #[trigger] recoverable(d, dir, v, h)
    };
    reopening_loses_nothing(d, vfs, root, config, clock, e, h);
    assert(recoverable(e.backing(), dir, v, h));
}

/// What a commit acknowledged is there after the store is opened again and recovered: the head is
/// the manifest that the commit gave, every page of it has the bytes that it had, and the store is in
/// step with its log. On a steady store the recovery goes through; where it fails it can be run
/// again, to the same head.
pub proof fn an_acknowledged_commit_is_recovered<V: Vfs, C: Clock>(
    d: FsStore<V>,
    w: Wal,
    vfs: V,
    root: Names,
    config: StoreConfig,
    clock: C,
    e: DurableStore<V, C>,
    id: ManifestId,
    b: FsStore<V>,
    x: Wal,
    head: ManifestId,
    r: Result<Recovery, WalError>,
)
    requires
        d.roots() == seq![root.push("pages"@), root.push("manifests"@)],
        w.spec_dir() == root.push("wal"@),
        in_step(d, w, empty_view(config.page_size), id),
        unclashing(d, w.spec_dir(), empty_view(config.page_size)),
        vfs.files() == d.spec_vfs().files(),
        vfs.dirs() == d.spec_vfs().dirs(),
        just_opened(vfs, root, config, clock, e),
        recovered(e.backing(), b, e.spec_wal(), x, empty_view(config.page_size), head, r),
        x.spec_dir() == w.spec_dir(),
        same_store(e.backing(), b),
    ensures
        r is Ok ==> head == id && in_step(b, x, empty_view(config.page_size), id),
        r is Ok && d.hasher() == config.hasher ==> forall|k: u64|
            bytes_at(d, id, k) is Some ==> #[trigger] bytes_at(b, id, k) == bytes_at(d, id, k),
        r is Err ==> recoverable(b, w.spec_dir(), empty_view(config.page_size), id),
        vfs.steady() ==> r is Ok,
{
    let v = empty_view(config.page_size);
    what_is_accounted_for_can_be_recovered(d, w, v, id, Set::empty());
    reopening_loses_nothing(d, vfs, root, config, clock, e, id);
    recovery_loses_nothing(e.backing(), b, e.spec_wal(), x, v, head, r, id);
    if r is Ok && d.hasher() == config.hasher {
        assert forall|k: u64| bytes_at(d, id, k) is Some implies #[trigger] bytes_at(b, id, k)
            == bytes_at(d, id, k) by {
            assert(extends(d.manifests(), b.manifests()));
            lemma_looked_up_extends(d.manifests(), b.manifests(), id, k);
        }
    }
}

/// Nothing is there below this directory.
pub open spec fn nothing_below(files: Map<Names, Seq<u8>>, dirs: Set<Names>, root: Names) -> bool {
    forall|f: Names|
        under(root, f) && f != root ==> !(#[trigger] files.contains_key(f)) && !dirs.contains(f)
}

/// A store that is opened where nothing was before is in step with its log, at its empty root.
pub proof fn a_fresh_store_is_in_step<V: Vfs, C: Clock>(
    vfs: V,
    root: Names,
    config: StoreConfig,
    clock: C,
    e: DurableStore<V, C>,
)
    requires
        nothing_below(vfs.files(), vfs.dirs(), root),
        just_opened(vfs, root, config, clock, e),
    ensures
        in_step(
            e.backing(),
            e.spec_wal(),
            empty_view(config.page_size),
            empty_view(config.page_size).id(),
        ),
        e.spec_at() == empty_view(config.page_size).id(),
{
    let v = empty_view(config.page_size);
    let b = e.backing();
    let w = e.spec_wal();
    let dir = w.spec_dir();
    let mid = choose|mid: FsStore<V>| #[trigger]
        opened(vfs, mid, v) && same_store(mid, b) && same_manifests(mid, b) && b.elsewhere().0
            == mid.elsewhere().0 && dirs_made(mid.elsewhere().1, b.elsewhere().1, dir, dir);
    let a = choose|a: FsStore<V>| #[trigger]
        manifest_put(a, mid, v) && same_but_manifests(a, mid) && a.inv() && a.spec_vfs().files()
            == vfs.files() && dirs_made(
            vfs.dirs(),
            a.spec_vfs().dirs(),
            mid.roots()[0],
            mid.roots()[1],
        );
    a.shows();
    assert forall|id: ManifestId| !(#[trigger] a.held_manifests().contains(id)) by {
        let f = manifest_path(a.roots()[1], id);
        assert(f.take(root.len() as int) =~= root);
    }
    assert(a.held_manifests() =~= a.manifests().dom());
    assert(intact(a));
    lemma_put_intact(a, mid, v);
    assert forall|c: Names| #[trigger] is_child(c, dir) implies !b.elsewhere().0.contains_key(c)
        && !b.elsewhere().1.contains(c) by {
        assert(c.len() == dir.len() + 1);
        assert(c.take(root.len() as int) =~= c.drop_last().drop_last());
        assert(dir.drop_last() =~= root);
        assert(!vfs.files().contains_key(c) && !vfs.dirs().contains(c));
        assert(!leads_to(c, dir));
        assert(!leads_to(c, a.roots()[0]));
        assert(!leads_to(c, a.roots()[1]));
    }
    assert(w.spec_bytes() == 0) by {
        if is_segment(b.elsewhere().0, b.elsewhere().1, dir, w.spec_current()) {
            let c = choose|c: Names|
                is_child(c, dir) && (b.elsewhere().0.contains_key(c) || b.elsewhere().1.contains(c))
                    && #[trigger] segment_number(c.last()) == Some(w.spec_current());
            assert(is_child(c, dir));
        }
    }
    a_store_without_a_log_is_in_step(b, w, v);
}

} // verus!
