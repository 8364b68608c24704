//! A page store whose commits survive a crash.

use crate::cas::{is_failure, manifest_put, same_manifests, Backing};
use crate::chain::{changes_something, derivable, derived, resolved};
use crate::clock::{may_say, Clock};
use crate::error::PagerError;
use crate::fsstore::{outside, same_under, FsStore};
use crate::log::{frames, txn_records};
use crate::manifest::{empty_view, ManifestId, ManifestView};
use crate::page::{LogicalPageNo, Page, PageId};
use crate::pagemap::entries_of;
use crate::pager::{
    opened, read_outcome, staged_write, underivable, unpinned, PageStore, Pager, StoreConfig, Txn,
};
use crate::path::VPath;
use crate::replay::is_replay_error;
use crate::record::{a_framed_record_reads_back, frame, Lsn, Record, RecordKind, WalError};
use crate::vfs::{appended, dirs_made, is_child, leads_to, Names, Vfs};
use crate::wal::{
    a_segment_is_named_by_its_number, apart, at_last_segment, checkpoint_failed, checkpoint_path,
    cleared, clearing_removes_older_segments_alone, is_segment, lemma_log_is_outside,
    lemma_segment_paths, made_dirs, marker, misnamed, old_segment, orderly,
    partly_appended, partly_cleared, recovered, recovered_by_number, rolled, same_end, same_pager,
    same_store, same_wal, says_misnamed, segment_path, settling, Recovery, Wal,
};
use vstd::prelude::*;

verus! {

/// A page store together with its log: the head survives the process, and a crash lands between
/// transactions, never inside one.
pub struct DurableStore<V: Vfs, C: Clock> {
    pager: Pager<FsStore<V>, C>,
    wal: Wal,
    /// The head that the log leads to. The store's own differs from it where it was moved by hand.
    at: ManifestId,
}

/// The log's directory and what is above it exist.
pub open spec fn housed(dirs: Set<Names>, dir: Names) -> bool {
    forall|p: Names| leads_to(p, dir) ==> #[trigger] dirs.contains(p)
}

/// What committing does: nothing where the transaction changes nothing. Otherwise the transaction
/// is logged first, and then its manifest is stored.
pub open spec fn logged<B: Backing>(
    a: B,
    b: B,
    w: Wal,
    x: Wal,
    base: ManifestId,
    writes: Map<u64, Option<PageId>>,
    now_ms: u64,
    r: Result<ManifestId, WalError>,
) -> bool {
    let m = derived(a.manifests(), base, writes, now_ms);
    let (files, dirs) = a.elsewhere();
    let path = segment_path(w.spec_dir(), w.spec_current());
    let bytes = frames(txn_records(w.spec_next_lsn(), entries_of(writes), m.id(), now_ms));
    let n = writes.dom().len();
    let unchanged = b.held_manifests() == a.held_manifests() && b.manifests() == a.manifests();
    &&& same_store(a, b)
    &&& b.elsewhere().1 == dirs
    &&& x.spec_dir() == w.spec_dir()
    &&& match r {
        Ok(id) => if changes_something(a.manifests(), base, writes) {
            &&& derivable(a.manifests(), base, writes)
            &&& id == m.id()
            &&& manifest_put(a, b, m)
            &&& b.elsewhere().0 == appended(files, path, bytes)
            &&& x.spec_next_lsn() == w.spec_next_lsn() + n + 1
            &&& (x.spec_current(), x.spec_bytes()) == rolled(
                w.spec_current(),
                w.spec_bytes(),
                bytes.len(),
            )
            &&& !x.spec_doubt()
        } else {
            &&& derivable(a.manifests(), base, writes)
            &&& id == base
            &&& unchanged
            &&& b.elsewhere().0 == files
            &&& same_wal(w, x)
        },
        Err(WalError::Pager(e)) => {
            ||| unchanged && b.elsewhere().0 == files && same_wal(w, x) && ((!a.steady()
                && is_failure(e@)) || (!derivable(a.manifests(), base, writes) && underivable(
                    a,
                    base,
                    writes,
                    e@,
                )))
            ||| !a.steady() && derivable(a.manifests(), base, writes) && changes_something(
                a.manifests(),
                base,
                writes,
            ) && (manifest_put(a, b, m) || unchanged) && b.elsewhere().0 == appended(
                files,
                path,
                bytes,
            ) && x.spec_next_lsn() == w.spec_next_lsn() + n + 1 && same_end(w, x) && x.spec_doubt()
        },
        Err(e) => e is Io && !a.steady() && derivable(a.manifests(), base, writes)
            && changes_something(a.manifests(), base, writes) && unchanged && partly_appended(
            files,
            b.elsewhere().0,
            path,
            bytes,
        ) && x.spec_next_lsn() == w.spec_next_lsn() + n + 1 && same_end(w, x) && x.spec_doubt(),
    }
}

/// What committing does, whatever came before it. What is in doubt at the log's end is cut off, and
/// where the store's head is not the one that the log leads to, it is noted in the log; then the
/// transaction is logged and stored. Where one step fails, the ones behind it are not taken.
pub open spec fn logged_from<B: Backing>(
    a: B,
    b: B,
    w: Wal,
    x: Wal,
    at: ManifestId,
    now_at: ManifestId,
    base: ManifestId,
    writes: Map<u64, Option<PageId>>,
    now_ms: u64,
    r: Result<ManifestId, WalError>,
) -> bool {
    ||| exists|mid: B, v: Wal| #[trigger]
        ready_to_log(a, mid, w, v, at, base) && logged(mid, b, v, x, base, writes, now_ms, r)
            && now_at == (match r {
            Ok(id) => id,
            Err(_) => base,
        })
    ||| now_at == at && (r matches Err(e) && not_ready(a, b, w, x, at, base, writes, e))
}

/// The log's end was settled, and it leads to this head now.
pub open spec fn ready_to_log<B: Backing>(
    a: B,
    b: B,
    w: Wal,
    x: Wal,
    at: ManifestId,
    head: ManifestId,
) -> bool {
    exists|mid: B, v: Wal| #[trigger]
        settled_to(a, mid, w, v) && headed(mid, b, v, x, at, head, Ok(()))
}

/// The log's end could not be settled, or the transaction not be derived, or the head not be noted.
pub open spec fn not_ready<B: Backing>(
    a: B,
    b: B,
    w: Wal,
    x: Wal,
    at: ManifestId,
    head: ManifestId,
    writes: Map<u64, Option<PageId>>,
    e: WalError,
) -> bool {
    ||| unsettled(a, b, w, x, e)
    ||| settled_to(a, b, w, x) && (e matches WalError::Pager(f) && ((!a.steady() && is_failure(f@))
        || (!derivable(a.manifests(), head, writes) && underivable(b, head, writes, f@))))
    ||| exists|mid: B, v: Wal| #[trigger]
        settled_to(a, mid, w, v) && headed(mid, b, v, x, at, head, Err(e))
}

/// What noting the store's head in the log does: nothing where the log leads there already.
pub open spec fn headed<B: Backing>(
    a: B,
    b: B,
    w: Wal,
    x: Wal,
    at: ManifestId,
    head: ManifestId,
    r: Result<(), WalError>,
) -> bool {
    let (files, dirs) = a.elsewhere();
    let lsn = w.spec_next_lsn();
    let path = segment_path(w.spec_dir(), w.spec_current());
    let bytes = frame(Record { lsn, kind: RecordKind::Checkpoint { manifest: head } });
    &&& same_store(a, b)
    &&& same_manifests(a, b)
    &&& b.elsewhere().1 == dirs
    &&& x.spec_dir() == w.spec_dir()
    &&& if at == head {
        r is Ok && b.elsewhere().0 == files && same_wal(w, x)
    } else {
        &&& a.manifests().contains_key(head)
        &&& x.spec_next_lsn() == lsn + 1
        &&& match r {
            Ok(()) => !x.spec_doubt() && (x.spec_current(), x.spec_bytes()) == rolled(
                w.spec_current(),
                w.spec_bytes(),
                bytes.len(),
            ) && b.elsewhere().0 == appended(files, path, bytes),
            Err(e) => !a.steady() && e is Io && x.spec_doubt() && same_end(w, x) && partly_appended(
                files,
                b.elsewhere().0,
                path,
                bytes,
            ),
        }
    }
}

/// The log's end was settled, and everything else is as it was.
pub open spec fn settled_to<B: Backing>(a: B, b: B, w: Wal, x: Wal) -> bool {
    &&& settling(a, b, w, x, Ok(()))
    &&& same_store(a, b)
    &&& same_manifests(a, b)
}

/// The log's end could not be settled, and everything else is as it was.
pub open spec fn unsettled<B: Backing>(a: B, b: B, w: Wal, x: Wal, e: WalError) -> bool {
    &&& settling(a, b, w, x, Err(e))
    &&& same_store(a, b)
    &&& same_manifests(a, b)
}

/// A file of the log that was written is the only thing that changed.
proof fn lemma_log_written<V: Vfs, C: Clock>(
    a: &Pager<FsStore<V>, C>,
    b: &Pager<FsStore<V>, C>,
    dir: Names,
)
    requires
        a.wf(),
        b.cached() == a.cached(),
        b.spec_head() == a.spec_head(),
        b.pin_counts() == a.pin_counts(),
        b.spec_config() == a.spec_config(),
        b.spec_clock() == a.spec_clock(),
        b.backing().inv(),
        b.backing().roots() == a.backing().roots(),
        b.backing().hasher() == a.backing().hasher(),
        b.backing().spec_vfs().steady() == a.backing().spec_vfs().steady(),
        apart(a.backing().roots(), dir),
        housed(a.backing().elsewhere().1, dir),
        made_dirs(a.backing().spec_vfs().dirs(), b.backing().spec_vfs().dirs(), dir),
        forall|f: Names|
            #![trigger a.backing().spec_vfs().files().contains_key(f)]
            #![trigger b.backing().spec_vfs().files().contains_key(f)]
            !is_child(f, dir) ==> (a.backing().spec_vfs().files().contains_key(f)
                <==> b.backing().spec_vfs().files().contains_key(f)) && (
            a.backing().spec_vfs().files().contains_key(f) ==> a.backing().spec_vfs().files()[f]
                == b.backing().spec_vfs().files()[f]),
    ensures
        b.wf(),
        same_pager(a, b),
        b.backing().elsewhere().1 == a.backing().elsewhere().1,
        a.backing().elsewhere() == outside(
            a.backing().spec_vfs().files(),
            a.backing().spec_vfs().dirs(),
            a.backing().roots()[0],
            a.backing().roots()[1],
        ),
        b.backing().elsewhere() == outside(
            b.backing().spec_vfs().files(),
            b.backing().spec_vfs().dirs(),
            a.backing().roots()[0],
            a.backing().roots()[1],
        ),
{
    let roots = a.backing().roots();
    let (f, g) = (a.backing().spec_vfs().files(), b.backing().spec_vfs().files());
    let (d, e) = (a.backing().spec_vfs().dirs(), b.backing().spec_vfs().dirs());
    a.lemma_wf();
    a.backing().shows();
    b.backing().shows();
    assert(same_under(f, g, roots[0], roots[1])) by {
        assert forall|p: Names| is_child(p, dir) implies !crate::fsstore::under(roots[0], p)
            && !crate::fsstore::under(roots[1], p) by {
            assert(p.take(dir.len() as int) =~= dir);
        }
    }
    Pager::lemma_lent(a, b);
    assert(d =~= e) by {
        assert forall|p: Names| e.contains(p) implies d.contains(p) by {
            if leads_to(p, dir) {
                assert(a.backing().elsewhere().1.contains(p));
            }
        }
    }
}

/// Outside the roots, writing a file of the log is writing that file.
proof fn lemma_outside_insert(
    files: Map<Names, Seq<u8>>,
    dirs: Set<Names>,
    roots: Seq<Names>,
    dir: Names,
    path: Names,
    bytes: Seq<u8>,
    keep: int,
)
    requires
        apart(roots, dir),
        is_child(path, dir),
    ensures
        outside(files.insert(path, bytes), dirs, roots[0], roots[1]).0 == outside(
            files,
            dirs,
            roots[0],
            roots[1],
        ).0.insert(path, bytes),
        outside(appended(files, path, bytes), dirs, roots[0], roots[1]).0 == appended(
            outside(files, dirs, roots[0], roots[1]).0,
            path,
            bytes,
        ),
        outside(cleared(files, dir, keep), dirs, roots[0], roots[1]).0 == cleared(
            outside(files, dirs, roots[0], roots[1]).0,
            dir,
            keep,
        ),
{
    assert(path.take(dir.len() as int) =~= dir);
    let g = outside(files, dirs, roots[0], roots[1]).0;
    assert(outside(files.insert(path, bytes), dirs, roots[0], roots[1]).0 =~= g.insert(path, bytes));
    assert(outside(appended(files, path, bytes), dirs, roots[0], roots[1]).0 =~= appended(
        g,
        path,
        bytes,
    ));
    assert(outside(cleared(files, dir, keep), dirs, roots[0], roots[1]).0 =~= cleared(g, dir, keep));
}

impl<V: Vfs, C: Clock> DurableStore<V, C> {
    /// The page store.
    pub closed spec fn spec_pager(&self) -> Pager<FsStore<V>, C> {
        self.pager
    }

    /// The log.
    pub closed spec fn spec_wal(&self) -> Wal {
        self.wal
    }

    /// The head that the log leads to.
    pub closed spec fn spec_at(&self) -> ManifestId {
        self.at
    }

    /// What a transaction is committed on: the manifest that it began on, where the log leads there,
    /// and else the current head.
    pub open spec fn base_for(&self, txn: &Txn) -> ManifestId {
        if txn.spec_base() == self.spec_at() {
            self.spec_at()
        } else {
            self.spec_pager().spec_head()
        }
    }

    /// The page store is in order, and the log stands beside it.
    pub open spec fn wf(&self) -> bool {
        &&& self.spec_pager().wf()
        &&& apart(self.spec_pager().backing().roots(), self.spec_wal().spec_dir())
        &&& housed(self.spec_pager().backing().elsewhere().1, self.spec_wal().spec_dir())
    }

    /// The pages, the manifests and the files.
    pub open spec fn backing(&self) -> FsStore<V> {
        self.spec_pager().backing()
    }

    /// The log has numbers left for this many more writes with what goes around them, and for two
    /// segments after this one.
    pub open spec fn has_room(&self, writes: nat) -> bool {
        &&& self.spec_wal().spec_current() + 1 < u64::MAX
        &&& self.spec_wal().spec_next_lsn() + writes + 1 < u64::MAX
    }

    /// Whether the log has numbers left for this many more writes.
    pub fn room_for(&self, writes: usize) -> (r: bool)
        ensures
            r == self.has_room(writes as nat),
    {
        let lsn = self.wal.next_lsn();
        self.wal.current_segment() < u64::MAX - 1 && lsn < u64::MAX - 1 && (writes as u64)
            < u64::MAX - 1 - lsn
    }

    /// Opens, or creates, a durable store. Recovery is a separate act.
    pub fn open_with_clock(vfs: V, root: &VPath, config: StoreConfig, clock: C) -> (r: Result<
        DurableStore<V, C>,
        WalError,
    >)
        requires
            vfs.inv(),
        ensures
            match r {
                Ok(d) => config.refusal() is None && just_opened(vfs, root@, config, clock, d),
                Err(WalError::Pager(e)) => config.refusal() == Some(e@) || (config.refusal() is None
                    && !vfs.steady() && is_failure(e@)),
                Err(e) => e is Io && !vfs.steady(),
            },
    {
        let mut pager = match Pager::open_with(vfs, root, config, clock) {
            Ok(p) => p,
            Err(e) => {
                return Err(WalError::Pager(e));
            },
        };
        let ghost first = pager;
        let ghost dir = root@.push("wal"@);
        let ghost roots = pager.backing().roots();
        proof {
            reveal_strlit("wal");
            reveal_strlit("pages");
            reveal_strlit("manifests");
            assert(roots[0].last() == "pages"@);
            assert(roots[1].last() == "manifests"@);
            assert(dir.last() == "wal"@);
            pager.lemma_wf();
            pager.backing().shows();
        }
        let wal = match Wal::open(pager.vfs_mut(), root) {
            Ok(w) => w,
            Err(e) => {
                return Err(e);
            },
        };
        proof {
            pager.backing().shows();
            let (f, g) = (first.backing().spec_vfs().files(), pager.backing().spec_vfs().files());
            assert(same_under(f, g, roots[0], roots[1]));
            Pager::lemma_lent(&first, &pager);
            assert forall|p: Names| leads_to(p, dir) implies #[trigger] pager.backing().elsewhere().1.contains(
                p,
            ) by {
                assert(pager.backing().spec_vfs().dirs().contains(p));
                if crate::fsstore::under(roots[0], p) {
                    assert(p.take(roots[0].len() as int) =~= p);
                    assert(dir.take(p.len() as int) =~= dir);
                }
                if crate::fsstore::under(roots[1], p) {
                    assert(p.take(roots[1].len() as int) =~= p);
                    assert(dir.take(p.len() as int) =~= dir);
                }
            }
            assert(pager.backing().elsewhere().0 =~= first.backing().elsewhere().0);
            let (f, d) = (pager.backing().spec_vfs().files(), pager.backing().spec_vfs().dirs());
            let (g, e) = pager.backing().elsewhere();
            lemma_log_is_outside(f, d, roots, dir);
            a_segment_is_named_by_its_number(dir, wal.spec_current());
            assert(f.contains_key(segment_path(dir, wal.spec_current())) <==> g.contains_key(
                segment_path(dir, wal.spec_current()),
            ));
            assert forall|k: u64| #[trigger] is_segment(g, e, dir, k) implies k
                <= wal.spec_current() by {
                assert(is_segment(f, d, dir, k));
            }
        }
        let at = pager.head();
        Ok(DurableStore { pager, wal, at })
    }

    /// Replays the log: the store gets the head back that it had before it died.
    pub fn recover(&mut self) -> (r: Result<Recovery, WalError>)
        requires
            old(self).wf(),
        ensures
            final(self).wf(),
            final(self).spec_pager().pin_counts() == old(self).spec_pager().pin_counts(),
            final(self).spec_pager().spec_config() == old(self).spec_pager().spec_config(),
            final(self).spec_pager().spec_clock() == old(self).spec_pager().spec_clock(),
            same_store(old(self).backing(), final(self).backing()),
            final(self).spec_wal().spec_dir() == old(self).spec_wal().spec_dir(),
            final(self).spec_at() == final(self).spec_pager().spec_head(),
            r is Ok ==> final(self).backing().held_manifests().contains(
                final(self).spec_pager().spec_head(),
            ),
            ({
                let (files, dirs) = old(self).backing().elsewhere();
                let dir = old(self).spec_wal().spec_dir();
                &&& misnamed(files, dirs, dir) ==> r is Err
                &&& old(self).backing().steady() && r is Err ==> is_replay_error(r->Err_0)
                    || says_misnamed(files, dirs, dir, r->Err_0)
                &&& recovered_by_number(
                    old(self).backing(),
                    final(self).backing(),
                    old(self).spec_wal(),
                    final(self).spec_wal(),
                    empty_view(old(self).spec_pager().spec_config().page_size),
                    final(self).spec_pager().spec_head(),
                    r,
                )
            }),
            ({
                let (files, dirs) = old(self).backing().elsewhere();
                orderly(files, dirs, old(self).spec_wal().spec_dir()) ==> recovered(
                    old(self).backing(),
                    final(self).backing(),
                    old(self).spec_wal(),
                    final(self).spec_wal(),
                    empty_view(old(self).spec_pager().spec_config().page_size),
                    final(self).spec_pager().spec_head(),
                    r,
                )
            }),
    {
        let r = self.wal.recover(&mut self.pager);
        self.at = self.pager.head();
        r
    }

    /// Begins a transaction on the current head.
    pub fn begin(&self) -> (r: Result<Txn, WalError>)
        requires
            self.wf(),
        ensures
            r is Ok,
            r->Ok_0.spec_base() == self.spec_pager().spec_head(),
            r->Ok_0.staged() == Map::<u64, Option<PageId>>::empty(),
            r->Ok_0.spec_pinned() == Seq::<PageId>::empty(),
    {
        match self.pager.begin() {
            Ok(t) => Ok(t),
            Err(e) => Err(WalError::Pager(e)),
        }
    }

    /// Stages a page: its bytes are stored, but nothing refers to them before the commit.
    pub fn write(&mut self, txn: &mut Txn, page_no: LogicalPageNo, bytes: Vec<u8>) -> (r: Result<
        PageId,
        WalError,
    >)
        requires
            old(self).wf(),
        ensures
            final(self).wf(),
            final(self).spec_wal() == old(self).spec_wal(),
            final(self).spec_at() == old(self).spec_at(),
            r is Err ==> r->Err_0 is Pager,
            staged_write(
                old(self).spec_pager(),
                final(self).spec_pager(),
                *old(txn),
                *final(txn),
                page_no,
                bytes@,
                match r {
                    Ok(id) => Ok(id),
                    Err(e) => Err(e->Pager_0),
                },
            ),
    {
        match self.pager.write(txn, page_no, bytes) {
            Ok(id) => Ok(id),
            Err(e) => Err(WalError::Pager(e)),
        }
    }

    /// Stages the removal of a page.
    pub fn remove(&self, txn: &mut Txn, page_no: LogicalPageNo) -> (r: Result<(), WalError>)
        requires
            self.wf(),
        ensures
            r is Ok,
            final(txn).staged() == old(txn).staged().insert(page_no, None),
            final(txn).spec_base() == old(txn).spec_base(),
            final(txn).spec_pinned() == old(txn).spec_pinned(),
    {
        match self.pager.remove(txn, page_no) {
            Ok(()) => Ok(()),
            Err(e) => Err(WalError::Pager(e)),
        }
    }

    /// Commits at a given time: on top of the manifest that the transaction began on, where the log
    /// still leads there, and else on top of the current head, so that what was committed since the
    /// transaction began stays. What an earlier failure left at the end of the log is cut off first,
    /// and a head that was moved by hand is noted there. When this gives the manifest, the
    /// transaction has happened.
    pub fn commit_at(&mut self, txn: Txn, created_at_ms: u64) -> (r: Result<ManifestId, WalError>)
        requires
            old(self).wf(),
            old(self).has_room(txn.staged().dom().len()),
        ensures
            final(self).wf(),
            final(self).spec_pager().spec_config() == old(self).spec_pager().spec_config(),
            final(self).spec_pager().spec_clock() == old(self).spec_pager().spec_clock(),
            final(self).spec_pager().pin_counts() == unpinned(
                old(self).spec_pager().pin_counts(),
                txn.spec_pinned(),
            ),
            logged_from(
                old(self).backing(),
                final(self).backing(),
                old(self).spec_wal(),
                final(self).spec_wal(),
                old(self).spec_at(),
                final(self).spec_at(),
                old(self).base_for(&txn),
                txn.staged(),
                created_at_ms,
                r,
            ),
            final(self).spec_pager().spec_head() == (match r {
                Ok(id) => if changes_something(
                    old(self).backing().manifests(),
                    old(self).base_for(&txn),
                    txn.staged(),
                ) {
                    id
                } else {
                    old(self).spec_pager().spec_head()
                },
                Err(_) => old(self).spec_pager().spec_head(),
            }),
    {
        let base = if txn.base() == self.at {
            self.at
        } else {
            self.pager.head()
        };
        match self.wal.settle(&mut self.pager) {
            Ok(()) => {},
            Err(e) => {
                self.pager.abandon(txn);
                return Err(e);
            },
        }
        let ghost (settled, v) = (self.pager.backing(), self.wal);
        assert(settled_to(old(self).backing(), settled, old(self).spec_wal(), v));
        let next = match self.pager.derive_next(base, txn.writes(), created_at_ms) {
            Ok(n) => n,
            Err(e) => {
                self.pager.abandon(txn);
                return Err(WalError::Pager(e));
            },
        };
        match self.note_head(base) {
            Ok(()) => {},
            Err(e) => {
                self.pager.abandon(txn);
                return Err(e);
            },
        }
        assert(ready_to_log(
            old(self).backing(),
            self.pager.backing(),
            old(self).spec_wal(),
            self.wal,
            old(self).spec_at(),
            base,
        ));
        let (current, bytes) = (self.wal.current_segment(), self.wal.current_len());
        let (manifest, id) = match next {
            Some(d) => d,
            None => {
                self.pager.abandon(txn);
                return Ok(base);
            },
        };
        let ghost mid = self.pager;
        let ghost dir = self.wal.spec_dir();
        let ghost w = self.wal;
        let ghost path = segment_path(dir, w.spec_current());
        let ghost framed = frames(
            txn_records(w.spec_next_lsn(), entries_of(txn.staged()), id, created_at_ms),
        );
        proof {
            self.pager.lemma_wf();
            self.pager.backing().shows();
            a_segment_is_named_by_its_number(dir, w.spec_current());
        }
        let r = self.wal.commit(self.pager.vfs_mut(), txn.writes(), id, created_at_ms);
        proof {
            let (d, roots) = (mid.backing().spec_vfs().dirs(), mid.backing().roots());
            let (f, g) = (
                mid.backing().spec_vfs().files(),
                self.pager.backing().spec_vfs().files(),
            );
            self.pager.backing().shows();
            lemma_log_written(&mid, &self.pager, dir);
            lemma_outside_insert(f, d, roots, dir, path, framed, 0);
            if r is Err && g != f {
                let k = choose|k: int|
                    0 <= k <= framed.len() && g == appended(f, path, #[trigger] framed.take(k));
                lemma_outside_insert(f, d, roots, dir, path, framed.take(k), 0);
            }
        }
        match r {
            Ok(_) => {},
            Err(e) => {
                self.pager.abandon(txn);
                return Err(e);
            },
        }
        match self.pager.install(&manifest) {
            Ok(_) => {},
            Err(e) => {
                self.wal.take_back(current, bytes);
                self.pager.abandon(txn);
                return Err(WalError::Pager(e));
            },
        }
        self.pager.abandon(txn);
        self.at = id;
        Ok(id)
    }

    /// Notes a manifest in the log, where the log does not lead there.
    fn note_head(&mut self, head: ManifestId) -> (r: Result<(), WalError>)
        requires
            old(self).wf(),
            old(self).backing().manifests().contains_key(head),
            !old(self).spec_wal().spec_doubt(),
            old(self).spec_wal().spec_current() < u64::MAX,
            old(self).spec_wal().spec_next_lsn() < u64::MAX,
        ensures
            final(self).wf(),
            same_pager(&old(self).spec_pager(), &final(self).spec_pager()),
            headed(
                old(self).backing(),
                final(self).backing(),
                old(self).spec_wal(),
                final(self).spec_wal(),
                old(self).spec_at(),
                head,
                r,
            ),
            final(self).spec_at() == (if r is Ok {
                head
            } else {
                old(self).spec_at()
            }),
    {
        if self.at == head {
            return Ok(());
        }
        let ghost mid = self.pager;
        let ghost dir = self.wal.spec_dir();
        let ghost w = self.wal;
        let ghost path = segment_path(dir, w.spec_current());
        let ghost bytes = frame(
            Record { lsn: w.spec_next_lsn(), kind: RecordKind::Checkpoint { manifest: head } },
        );
        proof {
            self.pager.lemma_wf();
            self.pager.backing().shows();
            a_segment_is_named_by_its_number(dir, w.spec_current());
        }
        let r = self.wal.note_head(self.pager.vfs_mut(), head);
        proof {
            let (d, roots) = (mid.backing().spec_vfs().dirs(), mid.backing().roots());
            let (f, g) = (
                mid.backing().spec_vfs().files(),
                self.pager.backing().spec_vfs().files(),
            );
            self.pager.backing().shows();
            lemma_log_written(&mid, &self.pager, dir);
            lemma_outside_insert(f, d, roots, dir, path, bytes, 0);
            if r is Err && g != f {
                let k = choose|k: int|
                    0 <= k <= bytes.len() && g == appended(f, path, #[trigger] bytes.take(k));
                lemma_outside_insert(f, d, roots, dir, path, bytes.take(k), 0);
            }
        }
        if r.is_ok() {
            self.at = head;
        }
        r
    }

    /// Commits at the time that the clock says. When this gives the manifest, the transaction has
    /// happened, even if the process is killed at once.
    pub fn commit(&mut self, txn: Txn) -> (r: Result<ManifestId, WalError>)
        requires
            old(self).wf(),
            old(self).has_room(txn.staged().dom().len()),
        ensures
            final(self).wf(),
            final(self).spec_pager().spec_config() == old(self).spec_pager().spec_config(),
            final(self).spec_pager().spec_clock() == old(self).spec_pager().spec_clock(),
            final(self).spec_pager().pin_counts() == unpinned(
                old(self).spec_pager().pin_counts(),
                txn.spec_pinned(),
            ),
            exists|now_ms: u64|
                may_say(old(self).spec_pager().spec_clock(), now_ms) && #[trigger] logged_from(
                    old(self).backing(),
                    final(self).backing(),
                    old(self).spec_wal(),
                    final(self).spec_wal(),
                    old(self).spec_at(),
                    final(self).spec_at(),
                    old(self).base_for(&txn),
                    txn.staged(),
                    now_ms,
                    r,
                ),
            final(self).spec_pager().spec_head() == (match r {
                Ok(id) => if changes_something(
                    old(self).backing().manifests(),
                    old(self).base_for(&txn),
                    txn.staged(),
                ) {
                    id
                } else {
                    old(self).spec_pager().spec_head()
                },
                Err(_) => old(self).spec_pager().spec_head(),
            }),
    {
        let now = self.pager.now_ms();
        self.commit_at(txn, now)
    }

    /// Makes the current head a checkpoint, and drops the log behind it. What an earlier failure left
    /// at the end of the log is cut off first.
    pub fn checkpoint(&mut self) -> (r: Result<Lsn, WalError>)
        requires
            old(self).wf(),
            old(self).has_room(0),
        ensures
            final(self).wf(),
            same_pager(&old(self).spec_pager(), &final(self).spec_pager()),
            final(self).spec_at() == (if final(self).spec_wal().spec_doubt() {
                old(self).spec_at()
            } else {
                old(self).spec_pager().spec_head()
            }),
            checkpointed_settled(
                old(self).backing(),
                final(self).backing(),
                old(self).spec_wal(),
                final(self).spec_wal(),
                old(self).spec_pager().spec_head(),
                r,
            ),
    {
        let head = self.pager.head();
        match self.wal.settle(&mut self.pager) {
            Ok(()) => {},
            Err(e) => {
                return Err(e);
            },
        }
        let ghost (settled, v) = (self.pager.backing(), self.wal);
        assert(settled_to(old(self).backing(), settled, old(self).spec_wal(), v));
        let ghost mid = self.pager;
        let ghost dir = self.wal.spec_dir();
        let ghost w = self.wal;
        let ghost path = segment_path(dir, w.spec_current());
        let ghost bytes = frame(
            Record { lsn: w.spec_next_lsn(), kind: RecordKind::Checkpoint { manifest: head } },
        );
        let ghost cp = checkpoint_path(dir);
        proof {
            self.pager.lemma_wf();
            self.pager.backing().shows();
            a_segment_is_named_by_its_number(dir, w.spec_current());
            assert(cp.drop_last() =~= dir);
            assert forall|f: Names, n: int| old_segment(f, dir, n) implies is_child(f, dir) by {
                let k = choose|k: u64| k < n && f == #[trigger] segment_path(dir, k);
                a_segment_is_named_by_its_number(dir, k);
            }
        }
        let r = self.wal.checkpoint(self.pager.vfs_mut(), head);
        proof {
            let (d, roots) = (mid.backing().spec_vfs().dirs(), mid.backing().roots());
            let (f, g) = (
                mid.backing().spec_vfs().files(),
                self.pager.backing().spec_vfs().files(),
            );
            let noted = appended(f, path, bytes);
            let marked = noted.insert(cp, bytes);
            self.pager.backing().shows();
            lemma_log_written(&mid, &self.pager, dir);
            lemma_outside_insert(f, d, roots, dir, path, bytes, 0);
            lemma_outside_insert(noted, d, roots, dir, cp, bytes, 0);
            lemma_outside_insert(marked, d, roots, dir, cp, bytes, self.wal.spec_current() as int);
            if r is Err && exists|k: int|
                0 <= k <= bytes.len() && g == appended(f, path, #[trigger] bytes.take(k)) {
                let k = choose|k: int|
                    0 <= k <= bytes.len() && g == appended(f, path, #[trigger] bytes.take(k));
                lemma_outside_insert(f, d, roots, dir, path, bytes.take(k), 0);
            }
            let last = self.wal.spec_current() as int;
            if r is Err && partly_cleared(marked, g, dir, last) {
                let k = choose|k: int| 0 <= k <= last && g == #[trigger] cleared(marked, dir, k);
                lemma_outside_insert(marked, d, roots, dir, cp, bytes, k);
            }
        }
        if !self.wal.in_doubt() {
            self.at = head;
        }
        r
    }

    /// Reads a page of the current head.
    pub fn read_head(&mut self, page_no: LogicalPageNo) -> (r: Result<Page, WalError>)
        requires
            old(self).wf(),
        ensures
            final(self).wf(),
            final(self).spec_wal() == old(self).spec_wal(),
            final(self).spec_at() == old(self).spec_at(),
            old(self).spec_pager().same_but_cache(&final(self).spec_pager()),
            r is Err ==> r->Err_0 is Pager,
            read_outcome(
                old(self).backing(),
                old(self).spec_pager().spec_head(),
                page_no,
                match r {
                    Ok(p) => Ok(p),
                    Err(e) => Err(e->Pager_0),
                },
            ),
    {
        match self.pager.read_head(page_no) {
            Ok(p) => Ok(p),
            Err(e) => Err(WalError::Pager(e)),
        }
    }

    /// Reads a page as of a manifest.
    pub fn read(&mut self, manifest: &ManifestId, page_no: LogicalPageNo) -> (r: Result<
        Page,
        WalError,
    >)
        requires
            old(self).wf(),
        ensures
            final(self).wf(),
            final(self).spec_wal() == old(self).spec_wal(),
            final(self).spec_at() == old(self).spec_at(),
            old(self).spec_pager().same_but_cache(&final(self).spec_pager()),
            r is Err ==> r->Err_0 is Pager,
            read_outcome(
                old(self).backing(),
                *manifest,
                page_no,
                match r {
                    Ok(p) => Ok(p),
                    Err(e) => Err(e->Pager_0),
                },
            ),
    {
        match self.pager.read(manifest, page_no) {
            Ok(p) => Ok(p),
            Err(e) => Err(WalError::Pager(e)),
        }
    }

    /// The current head.
    pub fn head(&self) -> (id: ManifestId)
        requires
            self.wf(),
        ensures
            id == self.spec_pager().spec_head(),
    {
        self.pager.head()
    }

    /// The page store underneath, for forks, comparisons and collection.
    pub fn pager(&self) -> (p: &Pager<FsStore<V>, C>)
        ensures
            *p == self.spec_pager(),
    {
        &self.pager
    }

    /// The page store underneath, to be worked on.
    pub fn pager_mut(&mut self) -> (p: &mut Pager<FsStore<V>, C>)
        ensures
            *p == old(self).spec_pager(),
            final(self).spec_pager() == *final(p),
            final(self).spec_wal() == old(self).spec_wal(),
            final(self).spec_at() == old(self).spec_at(),
    {
        &mut self.pager
    }

    /// Gives the filesystem back: what is left when the process is gone.
    pub fn into_vfs(self) -> (v: V)
        ensures
            v == self.backing().spec_vfs(),
            self.wf() ==> v.inv(),
    {
        self.pager.into_vfs()
    }
}

/// What a checkpoint does to a log whose end may be in doubt: that is settled first, and nothing
/// else is done where it cannot be.
pub open spec fn checkpointed_settled<B: Backing>(
    a: B,
    b: B,
    w: Wal,
    x: Wal,
    head: ManifestId,
    r: Result<Lsn, WalError>,
) -> bool {
    ||| exists|mid: B, v: Wal| #[trigger]
        settled_to(a, mid, w, v) && checkpointed(mid, b, v, x, head, r)
    ||| r matches Err(e) && unsettled(a, b, w, x, e)
}

/// What a checkpoint does: its record, then its marker, then the segments before are dropped.
pub open spec fn checkpointed<B: Backing>(
    a: B,
    b: B,
    w: Wal,
    x: Wal,
    head: ManifestId,
    r: Result<Lsn, WalError>,
) -> bool {
    let (files, dirs) = a.elsewhere();
    let dir = w.spec_dir();
    let lsn = w.spec_next_lsn();
    let bytes = frame(Record { lsn, kind: RecordKind::Checkpoint { manifest: head } });
    let marked = appended(files, segment_path(dir, w.spec_current()), bytes).insert(
        checkpoint_path(dir),
        bytes,
    );
    &&& same_manifests(a, b)
    &&& b.elsewhere().1 == dirs
    &&& x.spec_dir() == dir
    &&& x.spec_next_lsn() == lsn + 1
    &&& match r {
        Ok(got) => got == lsn && (x.spec_current(), x.spec_bytes()) == rolled(
            w.spec_current(),
            w.spec_bytes(),
            bytes.len(),
        ) && !x.spec_doubt() && b.elsewhere().0 == cleared(marked, dir, x.spec_current() as int),
        Err(e) => !a.steady() && e is Io && checkpoint_failed(
            files,
            b.elsewhere().0,
            w,
            x,
            bytes,
        ),
    }
}

/// A durable store that was just opened: it stands at its empty root manifest, and its log has not
/// been read.
pub open spec fn just_opened<V: Vfs, C: Clock>(
    vfs: V,
    root: Names,
    config: StoreConfig,
    clock: C,
    d: DurableStore<V, C>,
) -> bool {
    let b = d.backing();
    let (p, w) = (d.spec_pager(), d.spec_wal());
    &&& d.wf()
    &&& p.spec_config() == config
    &&& p.spec_clock() == clock
    &&& p.pin_counts() == Map::<PageId, usize>::empty()
    &&& p.spec_head() == empty_view(config.page_size).id()
    &&& d.spec_at() == p.spec_head()
    &&& b.hasher() == config.hasher
    &&& b.steady() == vfs.steady()
    &&& b.roots() == seq![root.push("pages"@), root.push("manifests"@)]
    &&& w.spec_dir() == root.push("wal"@)
    &&& w.spec_next_lsn() == 0
    &&& !w.spec_doubt()
    &&& at_last_segment(w, b.elsewhere().0, b.elsewhere().1, b.steady())
    &&& opened_beside(vfs, b, empty_view(config.page_size), w.spec_dir())
}

/// The store shows what was on the filesystem and its root manifest, and the files beside it are
/// what they were. Of directories only its own and the log's were made.
pub open spec fn opened_beside<V: Vfs>(
    vfs: V,
    b: FsStore<V>,
    root: ManifestView,
    dir: Names,
) -> bool {
    exists|mid: FsStore<V>| #[trigger]
        opened(vfs, mid, root) && same_store(mid, b) && same_manifests(mid, b) && b.elsewhere().0
            == mid.elsewhere().0 && dirs_made(mid.elsewhere().1, b.elsewhere().1, dir, dir)
}

/// A checkpoint that succeeded leaves a marker of the head with the number that it gives back, which no
/// later record gets; the segments before the one that the log goes on in are gone, and files that are
/// neither segments nor the marker are what they were.
pub proof fn a_checkpoint_drops_the_segments_before_it<B: Backing>(
    a: B,
    b: B,
    w: Wal,
    x: Wal,
    head: ManifestId,
    lsn: Lsn,
    n: u64,
    f: Names,
)
    requires
        checkpointed(a, b, w, x, head, Ok(lsn)),
    ensures
        ({
            let (files, dir) = (b.elsewhere().0, w.spec_dir());
            &&& marker(files, dir) == Some((head, lsn))
            &&& lsn == w.spec_next_lsn() && x.spec_next_lsn() == lsn + 1
            &&& n < x.spec_current() ==> !files.contains_key(segment_path(dir, n))
            &&& n >= x.spec_current() && n != w.spec_current() ==> files.get(segment_path(dir, n))
                == a.elsewhere().0.get(segment_path(dir, n))
            &&& (forall|m: u64| f != #[trigger] segment_path(dir, m)) && f != checkpoint_path(dir)
                ==> files.get(f) == a.elsewhere().0.get(f)
            &&& b.manifests() == a.manifests() && b.elsewhere().1 == a.elsewhere().1
        }),
{
    let (files, dir) = (a.elsewhere().0, w.spec_dir());
    let rec = Record { lsn, kind: RecordKind::Checkpoint { manifest: head } };
    let bytes = frame(rec);
    let noted = appended(files, segment_path(dir, w.spec_current()), bytes);
    let marked = noted.insert(checkpoint_path(dir), bytes);
    let keep = x.spec_current();
    clearing_removes_older_segments_alone(marked, dir, keep, n, f);
    a_segment_is_named_by_its_number(dir, n);
    lemma_segment_paths(dir, n, w.spec_current());
    assert forall|m: u64| checkpoint_path(dir) != #[trigger] segment_path(dir, m) by {
        a_segment_is_named_by_its_number(dir, m);
    }
    clearing_removes_older_segments_alone(marked, dir, keep, n, checkpoint_path(dir));
    a_framed_record_reads_back(rec, Seq::empty());
}

/// On a steady filesystem a durable store opens exactly where its configuration is one that a store may be
/// made with. Its head is there, and is a database without pages unless something else is stored under
/// that id; nothing is pinned, and the first number is still to be given out. Its pages, its manifests
/// and its log are in directories of their own.
pub proof fn a_durable_store_opens_at_nothing<V: Vfs, C: Clock>(
    vfs: V,
    root: &VPath,
    config: StoreConfig,
    clock: C,
    r: Result<DurableStore<V, C>, WalError>,
    fit: Result<(), PagerError>,
)
    requires
        call_ensures(DurableStore::<V, C>::open_with_clock, (vfs, root, config, clock), r),
        call_ensures(StoreConfig::check, (&config,), fit),
        vfs.steady(),
    ensures
        r is Ok <==> fit is Ok,
        r matches Err(e) ==> (e matches WalError::Pager(f) && f@ == fit->Err_0@),
        r matches Ok(d) ==> {
            let (p, b) = (d.spec_pager(), d.backing());
            &&& b.roots()[0] == root@.push("pages"@)
            &&& b.roots()[1] == root@.push("manifests"@)
            &&& d.spec_wal().spec_dir() == root@.push("wal"@)
            &&& d.spec_wal().spec_next_lsn() == 0 && !d.spec_wal().spec_doubt()
            &&& d.spec_at() == p.spec_head()
            &&& p.pin_counts() == Map::<PageId, usize>::empty()
            &&& p.spec_config() == config && b.hasher() == config.hasher
            &&& b.held_manifests().contains(p.spec_head())
            &&& b.manifests().contains_key(p.spec_head()) && b.manifests()[p.spec_head()]
                == empty_view(config.page_size) ==> resolved(
                b.manifests(),
                p.spec_head(),
            ) == Some(Map::<u64, PageId>::empty())
        },
{
    if let Ok(d) = r {
        let b = d.backing();
        let root_view = empty_view(config.page_size);
        let mid = choose|mid: FsStore<V>| #[trigger]
            opened(vfs, mid, root_view) && same_store(mid, b) && same_manifests(mid, b)
                && b.elsewhere().0 == mid.elsewhere().0 && dirs_made(
                mid.elsewhere().1,
                b.elsewhere().1,
                d.spec_wal().spec_dir(),
                d.spec_wal().spec_dir(),
            );
        assert(mid.held_manifests().contains(root_view.id()));
    }
}

} // verus!
