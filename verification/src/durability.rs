//! What holds of a store and its log together: no commit is lost, and none is torn.

use crate::cas::{manifest_put, Backing};
use crate::chain::{
    changes_something, committing_applies_the_changes, derived, extends, lemma_derivable_extends,
    lemma_sound_resolves, resolved, sound, Manifests, Writes,
};
use crate::durable::{
    checkpointed, checkpointed_settled, headed, logged, logged_from, ready_to_log, settled_to,
    unsettled,
};
use crate::laws::no_clash;
use crate::log::{
    a_cut_loses_the_last_record, a_logged_transaction_is_replayed, after, agree,
    an_unfinished_transaction_can_be_dropped, an_unfinished_transaction_did_not_happen,
    framed_records_read_back, frames,
    lemma_append_to_whole, lemma_captured_is_skipped, lemma_len_of_first, lemma_replay_cat,
    lemma_replay_extends, lemma_replay_unharmed, lemma_settled, lemma_settled_within, len_of_first,
    onto, other_manifests_do_not_matter, records_of, replay, replay_one, settled, start_from, stored,
    the_first_number_does_not_matter, txn_records, unharmed, whole, Outcome, Replay,
};
use crate::manifest::{apply_changes, ManifestId, ManifestView};
use crate::pagemap::{entries_of, lemma_entries_exist};
use crate::record::{
    a_cut_record_is_torn, a_framed_record_reads_back, frame, Lsn, Record, RecordKind, WalError,
};
use crate::replay::{got_into, intact, lemma_put_intact, reached};
use crate::vfs::{appended, cut, is_child, Names};
use crate::wal::{
    a_segment_is_named_by_its_number, are_numbers, are_segments, ascending, begun, captured_by, checkpoint_path,
    cleared, is_segment, lemma_log_grows, lemma_mended, lemma_segment_paths, lemma_segments_are, log,
    log_in, marker, mended, old_segment, orderly, partly_appended, partly_settled, recovered,
    recovered_by_number, recovered_these, recovery_of, rolled, same_end, segment_number, segment_path, segments, taken_back, Recovery, Wal,
};
use vstd::prelude::*;

verus! {

// ---------------------------------------------------------------------------------------------
// The list of segments.
// ---------------------------------------------------------------------------------------------

/// The numbers below `n` that are segments, in order.
spec fn segments_below(
    files: Map<Names, Seq<u8>>,
    dirs: Set<Names>,
    dir: Names,
    n: nat,
) -> Seq<u64>
    decreases n,
{
    if n == 0 {
        Seq::empty()
    } else {
        let s = segments_below(files, dirs, dir, (n - 1) as nat);
        if is_segment(files, dirs, dir, (n - 1) as u64) {
            s.push((n - 1) as u64)
        } else {
            s
        }
    }
}

proof fn lemma_segments_below(
    files: Map<Names, Seq<u8>>,
    dirs: Set<Names>,
    dir: Names,
    n: nat,
)
    requires
        n <= u64::MAX + 1,
    ensures
        ({
            let s = segments_below(files, dirs, dir, n);
            &&& ascending(s)
            &&& forall|i: int| 0 <= i < s.len() ==> #[trigger] s[i] < n
            &&& forall|k: u64| #[trigger]
                s.contains(k) <==> k < n && is_segment(files, dirs, dir, k)
        }),
    decreases n,
{
    if n > 0 {
        let m = (n - 1) as nat;
        lemma_segments_below(files, dirs, dir, m);
        let s = segments_below(files, dirs, dir, m);
        let t = segments_below(files, dirs, dir, n);
        if is_segment(files, dirs, dir, m as u64) {
            assert(t == s.push(m as u64));
            assert forall|k: u64| #[trigger] t.contains(k) <==> k < n && is_segment(
                files,
                dirs,
                dir,
                k,
            ) by {
                if s.contains(k) {
                    let i = choose|i: int| 0 <= i < s.len() && s[i] == k;
                    assert(t[i] == k);
                }
                if k == m {
                    assert(t[s.len() as int] == k);
                }
                if t.contains(k) {
                    let i = choose|i: int| 0 <= i < t.len() && t[i] == k;
                    if i < s.len() {
                        assert(s[i] == k);
                        assert(s.contains(k));
                    }
                }
            }
        }
    }
}

/// Every log has a list of its segments.
pub proof fn lemma_segments_listed(files: Map<Names, Seq<u8>>, dirs: Set<Names>, dir: Names)
    ensures
        are_segments(segments(files, dirs, dir), files, dirs, dir),
{
    lemma_segments_below(files, dirs, dir, (u64::MAX + 1) as nat);
    let s = segments_below(files, dirs, dir, (u64::MAX + 1) as nat);
    assert forall|n: u64| #[trigger] s.contains(n) <==> is_segment(files, dirs, dir, n) by {}
    assert(are_segments(s, files, dirs, dir));
}

/// In an orderly log a segment is there when its file is.
proof fn lemma_segment_is_file(
    files: Map<Names, Seq<u8>>,
    dirs: Set<Names>,
    dir: Names,
    n: u64,
)
    requires
        orderly(files, dirs, dir),
    ensures
        is_segment(files, dirs, dir, n) <==> files.contains_key(segment_path(dir, n)),
{
    a_segment_is_named_by_its_number(dir, n);
    if files.contains_key(segment_path(dir, n)) {
        assert(segment_number(segment_path(dir, n).last()) == Some(n));
    }
}

/// The records of segments whose files are the same are the same.
proof fn lemma_same_log(
    files: Map<Names, Seq<u8>>,
    other: Map<Names, Seq<u8>>,
    dir: Names,
    segs: Seq<u64>,
)
    requires
        forall|i: int|
            0 <= i < segs.len() ==> records_of(files[segment_path(dir, #[trigger] segs[i])])
                == records_of(other[segment_path(dir, segs[i])]),
    ensures
        log_in(files, dir, segs) == log_in(other, dir, segs),
    decreases segs.len(),
{
    if segs.len() > 0 {
        let init = segs.drop_last();
        assert forall|i: int| 0 <= i < init.len() implies records_of(
            files[segment_path(dir, #[trigger] init[i])],
        ) == records_of(other[segment_path(dir, init[i])]) by {
            assert(init[i] == segs[i]);
        }
        lemma_same_log(files, other, dir, init);
        assert(segs[segs.len() - 1] == segs.last());
    }
}

/// The log ends in its current segment, and that one ends where a record ends.
pub open spec fn at_end(
    files: Map<Names, Seq<u8>>,
    dirs: Set<Names>,
    dir: Names,
    current: u64,
) -> bool {
    &&& orderly(files, dirs, dir)
    &&& forall|n: u64| is_segment(files, dirs, dir, n) ==> n <= current
    &&& files.contains_key(segment_path(dir, current)) ==> whole(files[segment_path(dir, current)])
}

/// What is appended to a log is read after everything else in it.
pub proof fn what_is_appended_comes_last(
    files: Map<Names, Seq<u8>>,
    dirs: Set<Names>,
    dir: Names,
    current: u64,
    bytes: Seq<u8>,
)
    requires
        at_end(files, dirs, dir, current),
    ensures
        ({
            let grown = appended(files, segment_path(dir, current), bytes);
            &&& log(grown, dirs, dir) == log(files, dirs, dir) + records_of(bytes)
            &&& orderly(grown, dirs, dir)
            &&& marker(grown, dir) == marker(files, dir)
            &&& forall|n: u64| #[trigger]
                is_segment(grown, dirs, dir, n) ==> n == current || is_segment(files, dirs, dir, n)
            &&& whole(bytes) ==> whole(grown[segment_path(dir, current)])
        }),
{
    let p = segment_path(dir, current);
    let grown = appended(files, p, bytes);
    let segs = segments(files, dirs, dir);
    lemma_segments_listed(files, dirs, dir);
    a_segment_is_named_by_its_number(dir, current);
    lemma_segment_is_file(files, dirs, dir, current);
    assert forall|n: u64| #[trigger] is_segment(grown, dirs, dir, n) <==> n == current || is_segment(
        files,
        dirs,
        dir,
        n,
    ) by {
        if is_segment(grown, dirs, dir, n) {
            let e = choose|e: Names|
                is_child(e, dir) && (grown.contains_key(e) || dirs.contains(e))
                    && #[trigger] segment_number(e.last()) == Some(n);
            assert(e == p || files.contains_key(e) || dirs.contains(e));
        }
        if is_segment(files, dirs, dir, n) {
            let e = choose|e: Names|
                is_child(e, dir) && (files.contains_key(e) || dirs.contains(e))
                    && #[trigger] segment_number(e.last()) == Some(n);
            assert(grown.contains_key(e) || dirs.contains(e));
        }
        if n == current {
            assert(segment_number(p.last()) == Some(n));
        }
    }
    if files.contains_key(p) {
        assert(segs.contains(current));
        let i = choose|i: int| 0 <= i < segs.len() && segs[i] == current;
        let last = segs.last();
        assert(segs.contains(last));
        assert(last == current);
        let init = segs.drop_last();
        assert forall|k: int| 0 <= k < init.len() implies records_of(
            files[segment_path(dir, #[trigger] init[k])],
        ) == records_of(grown[segment_path(dir, init[k])]) by {
            assert(init[k] == segs[k]);
            lemma_segment_paths(dir, segs[k], current);
        }
        lemma_same_log(files, grown, dir, init);
        lemma_append_to_whole(files[p], bytes);
        assert(are_segments(segs, grown, dirs, dir));
        lemma_segments_are(segs, grown, dirs, dir);
        assert(log_in(files, dir, init) + (records_of(files[p]) + records_of(bytes)) =~= log_in(
            files,
            dir,
            init,
        ) + records_of(files[p]) + records_of(bytes));
    } else {
        let longer = segs.push(current);
        assert forall|n: u64| #[trigger] longer.contains(n) <==> is_segment(grown, dirs, dir, n) by {
            if segs.contains(n) {
                let i = choose|i: int| 0 <= i < segs.len() && segs[i] == n;
                assert(longer[i] == n);
            }
            if n == current {
                assert(longer[segs.len() as int] == n);
            }
            if longer.contains(n) {
                let i = choose|i: int| 0 <= i < longer.len() && longer[i] == n;
                if i < segs.len() {
                    assert(segs[i] == n);
                    assert(segs.contains(n));
                }
            }
        }
        assert(ascending(longer)) by {
            assert forall|i: int, j: int| 0 <= i < j < longer.len() implies #[trigger] longer[i]
                < #[trigger] longer[j] by {
                if j == segs.len() {
                    assert(segs.contains(segs[i]));
                }
            }
        }
        assert(are_segments(longer, grown, dirs, dir));
        lemma_segments_are(longer, grown, dirs, dir);
        assert forall|k: int| 0 <= k < segs.len() implies records_of(
            files[segment_path(dir, #[trigger] segs[k])],
        ) == records_of(grown[segment_path(dir, segs[k])]) by {
            assert(segs.contains(segs[k]));
            lemma_segment_is_file(files, dirs, dir, segs[k]);
        }
        lemma_same_log(files, grown, dir, segs);
        assert(longer.drop_last() =~= segs);
    }
    assert(orderly(grown, dirs, dir)) by {
        assert forall|e: Names|
            is_child(e, dir) && (grown.contains_key(e) || dirs.contains(e)) && (
            #[trigger] segment_number(e.last()) is Some) implies e == segment_path(
            dir,
            segment_number(e.last()).unwrap(),
        ) && grown.contains_key(e) && !dirs.contains(e) by {
            if e != p || dirs.contains(p) {
                assert(files.contains_key(e) || dirs.contains(e));
            }
        }
    }
}

// ---------------------------------------------------------------------------------------------
// A store and its log in step.
// ---------------------------------------------------------------------------------------------

/// The log ends where its current segment does.
pub open spec fn ends_there(w: Wal, files: Map<Names, Seq<u8>>) -> bool {
    let path = segment_path(w.spec_dir(), w.spec_current());
    w.spec_bytes() == (if files.contains_key(path) {
        files[path].len()
    } else {
        0
    })
}

/// With these files recovering the store would give this head and find nothing that the store does
/// not have, and the log ends where a record ends.
pub open spec fn in_step_with<B: Backing>(
    b: B,
    files: Map<Names, Seq<u8>>,
    w: Wal,
    root: ManifestView,
    head: ManifestId,
) -> bool {
    let dirs = b.elsewhere().1;
    let dir = w.spec_dir();
    &&& intact(b)
    &&& at_end(files, dirs, dir, w.spec_current())
    &&& ends_there(w, files)
    &&& forall|i: int|
        0 <= i < log(files, dirs, dir).len() ==> (#[trigger] log(files, dirs, dir)[i]).lsn
            < w.spec_next_lsn()
    &&& marker(files, dir) matches Some((_, lsn)) ==> lsn < w.spec_next_lsn()
    &&& recovery_of(b.manifests(), b.held_manifests(), files, dirs, dir, root, 0) matches Outcome::Fine(end) && end.head
        == head && end.pending.is_empty() && end.ms == b.manifests()
}

/// The store and its log are in step: recovering would give this head, and would find nothing
/// that the store does not have.
pub open spec fn in_step<B: Backing>(b: B, w: Wal, root: ManifestView, head: ManifestId) -> bool {
    !w.spec_doubt() && in_step_with(b, b.elsewhere().0, w, root, head)
}

/// The store and its log are in step but for what is left of operations that failed: once that is
/// cut off they are, and until then recovering gives this head or one that a failed operation tried
/// to reach.
pub open spec fn in_doubt<B: Backing>(
    b: B,
    w: Wal,
    root: ManifestView,
    head: ManifestId,
    tried: Set<ManifestId>,
) -> bool {
    &&& w.spec_doubt()
    &&& in_step_with(b, taken_back(w, b.elsewhere().0), w, root, head)
    &&& near(b, w.spec_dir(), root, head, tried)
}

/// Recovering gives this head, or one that a failed operation tried to reach.
pub open spec fn near<B: Backing>(
    b: B,
    dir: Names,
    root: ManifestView,
    head: ManifestId,
    tried: Set<ManifestId>,
) -> bool {
    recoverable(b, dir, root, head) || exists|h: ManifestId|
        tried.contains(h) && #[trigger] recoverable(b, dir, root, h)
}

/// Everything up to this head is accounted for: the store is in step with its log, or would be
/// once what failed operations left there is cut off.
pub open spec fn accounted<B: Backing>(
    b: B,
    w: Wal,
    root: ManifestView,
    head: ManifestId,
    tried: Set<ManifestId>,
) -> bool {
    in_step(b, w, root, head) || in_doubt(b, w, root, head, tried)
}

/// The last number that a log can hold is not in it.
pub open spec fn numbers_left(files: Map<Names, Seq<u8>>, dirs: Set<Names>, dir: Names) -> bool {
    &&& forall|i: int|
        0 <= i < log(files, dirs, dir).len() ==> (#[trigger] log(files, dirs, dir)[i]).lsn
            < u64::MAX
    &&& marker(files, dir) matches Some((_, lsn)) ==> lsn < u64::MAX
}

/// Whatever became of the process, recovering this store gives this head.
pub open spec fn recoverable<B: Backing>(
    b: B,
    dir: Names,
    root: ManifestView,
    head: ManifestId,
) -> bool {
    let (files, dirs) = b.elsewhere();
    &&& intact(b)
    &&& orderly(files, dirs, dir)
    &&& numbers_left(files, dirs, dir)
    &&& recovery_of(b.manifests(), b.held_manifests(), files, dirs, dir, root, 0) matches Outcome::Fine(end) && end.head
        == head
}

/// Where a recovery starts.
spec fn base_of(
    ms: Manifests,
    mark: Option<(ManifestId, Lsn)>,
    root: ManifestView,
) -> Replay {
    begun(ms, ms.dom(), mark, root, 0)
}

/// A recovery of an intact store starts unharmed, and one that starts at the root has it.
proof fn lemma_begun(ms: Manifests, mark: Option<(ManifestId, Lsn)>, root: ManifestView, n: u64)
    ensures
        unharmed(begun(ms, ms.dom(), mark, root, n)),
        extends(ms, begun(ms, ms.dom(), mark, root, n).ms),
        mark is None ==> begun(ms, ms.dom(), mark, root, n).ms.contains_key(root.id()),
        ms.contains_key(root.id()) ==> begun(ms, ms.dom(), mark, root, n).ms == ms,
{
    let st = begun(ms, ms.dom(), mark, root, n);
    assert(st.held =~= st.ms.dom());
}

proof fn lemma_captured_stays(st: Replay, recs: Seq<Record>)
    requires
        replay(st, recs) is Fine,
    ensures
        replay(st, recs)->Fine_0.captured == st.captured,
    decreases recs.len(),
{
    if recs.len() > 0 {
        lemma_captured_stays(replay_one(st, recs[0])->Fine_0, recs.skip(1));
    }
}

/// Where recovery of a log stands that has `recs` at its end, on a store that may have one more
/// manifest than before.
proof fn lemma_recovery_goes_on(
    ms: Manifests,
    more: Manifests,
    files: Map<Names, Seq<u8>>,
    grown: Map<Names, Seq<u8>>,
    dirs: Set<Names>,
    dir: Names,
    root: ManifestView,
    recs: Seq<Record>,
)
    requires
        recovery_of(ms, ms.dom(), files, dirs, dir, root, 0) matches Outcome::Fine(end) && end.ms == ms,
        extends(ms, more),
        marker(grown, dir) == marker(files, dir),
        log(grown, dirs, dir) == log(files, dirs, dir) + recs,
    ensures
        ({
            let end = recovery_of(ms, ms.dom(), files, dirs, dir, root, 0)->Fine_0;
            &&& recovery_of(more, more.dom(), grown, dirs, dir, root, 0) == replay(
                onto(end, more),
                recs,
            )
            &&& end.captured == captured_by(marker(files, dir))
        }),
{
    let mark = marker(files, dir);
    let recs0 = log(files, dirs, dir);
    let end = recovery_of(ms, ms.dom(), files, dirs, dir, root, 0)->Fine_0;
    let st = base_of(ms, mark, root);
    lemma_begun(ms, mark, root, 0);
    assert(replay(st, recs0) == Outcome::Fine(end));
    lemma_replay_extends(st, recs0);
    lemma_captured_stays(st, recs0);
    assert(extends(st.ms, more));
    assert(agree(more, end.ms));
    other_manifests_do_not_matter(st, more, recs0);
    assert(more.union_prefer_right(end.ms) =~= more);
    let rich = base_of(more, mark, root);
    if mark is None {
        assert(st.ms.contains_key(root.id()));
        assert(more.contains_key(root.id()));
        assert(more.dom().insert(root.id()) =~= more.dom());
    }
    assert(rich == onto(st, more));
    lemma_replay_cat(rich, recs0, recs);
}

/// A commit that was acknowledged is never lost, and one that was cut short by a crash, at any
/// byte, is there as a whole or not at all: recovery gives the head before the commit or the head
/// after it, and the one after it wherever the commit said that it had happened.
pub proof fn a_commit_is_never_lost_and_never_torn<B: Backing>(
    a: B,
    b: B,
    w: Wal,
    x: Wal,
    root: ManifestView,
    head: ManifestId,
    writes: Writes,
    now_ms: u64,
    r: Result<ManifestId, WalError>,
)
    requires
        in_step(a, w, root, head),
        logged(a, b, w, x, head, writes, now_ms, r),
        writes.dom().finite(),
        w.spec_current() < u64::MAX,
        w.spec_next_lsn() + writes.dom().len() < u64::MAX,
        no_clash(a.manifests(), derived(a.manifests(), head, writes, now_ms)),
    ensures
        ({
            let id = derived(a.manifests(), head, writes, now_ms).id();
            let (files, dirs) = b.elsewhere();
            &&& recoverable(b, w.spec_dir(), root, head) || recoverable(b, w.spec_dir(), root, id)
            &&& r is Ok && changes_something(a.manifests(), head, writes) ==> in_step(b, x, root, id)
            &&& r is Ok && !changes_something(a.manifests(), head, writes) ==> in_step(
                b,
                x,
                root,
                head,
            )
            &&& recovery_of(
                b.manifests(),
                b.held_manifests(),
                files,
                dirs,
                w.spec_dir(),
                root,
                0,
            ) matches Outcome::Fine(end) && (end.head == head || (end.head == id && end.ms
                == a.manifests().insert(id, derived(a.manifests(), head, writes, now_ms))))
        }),
{
    let ms = a.manifests();
    let m = derived(ms, head, writes, now_ms);
    let id = m.id();
    let (files, dirs) = a.elsewhere();
    let grown = b.elsewhere().0;
    let dir = w.spec_dir();
    let current = w.spec_current();
    let lsn = w.spec_next_lsn();
    let path = segment_path(dir, current);
    let list = entries_of(writes);
    let recs = txn_records(lsn, list, id, now_ms);
    let bytes = frames(recs);
    let end = recovery_of(ms, ms.dom(), files, dirs, dir, root, 0)->Fine_0;
    lemma_entries_exist(writes);
    framed_records_read_back(recs);
    assert(records_of(Seq::<u8>::empty()) =~= Seq::empty());
    if manifest_put(a, b, m) {
        lemma_put_intact(a, b, m);
    }
    let more = b.manifests();
    assert(more == ms || more == ms.insert(id, m));
    assert(extends(ms, more));
    assert(no_clash(more, m));
    if grown == files {
        assert(numbers_left(grown, dirs, dir));
        assert(log(files, dirs, dir) + Seq::<Record>::empty() =~= log(files, dirs, dir));
        lemma_recovery_goes_on(ms, more, files, grown, dirs, dir, root, Seq::empty());
        lemma_begun(ms, marker(files, dir), root, 0);
        lemma_replay_unharmed(base_of(ms, marker(files, dir), root), log(files, dirs, dir));
        assert(onto(end, ms) =~= end);
    }
    if grown == files && !(r is Ok && changes_something(ms, head, writes)) {
        assert(more == ms);
    } else {
        lemma_derivable_extends(ms, more, head, writes, now_ms);
        let k = if grown == appended(files, path, bytes) {
            bytes.len() as int
        } else if grown == files {
            0
        } else {
            choose|k: int|
                0 <= k <= bytes.len() && grown == appended(files, path, #[trigger] bytes.take(k))
        };
        let part = bytes.take(k);
        assert(k == bytes.len() ==> part =~= bytes);
        if grown != files || k == bytes.len() {
            what_is_appended_comes_last(files, dirs, dir, current, part);
            lemma_recovery_goes_on(ms, more, files, grown, dirs, dir, root, records_of(part));
            let rich = onto(end, more);
            assert(numbers_left(grown, dirs, dir)) by {
                if k < bytes.len() {
                    let n = a_cut_loses_the_last_record(recs, k);
                    assert(records_of(part) =~= recs.take(records_of(part).len() as int));
                } else {
                    assert(recs.take(recs.len() as int) =~= recs);
                }
                lemma_numbers_left(files, grown, dirs, dir, recs, records_of(part));
            }
            if k == bytes.len() {
                a_logged_transaction_is_replayed(rich, lsn, writes, now_ms);
                let done = replay(rich, recs)->Fine_0;
                assert(done.ms =~= ms.insert(id, m));
                if r is Ok {
                    assert(more =~= ms.insert(id, m));
                    lemma_in_step_after(
                        files,
                        grown,
                        dirs,
                        dir,
                        current,
                        x.spec_current(),
                        recs,
                        bytes,
                        lsn,
                        x.spec_next_lsn(),
                    );
                    lemma_end_moves(files, dir, w, x, bytes);
                    assert(in_step(b, x, root, id));
                }
            } else {
                let n = a_cut_loses_the_last_record(recs, k);
                an_unfinished_transaction_did_not_happen(rich, lsn, list, id, now_ms, n);
            }
        }
    }
}

/// A commit that failed leaves everything up to the head accounted for.
pub proof fn a_failed_commit_is_accounted_for<B: Backing>(
    a: B,
    b: B,
    w: Wal,
    x: Wal,
    root: ManifestView,
    head: ManifestId,
    writes: Writes,
    now_ms: u64,
    e: WalError,
)
    requires
        in_step(a, w, root, head),
        logged(a, b, w, x, head, writes, now_ms, Err(e)),
        writes.dom().finite(),
        w.spec_current() < u64::MAX,
        w.spec_next_lsn() + writes.dom().len() < u64::MAX,
        no_clash(a.manifests(), derived(a.manifests(), head, writes, now_ms)),
    ensures
        accounted(
            b,
            x,
            root,
            head,
            set![derived(a.manifests(), head, writes, now_ms).id()],
        ),
{
    let m = derived(a.manifests(), head, writes, now_ms);
    let (ms, more) = (a.manifests(), b.manifests());
    let files = a.elsewhere().0;
    let now = b.elsewhere().0;
    let path = segment_path(w.spec_dir(), w.spec_current());
    let bytes = frames(txn_records(w.spec_next_lsn(), entries_of(writes), m.id(), now_ms));
    a_commit_is_never_lost_and_never_torn(a, b, w, x, root, head, writes, now_ms, Err(e));
    if x.spec_doubt() {
        if manifest_put(a, b, m) {
            lemma_put_intact(a, b, m);
        }
        assert(extends(ms, more));
        lemma_derivable_extends(ms, more, head, writes, now_ms);
        assert(derived(more, head, writes, now_ms).id() == m.id());
        let part = if now == files || now == appended(files, path, bytes) {
            bytes
        } else {
            bytes.take(
                choose|k: int|
                    0 <= k <= bytes.len() && now == appended(files, path, #[trigger] bytes.take(k)),
            )
        };
        lemma_back_in_step(a, b, w, x, root, head, part);
        assert(near(b, x.spec_dir(), root, head, set![m.id()]));
    }
}

/// The end of a log after an append.
proof fn lemma_end_moves(
    files: Map<Names, Seq<u8>>,
    dir: Names,
    w: Wal,
    x: Wal,
    bytes: Seq<u8>,
)
    requires
        w.spec_dir() == dir,
        x.spec_dir() == dir,
        w.spec_current() < u64::MAX,
        ends_there(w, files),
        (x.spec_current(), x.spec_bytes()) == rolled(
            w.spec_current(),
            w.spec_bytes(),
            bytes.len(),
        ),
        x.spec_current() != w.spec_current() ==> !appended(
            files,
            segment_path(dir, w.spec_current()),
            bytes,
        ).contains_key(segment_path(dir, x.spec_current())),
    ensures
        ends_there(x, appended(files, segment_path(dir, w.spec_current()), bytes)),
{
}

/// Once what was appended behind the end of a log in step is cut off, the log is in step again.
proof fn lemma_back_in_step<B: Backing>(
    a: B,
    b: B,
    w: Wal,
    x: Wal,
    root: ManifestView,
    head: ManifestId,
    part: Seq<u8>,
)
    requires
        in_step(a, w, root, head),
        intact(b),
        extends(a.manifests(), b.manifests()),
        b.elsewhere().1 == a.elsewhere().1,
        x.spec_dir() == w.spec_dir(),
        same_end(w, x),
        x.spec_doubt(),
        w.spec_next_lsn() <= x.spec_next_lsn(),
        b.elsewhere().0 == a.elsewhere().0 || b.elsewhere().0 == appended(
            a.elsewhere().0,
            segment_path(w.spec_dir(), w.spec_current()),
            part,
        ),
    ensures
        in_step_with(b, taken_back(x, b.elsewhere().0), x, root, head),
{
    let (files, dirs) = a.elsewhere();
    let now = b.elsewhere().0;
    let dir = w.spec_dir();
    let (ms, more) = (a.manifests(), b.manifests());
    let path = segment_path(dir, w.spec_current());
    let back = taken_back(x, now);
    let none = Seq::<u8>::empty();
    let before = log(files, dirs, dir);
    assert(records_of(none) =~= Seq::empty());
    what_is_appended_comes_last(files, dirs, dir, w.spec_current(), none);
    assert(before + Seq::<Record>::empty() =~= before);
    if now == files {
        assert(back =~= files);
    } else {
        assert(cut(now[path], x.spec_bytes()) =~= appended(files, path, none)[path]);
        assert(back =~= appended(files, path, none));
        lemma_in_step_after(
            files,
            back,
            dirs,
            dir,
            w.spec_current(),
            w.spec_current(),
            Seq::empty(),
            none,
            w.spec_next_lsn(),
            x.spec_next_lsn(),
        );
    }
    lemma_recovery_goes_on(ms, more, files, back, dirs, dir, root, Seq::empty());
}

/// Numbers are left when what was appended is the first part of records that leave some.
proof fn lemma_numbers_left(
    files: Map<Names, Seq<u8>>,
    grown: Map<Names, Seq<u8>>,
    dirs: Set<Names>,
    dir: Names,
    recs: Seq<Record>,
    part: Seq<Record>,
)
    requires
        numbers_left(files, dirs, dir),
        marker(grown, dir) == marker(files, dir),
        log(grown, dirs, dir) == log(files, dirs, dir) + part,
        part.len() <= recs.len(),
        part == recs.take(part.len() as int),
        forall|i: int| 0 <= i < recs.len() ==> (#[trigger] recs[i]).lsn < u64::MAX,
    ensures
        numbers_left(grown, dirs, dir),
{
    let (before, after) = (log(files, dirs, dir), log(grown, dirs, dir));
    assert forall|i: int| 0 <= i < after.len() implies (#[trigger] after[i]).lsn < u64::MAX by {
        if i < before.len() {
            assert(after[i] == before[i]);
        } else {
            assert(after[i] == recs[i - before.len()]);
        }
    }
}

/// The parts of being in step that are about files and numbers, after an append.
proof fn lemma_in_step_after(
    files: Map<Names, Seq<u8>>,
    grown: Map<Names, Seq<u8>>,
    dirs: Set<Names>,
    dir: Names,
    current: u64,
    next: u64,
    recs: Seq<Record>,
    bytes: Seq<u8>,
    lsn: u64,
    next_lsn: u64,
)
    requires
        at_end(files, dirs, dir, current),
        grown == appended(files, segment_path(dir, current), bytes),
        records_of(bytes) == recs,
        whole(bytes),
        next == current || next == current + 1,
        lsn <= next_lsn,
        forall|i: int|
            0 <= i < log(files, dirs, dir).len() ==> (#[trigger] log(files, dirs, dir)[i]).lsn < lsn,
        forall|i: int| 0 <= i < recs.len() ==> (#[trigger] recs[i]).lsn < next_lsn,
    ensures
        at_end(grown, dirs, dir, next),
        next != current ==> !grown.contains_key(segment_path(dir, next)),
        forall|i: int|
            0 <= i < log(grown, dirs, dir).len() ==> (#[trigger] log(grown, dirs, dir)[i]).lsn
                < next_lsn,
{
    what_is_appended_comes_last(files, dirs, dir, current, bytes);
    lemma_segment_is_file(grown, dirs, dir, next);
    let before = log(files, dirs, dir);
    let after = log(grown, dirs, dir);
    assert forall|i: int| 0 <= i < after.len() implies (#[trigger] after[i]).lsn < next_lsn by {
        if i < before.len() {
            assert(after[i] == before[i]);
        } else {
            assert(after[i] == recs[i - before.len()]);
        }
    }
    assert(forall|n: u64| is_segment(grown, dirs, dir, n) ==> n <= next);
}

/// The recovered pages are those from before the commit, or those with the transaction applied:
/// nothing in between.
pub proof fn a_recovered_commit_is_applied_whole<B: Backing>(
    a: B,
    head: ManifestId,
    writes: Writes,
    now_ms: u64,
)
    requires
        a.manifests().contains_key(head),
        sound(a.manifests(), a.manifests()[head]),
        writes.dom().finite(),
        resolved(a.manifests(), head) matches Some(pages) && pages.dom().len() + writes.dom().len()
            <= i64::MAX,
        changes_something(a.manifests(), head, writes),
        no_clash(a.manifests(), derived(a.manifests(), head, writes, now_ms)),
    ensures
        ({
            let m = derived(a.manifests(), head, writes, now_ms);
            let after = a.manifests().insert(m.id(), m);
            &&& resolved(after, m.id()) == Some(
                apply_changes(resolved(a.manifests(), head).unwrap(), writes),
            )
            &&& sound(after, m)
        }),
{
    lemma_sound_resolves(a.manifests(), head);
    committing_applies_the_changes(a.manifests(), head, writes, now_ms);
}

// ---------------------------------------------------------------------------------------------
// Checkpoints.
// ---------------------------------------------------------------------------------------------

/// Some of these segments has the record.
spec fn logged_in(files: Map<Names, Seq<u8>>, dir: Names, segs: Seq<u64>, r: Record) -> bool {
    exists|i: int|
        0 <= i < segs.len() && records_of(files[segment_path(dir, #[trigger] segs[i])]).contains(r)
}

proof fn lemma_logged_in(files: Map<Names, Seq<u8>>, dir: Names, segs: Seq<u64>, r: Record)
    ensures
        log_in(files, dir, segs).contains(r) <==> logged_in(files, dir, segs, r),
    decreases segs.len(),
{
    let all = log_in(files, dir, segs);
    if segs.len() > 0 {
        let init = segs.drop_last();
        let before = log_in(files, dir, init);
        let here = records_of(files[segment_path(dir, segs.last())]);
        lemma_logged_in(files, dir, init, r);
        if all.contains(r) {
            let i = choose|i: int| 0 <= i < all.len() && all[i] == r;
            if i < before.len() {
                assert(before[i] == r);
                assert(before.contains(r));
                let k = choose|k: int|
                    0 <= k < init.len() && records_of(
                        files[segment_path(dir, #[trigger] init[k])],
                    ).contains(r);
                assert(segs[k] == init[k]);
            } else {
                assert(here[i - before.len()] == r);
                assert(here.contains(r));
                assert(segs[segs.len() - 1] == segs.last());
            }
        }
        if logged_in(files, dir, segs, r) {
            let k = choose|k: int|
                0 <= k < segs.len() && records_of(
                    files[segment_path(dir, #[trigger] segs[k])],
                ).contains(r);
            if k < init.len() {
                assert(init[k] == segs[k]);
                assert(logged_in(files, dir, init, r));
                let i = choose|i: int| 0 <= i < before.len() && before[i] == r;
                assert(all[i] == r);
            } else {
                let i = choose|i: int| 0 <= i < here.len() && here[i] == r;
                assert(all[before.len() + i] == r);
            }
        }
    }
}

/// Dropping segments leaves an orderly log, with some of the same records.
proof fn lemma_cleared(files: Map<Names, Seq<u8>>, dirs: Set<Names>, dir: Names, keep: int)
    requires
        orderly(files, dirs, dir),
    ensures
        ({
            let less = cleared(files, dir, keep);
            &&& orderly(less, dirs, dir)
            &&& marker(less, dir) == marker(files, dir)
            &&& forall|n: u64| #[trigger]
                is_segment(less, dirs, dir, n) <==> is_segment(files, dirs, dir, n) && n >= keep
            &&& forall|r: Record| #[trigger]
                log(less, dirs, dir).contains(r) ==> log(files, dirs, dir).contains(r)
        }),
{
    let less = cleared(files, dir, keep);
    assert forall|n: u64| #[trigger] old_segment(segment_path(dir, n), dir, keep) <==> n < keep by {
        if old_segment(segment_path(dir, n), dir, keep) {
            let k = choose|k: u64|
                k < keep && segment_path(dir, n) == #[trigger] segment_path(dir, k);
            lemma_segment_paths(dir, n, k);
        }
    }
    assert(!old_segment(checkpoint_path(dir), dir, keep)) by {
        if old_segment(checkpoint_path(dir), dir, keep) {
            let k = choose|k: u64|
                k < keep && checkpoint_path(dir) == #[trigger] segment_path(dir, k);
            a_segment_is_named_by_its_number(dir, k);
        }
    }
    assert(orderly(less, dirs, dir)) by {
        assert forall|e: Names|
            is_child(e, dir) && (less.contains_key(e) || dirs.contains(e)) && (
            #[trigger] segment_number(e.last()) is Some) implies e == segment_path(
            dir,
            segment_number(e.last()).unwrap(),
        ) && less.contains_key(e) && !dirs.contains(e) by {
            assert(files.contains_key(e) || dirs.contains(e));
        }
    }
    assert forall|n: u64| #[trigger] is_segment(less, dirs, dir, n) <==> is_segment(
        files,
        dirs,
        dir,
        n,
    ) && n >= keep by {
        lemma_segment_is_file(less, dirs, dir, n);
        lemma_segment_is_file(files, dirs, dir, n);
        assert(old_segment(segment_path(dir, n), dir, keep) <==> n < keep);
    }
    let (segs, left) = (segments(files, dirs, dir), segments(less, dirs, dir));
    lemma_segments_listed(files, dirs, dir);
    lemma_segments_listed(less, dirs, dir);
    assert forall|r: Record| #[trigger] log(less, dirs, dir).contains(r) implies log(
        files,
        dirs,
        dir,
    ).contains(r) by {
        lemma_logged_in(less, dir, left, r);
        lemma_logged_in(files, dir, segs, r);
        let k = choose|k: int|
            0 <= k < left.len() && records_of(less[segment_path(dir, #[trigger] left[k])]).contains(
                r,
            );
        let n = left[k];
        assert(left.contains(n));
        assert(segs.contains(n));
        let j = choose|j: int| 0 <= j < segs.len() && segs[j] == n;
        lemma_segment_is_file(less, dirs, dir, n);
        assert(less[segment_path(dir, n)] == files[segment_path(dir, n)]);
        assert(records_of(files[segment_path(dir, segs[j])]).contains(r));
    }
}

/// The marker is no segment.
proof fn lemma_marked(
    files: Map<Names, Seq<u8>>,
    dirs: Set<Names>,
    dir: Names,
    bytes: Seq<u8>,
)
    requires
        orderly(files, dirs, dir),
    ensures
        ({
            let marked = files.insert(checkpoint_path(dir), bytes);
            &&& orderly(marked, dirs, dir)
            &&& log(marked, dirs, dir) == log(files, dirs, dir)
            &&& forall|n: u64| #[trigger]
                is_segment(marked, dirs, dir, n) <==> is_segment(files, dirs, dir, n)
        }),
{
    let cp = checkpoint_path(dir);
    let marked = files.insert(cp, bytes);
    assert(segment_number(cp.last()) is None) by {
        reveal_strlit("CHECKPOINT");
        reveal_strlit(".wal");
        assert(cp.last() == "CHECKPOINT"@);
        assert("CHECKPOINT"@.skip(6)[0] == 'O');
        assert(".wal"@[0] == '.');
    }
    assert(orderly(marked, dirs, dir));
    assert forall|n: u64| #[trigger] is_segment(marked, dirs, dir, n) <==> is_segment(
        files,
        dirs,
        dir,
        n,
    ) by {
        a_segment_is_named_by_its_number(dir, n);
        lemma_segment_is_file(marked, dirs, dir, n);
        lemma_segment_is_file(files, dirs, dir, n);
    }
    let segs = segments(files, dirs, dir);
    lemma_segments_listed(files, dirs, dir);
    assert(are_segments(segs, marked, dirs, dir));
    lemma_segments_are(segs, marked, dirs, dir);
    assert forall|k: int| 0 <= k < segs.len() implies records_of(
        files[segment_path(dir, #[trigger] segs[k])],
    ) == records_of(marked[segment_path(dir, segs[k])]) by {
        a_segment_is_named_by_its_number(dir, segs[k]);
    }
    lemma_same_log(files, marked, dir, segs);
}

proof fn lemma_head_is_there(st: Replay, recs: Seq<Record>)
    requires
        replay(st, recs) is Fine,
        unharmed(st),
        st.ms.contains_key(st.head),
    ensures
        replay(st, recs)->Fine_0.ms.contains_key(replay(st, recs)->Fine_0.head),
    decreases recs.len(),
{
    if recs.len() > 0 {
        let next = replay_one(st, recs[0])->Fine_0;
        assert(next.held =~= next.ms.dom());
        lemma_head_is_there(next, recs.skip(1));
    }
}

/// A checkpoint does not change what recovery gives, however far it got before a crash.
pub proof fn a_checkpoint_changes_no_answer<B: Backing>(
    a: B,
    b: B,
    w: Wal,
    x: Wal,
    root: ManifestView,
    head: ManifestId,
    r: Result<Lsn, WalError>,
)
    requires
        in_step(a, w, root, head),
        checkpointed(a, b, w, x, head, r),
        w.spec_current() < u64::MAX,
        w.spec_next_lsn() < u64::MAX,
    ensures
        x.spec_doubt() ==> in_doubt(b, x, root, head, Set::empty()),
        !x.spec_doubt() ==> in_step(b, x, root, head),
        recoverable(b, w.spec_dir(), root, head),
{
    let (files, dirs) = a.elsewhere();
    let dir = w.spec_dir();
    lemma_begun(a.manifests(), marker(files, dir), root, 0);
    lemma_head_is_there(base_of(a.manifests(), marker(files, dir), root), log(files, dirs, dir));
    a_checkpoint_makes_the_head_durable(a, b, w, x, root, head, head, r);
}

/// A record that was cut off is no record, and a whole one is there.
proof fn lemma_one_framed(rec: Record)
    ensures
        records_of(frame(rec)) == seq![rec],
        whole(frame(rec)),
        seq![rec].skip(1) == Seq::<Record>::empty(),
        seq![rec].take(1) == seq![rec],
        seq![rec].take(0) == Seq::<Record>::empty(),
{
    reveal_with_fuel(frames, 2);
    assert(seq![rec].skip(1) =~= Seq::empty());
    assert(frames(seq![rec]) =~= frame(rec));
    framed_records_read_back(seq![rec]);
    assert(seq![rec].take(1) =~= seq![rec]);
    assert(seq![rec].take(0) =~= Seq::empty());
}

/// A head that was noted at the end of a log is the one that the log leads to.
proof fn lemma_noted<B: Backing>(
    a: B,
    b: B,
    w: Wal,
    x: Wal,
    root: ManifestView,
    at: ManifestId,
    head: ManifestId,
)
    requires
        in_step(a, w, root, at),
        a.manifests().contains_key(head),
        w.spec_current() < u64::MAX,
        w.spec_next_lsn() < u64::MAX,
        intact(b),
        b.manifests() == a.manifests(),
        b.elsewhere().1 == a.elsewhere().1,
        x.spec_dir() == w.spec_dir(),
        x.spec_next_lsn() == w.spec_next_lsn() + 1,
        !x.spec_doubt(),
        ({
            let rec = Record {
                lsn: w.spec_next_lsn(),
                kind: RecordKind::Checkpoint { manifest: head },
            };
            &&& b.elsewhere().0 == appended(
                a.elsewhere().0,
                segment_path(w.spec_dir(), w.spec_current()),
                frame(rec),
            )
            &&& (x.spec_current(), x.spec_bytes()) == rolled(
                w.spec_current(),
                w.spec_bytes(),
                frame(rec).len(),
            )
        }),
    ensures
        in_step(b, x, root, head),
        recoverable(b, w.spec_dir(), root, head),
{
    let ms = a.manifests();
    let (files, dirs) = a.elsewhere();
    let noted = b.elsewhere().0;
    let dir = w.spec_dir();
    let lsn = w.spec_next_lsn();
    let rec = Record { lsn, kind: RecordKind::Checkpoint { manifest: head } };
    lemma_one_framed(rec);
    assert(numbers_left(files, dirs, dir));
    what_is_appended_comes_last(files, dirs, dir, w.spec_current(), frame(rec));
    lemma_recovery_goes_on(ms, ms, files, noted, dirs, dir, root, seq![rec]);
    lemma_numbers_left(files, noted, dirs, dir, seq![rec], seq![rec]);
    reveal_with_fuel(replay, 2);
    lemma_in_step_after(
        files,
        noted,
        dirs,
        dir,
        w.spec_current(),
        x.spec_current(),
        seq![rec],
        frame(rec),
        lsn,
        x.spec_next_lsn(),
    );
    lemma_end_moves(files, dir, w, x, frame(rec));
}

/// Where noting a head failed, the log leads where it did once the rest is cut off, and until then
/// there or to that head.
proof fn lemma_partly_noted<B: Backing>(
    a: B,
    b: B,
    w: Wal,
    x: Wal,
    root: ManifestView,
    at: ManifestId,
    head: ManifestId,
)
    requires
        in_step(a, w, root, at),
        a.manifests().contains_key(head),
        w.spec_next_lsn() < u64::MAX,
        intact(b),
        b.manifests() == a.manifests(),
        b.elsewhere().1 == a.elsewhere().1,
        x.spec_dir() == w.spec_dir(),
        same_end(w, x),
        x.spec_doubt(),
        x.spec_next_lsn() == w.spec_next_lsn() + 1,
        ({
            let rec = Record {
                lsn: w.spec_next_lsn(),
                kind: RecordKind::Checkpoint { manifest: head },
            };
            b.elsewhere().0 == a.elsewhere().0 || partly_appended(
                a.elsewhere().0,
                b.elsewhere().0,
                segment_path(w.spec_dir(), w.spec_current()),
                frame(rec),
            )
        }),
    ensures
        in_step_with(b, taken_back(x, b.elsewhere().0), x, root, at),
        recoverable(b, w.spec_dir(), root, at) || recoverable(b, w.spec_dir(), root, head),
{
    let ms = a.manifests();
    let (files, dirs) = a.elsewhere();
    let less = b.elsewhere().0;
    let dir = w.spec_dir();
    let path = segment_path(dir, w.spec_current());
    let rec = Record { lsn: w.spec_next_lsn(), kind: RecordKind::Checkpoint { manifest: head } };
    let bytes = frame(rec);
    lemma_one_framed(rec);
    assert(numbers_left(files, dirs, dir));
    if less == files {
        lemma_back_in_step(a, b, w, x, root, at, bytes);
        assert(log(files, dirs, dir) + Seq::<Record>::empty() =~= log(files, dirs, dir));
        lemma_recovery_goes_on(ms, ms, files, less, dirs, dir, root, Seq::empty());
    } else {
        let k = choose|k: int|
            0 <= k <= bytes.len() && less == appended(files, path, #[trigger] bytes.take(k));
        let part = bytes.take(k);
        lemma_back_in_step(a, b, w, x, root, at, part);
        what_is_appended_comes_last(files, dirs, dir, w.spec_current(), part);
        lemma_recovery_goes_on(ms, ms, files, less, dirs, dir, root, records_of(part));
        if part.len() < bytes.len() {
            a_cut_record_is_torn(rec, part.len() as int);
            assert(records_of(part) =~= Seq::empty());
            lemma_numbers_left(files, less, dirs, dir, seq![rec], records_of(part));
        } else {
            assert(part =~= bytes);
            lemma_numbers_left(files, less, dirs, dir, seq![rec], seq![rec]);
            reveal_with_fuel(replay, 2);
        }
    }
}

/// A checkpoint makes the store's head durable, wherever it was moved to: where it goes through,
/// recovery gives that head, and where it does not, that one or the one from before.
pub proof fn a_checkpoint_makes_the_head_durable<B: Backing>(
    a: B,
    b: B,
    w: Wal,
    x: Wal,
    root: ManifestView,
    at: ManifestId,
    head: ManifestId,
    r: Result<Lsn, WalError>,
)
    requires
        in_step(a, w, root, at),
        checkpointed(a, b, w, x, head, r),
        a.manifests().contains_key(head),
        w.spec_current() < u64::MAX,
        w.spec_next_lsn() < u64::MAX,
    ensures
        r is Ok ==> !x.spec_doubt(),
        x.spec_doubt() ==> in_step_with(b, taken_back(x, b.elsewhere().0), x, root, at),
        !x.spec_doubt() ==> in_step(b, x, root, head),
        recoverable(b, w.spec_dir(), root, at) || recoverable(b, w.spec_dir(), root, head),
{
    let ms = a.manifests();
    let (files, dirs) = a.elsewhere();
    let less = b.elsewhere().0;
    let dir = w.spec_dir();
    let current = w.spec_current();
    let lsn = w.spec_next_lsn();
    let path = segment_path(dir, current);
    let rec = Record { lsn, kind: RecordKind::Checkpoint { manifest: head } };
    let bytes = frame(rec);
    let end = recovery_of(ms, ms.dom(), files, dirs, dir, root, 0)->Fine_0;
    let noted = appended(files, path, bytes);
    let marked = noted.insert(checkpoint_path(dir), bytes);
    assert(records_of(Seq::<u8>::empty()) =~= Seq::empty());
    assert(records_of(bytes) == seq![rec] && whole(bytes)) by {
        reveal_with_fuel(frames, 2);
        assert(seq![rec].skip(1) =~= Seq::empty());
        assert(frames(seq![rec]) =~= bytes);
        framed_records_read_back(seq![rec]);
    }
    a_framed_record_reads_back(rec, Seq::empty());
    assert(bytes + Seq::<u8>::empty() =~= bytes);
    assert(numbers_left(files, dirs, dir));
    if r is Err && x.spec_doubt() {
        lemma_partly_noted(a, b, w, x, root, at, head);
    } else if r is Err && less == noted {
        lemma_noted(a, b, w, x, root, at, head);
    } else {
        let keep = if r is Ok {
            x.spec_current() as int
        } else {
            choose|keep: int|
                0 <= keep <= x.spec_current() && less == #[trigger] cleared(marked, dir, keep)
        };
        what_is_appended_comes_last(files, dirs, dir, current, bytes);
        lemma_marked(noted, dirs, dir, bytes);
        lemma_cleared(marked, dirs, dir, keep);
        let recs = log(less, dirs, dir);
        let all = log(noted, dirs, dir);
        assert forall|i: int| 0 <= i < recs.len() implies (#[trigger] recs[i]).lsn <= lsn by {
            assert(recs.contains(recs[i]));
            assert(log(marked, dirs, dir).contains(recs[i]));
            let j = choose|j: int| 0 <= j < all.len() && all[j] == recs[i];
            let before = log(files, dirs, dir);
            if j < before.len() {
                assert(all[j] == before[j]);
            } else {
                assert(all[j] == rec);
            }
        }
        assert(marker(less, dir) == Some((head, lsn)));
        lemma_captured_is_skipped(start_from(ms, head, after(lsn), Some(lsn)), recs, lsn);
        lemma_in_step_after(
            files,
            noted,
            dirs,
            dir,
            current,
            x.spec_current(),
            seq![rec],
            bytes,
            lsn,
            x.spec_next_lsn(),
        );
        lemma_end_moves(files, dir, w, x, bytes);
        lemma_segment_is_file(less, dirs, dir, x.spec_current());
        assert(forall|n: u64| is_segment(less, dirs, dir, n) ==> n <= x.spec_current());
        let end_path = segment_path(dir, x.spec_current());
        a_segment_is_named_by_its_number(dir, x.spec_current());
        assert(!old_segment(end_path, dir, keep)) by {
            if old_segment(end_path, dir, keep) {
                let k = choose|k: u64| k < keep && end_path == #[trigger] segment_path(dir, k);
                lemma_segment_paths(dir, k, x.spec_current());
            }
        }
        assert(less.contains_key(end_path) <==> noted.contains_key(end_path));
        assert(less.contains_key(end_path) ==> less[end_path] == noted[end_path]);
        assert(at_end(less, dirs, dir, x.spec_current()));
    }
}

// ---------------------------------------------------------------------------------------------
// Recovery.
// ---------------------------------------------------------------------------------------------

/// A log that was cut off behind its first `n` records has these records, is orderly, and every
/// segment ends where a record ends.
proof fn lemma_mended_log(files: Map<Names, Seq<u8>>, dirs: Set<Names>, dir: Names, n: int)
    requires
        orderly(files, dirs, dir),
        0 <= n <= log(files, dirs, dir).len(),
    ensures
        ({
            let good = mended(files, dir, segments(files, dirs, dir), n);
            &&& orderly(good, dirs, dir)
            &&& log(good, dirs, dir) == log(files, dirs, dir).take(n)
            &&& marker(good, dir) == marker(files, dir)
            &&& forall|n: u64| #[trigger]
                is_segment(good, dirs, dir, n) <==> is_segment(files, dirs, dir, n)
            &&& forall|n: u64|
                is_segment(files, dirs, dir, n) ==> whole(#[trigger] good[segment_path(dir, n)])
        }),
{
    let segs = segments(files, dirs, dir);
    let good = mended(files, dir, segs, n);
    lemma_segments_listed(files, dirs, dir);
    assert forall|i: int| 0 <= i < segs.len() implies files.contains_key(
        segment_path(dir, #[trigger] segs[i]),
    ) by {
        assert(segs.contains(segs[i]));
        lemma_segment_is_file(files, dirs, dir, segs[i]);
    }
    lemma_mended(files, dir, segs, n);
    assert(orderly(good, dirs, dir));
    assert forall|n: u64| #[trigger] is_segment(good, dirs, dir, n) <==> is_segment(
        files,
        dirs,
        dir,
        n,
    ) by {
        lemma_segment_is_file(good, dirs, dir, n);
        lemma_segment_is_file(files, dirs, dir, n);
    }
    assert(are_segments(segs, good, dirs, dir));
    lemma_segments_are(segs, good, dirs, dir);
    lemma_mended_records(files, dir, segs, n, segs.len() as int);
    assert(segs.take(segs.len() as int) =~= segs);
    assert forall|k: u64| is_segment(files, dirs, dir, k) implies whole(
        #[trigger] good[segment_path(dir, k)],
    ) by {
        assert(segs.contains(k));
        let i = choose|i: int| 0 <= i < segs.len() && segs[i] == k;
        lemma_kept_records(
            files[segment_path(dir, segs[i])],
            n - log_in(files, dir, segs.take(i)).len(),
        );
    }
    assert(good.contains_key(checkpoint_path(dir)) <==> files.contains_key(checkpoint_path(dir)));
    assert(good[checkpoint_path(dir)] == files[checkpoint_path(dir)]) by {
        assert forall|i: int| 0 <= i < segs.len() implies checkpoint_path(dir) != segment_path(
            dir,
            #[trigger] segs[i],
        ) by {
            a_segment_is_named_by_its_number(dir, segs[i]);
        }
    }
}

/// What is left of a segment are the first of its records.
proof fn lemma_kept_records(bytes: Seq<u8>, n: int)
    ensures
        ({
            let kept = bytes.take(len_of_first(bytes, n) as int);
            let all = records_of(bytes);
            &&& whole(kept)
            &&& records_of(kept) == (if n <= 0 {
                Seq::empty()
            } else if n <= all.len() {
                all.take(n)
            } else {
                all
            })
        }),
{
    let all = records_of(bytes);
    if n <= 0 {
        lemma_len_of_first(bytes, 0);
        assert(all.take(0) =~= Seq::empty());
    } else if n <= all.len() {
        lemma_len_of_first(bytes, n);
    } else {
        lemma_len_of_first(bytes, n);
        lemma_len_of_first(bytes, all.len() as int);
        assert(all.take(all.len() as int) =~= all);
    }
}

/// The first of two lists are the first of one, and then of the other.
proof fn lemma_take_of_two(
    a: Seq<Record>,
    b: Seq<Record>,
    x: Seq<Record>,
    y: Seq<Record>,
    n: int,
)
    requires
        0 <= n,
        x == (if n <= a.len() {
            a.take(n)
        } else {
            a
        }),
        y == (if n - a.len() <= 0 {
            Seq::empty()
        } else if n - a.len() <= b.len() {
            b.take(n - a.len())
        } else {
            b
        }),
    ensures
        x + y == (if n <= (a + b).len() {
            (a + b).take(n)
        } else {
            a + b
        }),
{
    if n <= a.len() {
        assert(x + y =~= (a + b).take(n));
    } else if n <= (a + b).len() {
        assert(x + y =~= (a + b).take(n));
    }
}

/// Where one segment is cut.
proof fn lemma_mended_at(files: Map<Names, Seq<u8>>, dir: Names, segs: Seq<u64>, n: int, i: int)
    requires
        ascending(segs),
        forall|k: int|
            0 <= k < segs.len() ==> files.contains_key(segment_path(dir, #[trigger] segs[k])),
        0 <= i < segs.len(),
    ensures
        ({
            let p = segment_path(dir, segs[i]);
            mended(files, dir, segs, n)[p] == files[p].take(
                len_of_first(files[p], n - log_in(files, dir, segs.take(i)).len()) as int,
            )
        }),
{
    lemma_mended(files, dir, segs, n);
}

proof fn lemma_mended_records(files: Map<Names, Seq<u8>>, dir: Names, segs: Seq<u64>, n: int, i: int)
    requires
        ascending(segs),
        forall|k: int|
            0 <= k < segs.len() ==> files.contains_key(segment_path(dir, #[trigger] segs[k])),
        0 <= i <= segs.len(),
        0 <= n,
    ensures
        ({
            let all = log_in(files, dir, segs.take(i));
            log_in(mended(files, dir, segs, n), dir, segs.take(i)) == (if n <= all.len() {
                all.take(n)
            } else {
                all
            })
        }),
    decreases i,
{
    let good = mended(files, dir, segs, n);
    let all = log_in(files, dir, segs.take(i));
    if i == 0 {
        assert(segs.take(0) =~= Seq::empty());
        assert(all =~= Seq::empty());
        assert(log_in(good, dir, segs.take(i)) =~= Seq::empty());
    } else {
        lemma_mended_at(files, dir, segs, n, i - 1);
        lemma_mended_records(files, dir, segs, n, i - 1);
        let before = log_in(files, dir, segs.take(i - 1));
        let p = segment_path(dir, segs[i - 1]);
        assert(segs.take(i).drop_last() =~= segs.take(i - 1));
        assert(segs.take(i).last() == segs[i - 1]);
        lemma_kept_records(files[p], n - before.len());
        let (x, y) = (log_in(good, dir, segs.take(i - 1)), records_of(good[p]));
        assert(log_in(good, dir, segs.take(i)) == x + y);
        lemma_take_of_two(before, records_of(files[p]), x, y, n);
    }
}

/// The number after a replay is greater than every number in it.
proof fn lemma_numbers_seen(st: Replay, recs: Seq<Record>)
    requires
        replay(st, recs) is Fine,
        forall|i: int| 0 <= i < recs.len() ==> (#[trigger] recs[i]).lsn < u64::MAX,
    ensures
        st.next_lsn <= replay(st, recs)->Fine_0.next_lsn,
        forall|i: int|
            0 <= i < recs.len() ==> (#[trigger] recs[i]).lsn < replay(st, recs)->Fine_0.next_lsn,
    decreases recs.len(),
{
    if recs.len() > 0 {
        let next = replay_one(st, recs[0])->Fine_0;
        let tail = recs.skip(1);
        assert forall|i: int| 0 <= i < tail.len() implies (#[trigger] tail[i]).lsn < u64::MAX by {
            assert(tail[i] == recs[i + 1]);
        }
        lemma_numbers_seen(next, tail);
        assert forall|i: int| 0 <= i < recs.len() implies (#[trigger] recs[i]).lsn < replay(
            st,
            recs,
        )->Fine_0.next_lsn by {
            if i > 0 {
                assert(tail[i - 1] == recs[i]);
            }
        }
    }
}

/// Recovery is idempotent: recovering a store that was just recovered gives the same head, finds
/// no manifest that the store does not have, and no unfinished transaction, whatever the log's next
/// number is by then.
pub proof fn recovering_again_changes_nothing<B: Backing>(
    a: B,
    b: B,
    w: Wal,
    x: Wal,
    root: ManifestView,
    head: ManifestId,
    rec: Recovery,
    next_lsn: u64,
)
    requires
        intact(a),
        orderly(a.elsewhere().0, a.elsewhere().1, w.spec_dir()),
        recovered(a, b, w, x, root, head, Ok(rec)),
    ensures
        intact(b),
        ({
            let (files, dirs) = b.elsewhere();
            recovery_of(
                b.manifests(),
                b.held_manifests(),
                files,
                dirs,
                w.spec_dir(),
                root,
                next_lsn,
            ) matches Outcome::Fine(end) && end.head == head && end.ms == b.manifests()
                && end.pending.is_empty()
        }),
{
    let (files, dirs) = a.elsewhere();
    let dir = w.spec_dir();
    let mark = marker(files, dir);
    let st = begun(a.manifests(), a.held_manifests(), mark, root, w.spec_next_lsn());
    let recs = log(files, dirs, dir);
    let end = replay(st, recs)->Fine_0;
    let n = settled(captured_by(mark), recs) as int;
    lemma_settled(captured_by(mark), recs);
    lemma_mended_log(files, dirs, dir, n);
    assert(st.held =~= st.ms.dom());
    lemma_replay_extends(st, recs);
    lemma_replay_unharmed(st, recs);
    an_unfinished_transaction_can_be_dropped(st, recs);
    lemma_run_again(st, end.ms, recs.take(n), next_lsn);
    if mark is None {
        assert(st.ms.contains_key(root.id()));
        assert(end.ms.contains_key(root.id()));
        assert(end.held.insert(root.id()) =~= end.held);
    }
}

/// A replay of the same records gives the same head and manifests on a store that already has some
/// of them.
proof fn lemma_run_again(st: Replay, more: Manifests, recs: Seq<Record>, next_lsn: u64)
    requires
        unharmed(st),
        replay(st, recs) is Fine,
        extends(st.ms, more),
        extends(more, replay(st, recs)->Fine_0.ms),
    ensures
        ({
            let end = replay(st, recs)->Fine_0;
            let again = onto(st, more);
            &&& replay(again, recs) matches Outcome::Fine(e) && e.head == end.head && e.ms == end.ms
                && e.pending == end.pending
            &&& replay(Replay { next_lsn, ..again }, recs) matches Outcome::Fine(e) && e.head
                == end.head && e.ms == end.ms && e.pending == end.pending
        }),
{
    let end = replay(st, recs)->Fine_0;
    assert(agree(more, end.ms));
    other_manifests_do_not_matter(st, more, recs);
    assert(more.union_prefer_right(end.ms) =~= end.ms);
    the_first_number_does_not_matter(onto(st, more), next_lsn, recs);
}

/// Cutting torn records off of the first segments leaves the records of every segment.
proof fn lemma_torn_cut_records(
    files: Map<Names, Seq<u8>>,
    dir: Names,
    segs: Seq<u64>,
    i: int,
    k: int,
)
    requires
        ascending(segs),
        forall|k: int|
            0 <= k < segs.len() ==> files.contains_key(segment_path(dir, #[trigger] segs[k])),
        0 <= i <= segs.len(),
        0 <= k < segs.len(),
    ensures
        ({
            let now = mended(files, dir, segs.take(i), log_in(files, dir, segs).len() as int);
            let p = segment_path(dir, segs[k]);
            records_of(now[p]) == records_of(files[p])
        }),
{
    let done = segs.take(i);
    let n = log_in(files, dir, segs).len() as int;
    let p = segment_path(dir, segs[k]);
    assert forall|j: int| 0 <= j < done.len() implies files.contains_key(
        segment_path(dir, #[trigger] done[j]),
    ) by {
        assert(done[j] == segs[j]);
    }
    assert(ascending(done));
    if k < i {
        assert(done[k] == segs[k]);
        assert(done.take(k) =~= segs.take(k));
        lemma_mended_at(files, dir, done, n, k);
        assert(segs.take(segs.len() as int) =~= segs);
        lemma_log_grows(files, dir, segs, k, segs.len() as int);
        lemma_kept_records(files[p], n - log_in(files, dir, segs.take(k)).len());
        let all = records_of(files[p]);
        assert(all.take(all.len() as int) =~= all);
    } else {
        assert forall|j: int| 0 <= j < done.len() implies p != segment_path(
            dir,
            #[trigger] done[j],
        ) by {
            assert(done[j] == segs[j]);
            lemma_segment_paths(dir, segs[j], segs[k]);
        }
        lemma_mended(files, dir, done, n);
    }
}

/// Cutting torn records off of the first segments leaves the log.
proof fn lemma_torn_cut(files: Map<Names, Seq<u8>>, dirs: Set<Names>, dir: Names, i: int)
    requires
        orderly(files, dirs, dir),
        0 <= i <= segments(files, dirs, dir).len(),
    ensures
        ({
            let now = mended(
                files,
                dir,
                segments(files, dirs, dir).take(i),
                log(files, dirs, dir).len() as int,
            );
            &&& orderly(now, dirs, dir)
            &&& marker(now, dir) == marker(files, dir)
            &&& log(now, dirs, dir) == log(files, dirs, dir)
        }),
{
    let segs = segments(files, dirs, dir);
    let done = segs.take(i);
    let n = log(files, dirs, dir).len() as int;
    let now = mended(files, dir, done, n);
    lemma_segments_listed(files, dirs, dir);
    assert forall|k: int| 0 <= k < segs.len() implies files.contains_key(
        segment_path(dir, #[trigger] segs[k]),
    ) by {
        assert(segs.contains(segs[k]));
        lemma_segment_is_file(files, dirs, dir, segs[k]);
    }
    assert forall|k: int| 0 <= k < segs.len() implies records_of(
        files[segment_path(dir, #[trigger] segs[k])],
    ) == records_of(now[segment_path(dir, segs[k])]) by {
        lemma_torn_cut_records(files, dir, segs, i, k);
    }
    lemma_same_log(files, now, dir, segs);
    assert forall|j: int| 0 <= j < done.len() implies files.contains_key(
        segment_path(dir, #[trigger] done[j]),
    ) && checkpoint_path(dir) != segment_path(dir, done[j]) by {
        assert(done[j] == segs[j]);
        a_segment_is_named_by_its_number(dir, done[j]);
    }
    assert(ascending(done));
    lemma_mended(files, dir, done, n);
    assert(orderly(now, dirs, dir));
    assert forall|k: u64| #[trigger] is_segment(now, dirs, dir, k) <==> is_segment(
        files,
        dirs,
        dir,
        k,
    ) by {
        lemma_segment_is_file(now, dirs, dir, k);
        lemma_segment_is_file(files, dirs, dir, k);
    }
    assert(are_segments(segs, now, dirs, dir));
    lemma_segments_are(segs, now, dirs, dir);
    assert(now[checkpoint_path(dir)] == files[checkpoint_path(dir)]);
}

/// A log that a recovery worked on and did not finish has the records that it had, up to some of
/// those of an unfinished transaction.
proof fn lemma_partly_settled(
    files: Map<Names, Seq<u8>>,
    dirs: Set<Names>,
    dir: Names,
    captured: Option<Lsn>,
    now: Map<Names, Seq<u8>>,
) -> (n: int)
    requires
        orderly(files, dirs, dir),
        partly_settled(files, dir, segments(files, dirs, dir), captured, now),
    ensures
        orderly(now, dirs, dir),
        marker(now, dir) == marker(files, dir),
        settled(captured, log(files, dirs, dir)) <= n <= log(files, dirs, dir).len(),
        log(now, dirs, dir) == log(files, dirs, dir).take(n),
{
    let segs = segments(files, dirs, dir);
    let recs = log(files, dirs, dir);
    let (i, n) = choose|i: int, n: int|
        0 <= i <= segs.len() && settled(captured, recs) <= n <= recs.len() && (i < segs.len() ==> n
            == recs.len()) && now == #[trigger] mended(files, dir, segs.take(i), n);
    if i == segs.len() {
        assert(segs.take(i) =~= segs);
        lemma_mended_log(files, dirs, dir, n);
    } else {
        lemma_torn_cut(files, dirs, dir, i);
        assert(recs.take(n) =~= recs);
    }
    n
}

/// A recovery that was stopped, by a crash or a failure at any point, has done no harm: running it
/// again gives the head and the manifests that it would have given.
pub proof fn a_recovery_that_stopped_can_be_run_again<B: Backing>(
    a: B,
    b: B,
    w: Wal,
    x: Wal,
    root: ManifestView,
    head: ManifestId,
    e: WalError,
    next_lsn: u64,
)
    requires
        intact(a),
        orderly(a.elsewhere().0, a.elsewhere().1, w.spec_dir()),
        recovered(a, b, w, x, root, head, Err(e)),
        recovery_of(
            a.manifests(),
            a.held_manifests(),
            a.elsewhere().0,
            a.elsewhere().1,
            w.spec_dir(),
            root,
            w.spec_next_lsn(),
        ) is Fine,
    ensures
        intact(b),
        orderly(b.elsewhere().0, b.elsewhere().1, w.spec_dir()),
        ({
            let end = recovery_of(
                a.manifests(),
                a.held_manifests(),
                a.elsewhere().0,
                a.elsewhere().1,
                w.spec_dir(),
                root,
                w.spec_next_lsn(),
            )->Fine_0;
            recovery_of(
                b.manifests(),
                b.held_manifests(),
                b.elsewhere().0,
                b.elsewhere().1,
                w.spec_dir(),
                root,
                next_lsn,
            ) matches Outcome::Fine(again) && again.head == end.head && again.ms == end.ms
        }),
{
    let (files, dirs) = a.elsewhere();
    let dir = w.spec_dir();
    let mark = marker(files, dir);
    let captured = captured_by(mark);
    let st = begun(a.manifests(), a.held_manifests(), mark, root, w.spec_next_lsn());
    let recs = log(files, dirs, dir);
    let end = replay(st, recs)->Fine_0;
    let now = b.elsewhere().0;
    let n = lemma_partly_settled(files, dirs, dir, captured, now);
    let left = recs.take(n);
    let s = settled(captured, recs) as int;
    assert(st.held =~= st.ms.dom());
    assert(left + recs.skip(n) =~= recs);
    lemma_replay_cat(st, left, recs.skip(n));
    an_unfinished_transaction_can_be_dropped(st, recs);
    lemma_settled_within(captured, recs, n);
    an_unfinished_transaction_can_be_dropped(st, left);
    assert(left.take(s) =~= recs.take(s));
    lemma_replay_extends(st, recs);
    if got_into(b, st, recs) {
        let k = choose|k: int| 0 <= k <= recs.len() && #[trigger] reached(b, st, recs.take(k));
        lemma_replay_extends(st, recs.take(k));
        lemma_replay_unharmed(st, recs.take(k));
        assert(recs.take(k) + recs.skip(k) =~= recs);
        lemma_replay_cat(st, recs.take(k), recs.skip(k));
        lemma_replay_extends(replay(st, recs.take(k))->Fine_0, recs.skip(k));
    }
    let more = if mark is None {
        stored(b.manifests(), b.held_manifests(), root)
    } else {
        b.manifests()
    };
    if b.manifests() == a.manifests() && b.held_manifests() == a.held_manifests() {
        assert(more == st.ms);
    } else {
        assert(more == b.manifests());
    }
    assert(extends(st.ms, more));
    assert(extends(more, end.ms));
    lemma_run_again(st, more, left, next_lsn);
    assert(more.dom() =~= (if mark is None {
        b.held_manifests().insert(root.id())
    } else {
        b.held_manifests()
    }));
}

/// The number that a recovered log hands out next is greater than every number in the log before,
/// and than that of the marker.
pub proof fn numbers_go_on_after_recovery<B: Backing>(
    a: B,
    b: B,
    w: Wal,
    x: Wal,
    root: ManifestView,
    head: ManifestId,
    rec: Recovery,
)
    requires
        recovered(a, b, w, x, root, head, Ok(rec)),
        numbers_left(a.elsewhere().0, a.elsewhere().1, w.spec_dir()),
    ensures
        ({
            let (files, dirs) = a.elsewhere();
            let recs = log(files, dirs, w.spec_dir());
            &&& forall|i: int|
                0 <= i < recs.len() ==> (#[trigger] recs[i]).lsn < x.spec_next_lsn()
            &&& marker(files, w.spec_dir()) matches Some((_, lsn)) ==> lsn < x.spec_next_lsn()
            &&& marker(files, w.spec_dir()) is None ==> w.spec_next_lsn() <= x.spec_next_lsn()
            &&& marker(files, w.spec_dir()) is None && recs.len() == 0 ==> x.spec_next_lsn()
                == w.spec_next_lsn()
        }),
{
    let (files, dirs) = a.elsewhere();
    let dir = w.spec_dir();
    let (ms, held) = (a.manifests(), a.held_manifests());
    let st = begun(ms, held, marker(files, dir), root, w.spec_next_lsn());
    lemma_numbers_seen(st, log(files, dirs, dir));
}

/// The records of a segment have smaller numbers than this.
pub open spec fn numbered_below(
    files: Map<Names, Seq<u8>>,
    dir: Names,
    n: u64,
    bound: u64,
) -> bool {
    let recs = records_of(files[segment_path(dir, n)]);
    forall|i: int| 0 <= i < recs.len() ==> (#[trigger] recs[i]).lsn < bound
}

/// The records of a log are those of its segments.
proof fn lemma_numbered_below(files: Map<Names, Seq<u8>>, dir: Names, segs: Seq<u64>, bound: u64)
    ensures
        (forall|i: int|
            0 <= i < log_in(files, dir, segs).len() ==> (#[trigger] log_in(files, dir, segs)[i]).lsn
                < bound) <==> (forall|n: u64| #[trigger]
            segs.contains(n) ==> numbered_below(files, dir, n, bound)),
    decreases segs.len(),
{
    let recs = log_in(files, dir, segs);
    if segs.len() > 0 {
        let (most, last) = (segs.drop_last(), segs.last());
        let (before, own) = (
            log_in(files, dir, most),
            records_of(files[segment_path(dir, last)]),
        );
        lemma_numbered_below(files, dir, most, bound);
        assert(recs =~= before + own);
        assert(segs.contains(last));
        assert forall|n: u64| segs.contains(n) <==> most.contains(n) || n == last by {
            if segs.contains(n) {
                let k = choose|k: int| 0 <= k < segs.len() && segs[k] == n;
                if k < most.len() {
                    assert(most[k] == n);
                }
            }
            if most.contains(n) {
                let k = choose|k: int| 0 <= k < most.len() && most[k] == n;
                assert(segs[k] == n);
            }
        }
        if forall|i: int| 0 <= i < recs.len() ==> (#[trigger] recs[i]).lsn < bound {
            assert forall|i: int| 0 <= i < before.len() implies (#[trigger] before[i]).lsn
                < bound by {
                assert(recs[i] == before[i]);
            }
            assert forall|i: int| 0 <= i < own.len() implies (#[trigger] own[i]).lsn < bound by {
                assert(recs[before.len() + i] == own[i]);
            }
        }
        if forall|n: u64| #[trigger] segs.contains(n) ==> numbered_below(files, dir, n, bound) {
            assert forall|n: u64| #[trigger] most.contains(n) implies numbered_below(
                files,
                dir,
                n,
                bound,
            ) by {
                assert(segs.contains(n));
            }
            assert(numbered_below(files, dir, last, bound));
            assert forall|i: int| 0 <= i < recs.len() implies (#[trigger] recs[i]).lsn < bound by {
                if i < before.len() {
                    assert(recs[i] == before[i]);
                } else {
                    assert(recs[i] == own[i - before.len()]);
                }
            }
        }
    }
}

/// The number that a recovered log hands out next is greater than every number in the segments
/// before, and than that of the marker, whatever the entries of the log's directory are named.
pub proof fn numbers_go_on_in_every_segment<B: Backing>(
    a: B,
    b: B,
    w: Wal,
    x: Wal,
    root: ManifestView,
    head: ManifestId,
    rec: Recovery,
)
    requires
        recovered_by_number(a, b, w, x, root, head, Ok(rec)),
        forall|n: u64| #[trigger]
            is_segment(a.elsewhere().0, a.elsewhere().1, w.spec_dir(), n) ==> numbered_below(
                a.elsewhere().0,
                w.spec_dir(),
                n,
                u64::MAX,
            ),
        marker(a.elsewhere().0, w.spec_dir()) matches Some((_, lsn)) ==> lsn < u64::MAX,
    ensures
        ({
            let (files, dirs) = a.elsewhere();
            let dir = w.spec_dir();
            &&& forall|n: u64| #[trigger]
                is_segment(files, dirs, dir, n) ==> numbered_below(files, dir, n, x.spec_next_lsn())
            &&& marker(files, dir) matches Some((_, lsn)) ==> lsn < x.spec_next_lsn()
            &&& marker(files, dir) is None ==> w.spec_next_lsn() <= x.spec_next_lsn()
        }),
{
    let (files, dirs) = a.elsewhere();
    let dir = w.spec_dir();
    let segs = choose|segs: Seq<u64>| #[trigger]
        are_numbers(segs, files, dirs, dir) && recovered_these(
            a,
            b,
            w,
            x,
            root,
            head,
            Ok(rec),
            segs,
        );
    let st = begun(
        a.manifests(),
        a.held_manifests(),
        marker(files, dir),
        root,
        w.spec_next_lsn(),
    );
    lemma_numbered_below(files, dir, segs, u64::MAX);
    lemma_numbers_seen(st, log_in(files, dir, segs));
    lemma_numbered_below(files, dir, segs, x.spec_next_lsn());
    assert forall|n: u64| #[trigger] is_segment(files, dirs, dir, n) implies numbered_below(
        files,
        dir,
        n,
        x.spec_next_lsn(),
    ) by {
        assert(segs.contains(n));
    }
}

/// A store that was just recovered is in step with its log, whatever unfinished transactions the
/// log had.
pub proof fn a_recovered_store_is_in_step<B: Backing>(
    a: B,
    b: B,
    w: Wal,
    x: Wal,
    root: ManifestView,
    head: ManifestId,
    rec: Recovery,
)
    requires
        intact(a),
        orderly(a.elsewhere().0, a.elsewhere().1, w.spec_dir()),
        numbers_left(a.elsewhere().0, a.elsewhere().1, w.spec_dir()),
        x.spec_dir() == w.spec_dir(),
        recovered(a, b, w, x, root, head, Ok(rec)),
    ensures
        in_step(b, x, root, head),
{
    let (files, dirs) = a.elsewhere();
    let dir = w.spec_dir();
    let good = b.elsewhere().0;
    let recs = log(files, dirs, dir);
    let n = settled(captured_by(marker(files, dir)), recs) as int;
    recovering_again_changes_nothing(a, b, w, x, root, head, rec, 0);
    numbers_go_on_after_recovery(a, b, w, x, root, head, rec);
    lemma_settled(captured_by(marker(files, dir)), recs);
    lemma_mended_log(files, dirs, dir, n);
    lemma_segments_listed(files, dirs, dir);
    let segs = segments(files, dirs, dir);
    lemma_segment_is_file(good, dirs, dir, x.spec_current());
    assert forall|n: u64| is_segment(good, dirs, dir, n) implies n <= x.spec_current() by {
        assert(is_segment(files, dirs, dir, n));
        assert(segs.contains(n));
    }
    assert(at_end(good, dirs, dir, x.spec_current()));
    if segs.len() > 0 {
        assert(segs.contains(segs.last()));
        lemma_segment_is_file(files, dirs, dir, x.spec_current());
    } else {
        assert(!segs.contains(x.spec_current()));
        assert(!is_segment(files, dirs, dir, x.spec_current()));
    }
    assert(ends_there(x, good));
    assert forall|i: int| 0 <= i < log(good, dirs, dir).len() implies (#[trigger] log(
        good,
        dirs,
        dir,
    )[i]).lsn < x.spec_next_lsn() by {
        assert(log(good, dirs, dir)[i] == recs[i]);
    }
}

/// However a recovery ends, nothing is lost: where it goes through, as it does on a steady store, the
/// store has its head and is in step with its log, and where it does not, the store can still be
/// recovered, to the same head.
pub proof fn recovery_loses_nothing<B: Backing>(
    a: B,
    b: B,
    w: Wal,
    x: Wal,
    root: ManifestView,
    head: ManifestId,
    r: Result<Recovery, WalError>,
    wanted: ManifestId,
)
    requires
        recoverable(a, w.spec_dir(), root, wanted),
        recovered(a, b, w, x, root, head, r),
        x.spec_dir() == w.spec_dir(),
    ensures
        r is Ok ==> head == wanted && in_step(b, x, root, wanted),
        r is Ok ==> extends(a.manifests(), b.manifests()),
        r is Err ==> recoverable(b, w.spec_dir(), root, wanted),
        a.steady() ==> r is Ok,
{
    let (files, dirs) = a.elsewhere();
    let dir = w.spec_dir();
    let mark = marker(files, dir);
    let n = w.spec_next_lsn();
    the_first_number_does_not_matter(
        begun(a.manifests(), a.held_manifests(), mark, root, 0),
        n,
        log(files, dirs, dir),
    );
    match r {
        Ok(rec) => {
            a_recovered_store_is_in_step(a, b, w, x, root, head, rec);
            lemma_begun(a.manifests(), mark, root, n);
            lemma_replay_extends(
                begun(a.manifests(), a.held_manifests(), mark, root, n),
                log(files, dirs, dir),
            );
        },
        Err(e) => {
            a_recovery_that_stopped_can_be_run_again(a, b, w, x, root, head, e, 0);
            let now = b.elsewhere().0;
            let k = lemma_partly_settled(files, dirs, dir, captured_by(mark), now);
            assert forall|i: int| 0 <= i < log(now, dirs, dir).len() implies (#[trigger] log(
                now,
                dirs,
                dir,
            )[i]).lsn < u64::MAX by {
                assert(log(now, dirs, dir)[i] == log(files, dirs, dir)[i]);
            }
        },
    }
}

/// What is accounted for can be recovered: recovering gives the head, or one that a failed operation
/// tried to reach.
pub proof fn what_is_accounted_for_can_be_recovered<B: Backing>(
    b: B,
    w: Wal,
    root: ManifestView,
    head: ManifestId,
    tried: Set<ManifestId>,
)
    requires
        accounted(b, w, root, head, tried),
    ensures
        near(b, w.spec_dir(), root, head, tried),
{
    if in_step(b, w, root, head) {
        assert(recoverable(b, w.spec_dir(), root, head));
    }
}

/// Settling the end of the log puts it in step.
proof fn lemma_settled_in_step<B: Backing>(
    a: B,
    b: B,
    w: Wal,
    x: Wal,
    root: ManifestView,
    head: ManifestId,
    tried: Set<ManifestId>,
)
    requires
        accounted(a, w, root, head, tried),
        settled_to(a, b, w, x),
    ensures
        in_step(b, x, root, head),
{
    assert(ends_there(x, b.elsewhere().0));
}

/// And where that fails, nothing is lost.
proof fn lemma_unsettled<B: Backing>(
    a: B,
    b: B,
    w: Wal,
    x: Wal,
    root: ManifestView,
    head: ManifestId,
    tried: Set<ManifestId>,
    e: WalError,
)
    requires
        accounted(a, w, root, head, tried),
        unsettled(a, b, w, x, e),
    ensures
        in_doubt(b, x, root, head, tried),
{
    let files = a.elsewhere().0;
    let now = b.elsewhere().0;
    let back = taken_back(w, files);
    let path = segment_path(w.spec_dir(), w.spec_current());
    if back.contains_key(path) {
        assert(cut(back[path], w.spec_bytes()) =~= back[path]);
    }
    assert(taken_back(x, now) =~= back);
    assert(ends_there(x, back));
    assert(in_step_with(b, back, x, root, head));
    if now == back {
        assert(recoverable(b, x.spec_dir(), root, head));
    } else {
        assert(forall|h: ManifestId| recoverable(a, w.spec_dir(), root, h) ==> #[trigger]
            recoverable(b, x.spec_dir(), root, h));
        if !recoverable(a, w.spec_dir(), root, head) {
            let h = choose|h: ManifestId|
                tried.contains(h) && #[trigger] recoverable(a, w.spec_dir(), root, h);
            assert(tried.contains(h) && recoverable(b, x.spec_dir(), root, h));
        }
    }
}

/// Noting the store's head puts a log in step with it, and where that fails nothing is lost.
proof fn lemma_headed<B: Backing>(
    a: B,
    b: B,
    w: Wal,
    x: Wal,
    root: ManifestView,
    at: ManifestId,
    head: ManifestId,
    r: Result<(), WalError>,
)
    requires
        in_step(a, w, root, at),
        headed(a, b, w, x, at, head, r),
        w.spec_current() < u64::MAX,
        w.spec_next_lsn() < u64::MAX,
    ensures
        r is Ok ==> in_step(b, x, root, head),
        r is Err ==> in_doubt(b, x, root, at, set![head]),
{
    if at != head {
        if r is Ok {
            lemma_noted(a, b, w, x, root, at, head);
        } else {
            lemma_partly_noted(a, b, w, x, root, at, head);
        }
    }
}

/// However a commit ends, everything is accounted for: up to the manifest that it gave, or up to the
/// head that the log leads to where it failed. So what a commit acknowledged is there for good,
/// whatever fails after it, and wherever the store's head was moved to before it.
pub proof fn a_commit_keeps_the_account<B: Backing>(
    a: B,
    b: B,
    w: Wal,
    x: Wal,
    root: ManifestView,
    at: ManifestId,
    now_at: ManifestId,
    head: ManifestId,
    writes: Writes,
    now_ms: u64,
    r: Result<ManifestId, WalError>,
    tried: Set<ManifestId>,
)
    requires
        accounted(a, w, root, at, tried),
        logged_from(a, b, w, x, at, now_at, head, writes, now_ms, r),
        writes.dom().finite(),
        w.spec_current() + 1 < u64::MAX,
        w.spec_next_lsn() + writes.dom().len() + 1 < u64::MAX,
        no_clash(a.manifests(), derived(a.manifests(), head, writes, now_ms)),
    ensures
        match r {
            Ok(id) => now_at == id && in_step(b, x, root, id),
            Err(_) => accounted(
                b,
                x,
                root,
                now_at,
                tried.insert(head).insert(derived(a.manifests(), head, writes, now_ms).id()),
            ),
        },
{
    let id = derived(a.manifests(), head, writes, now_ms).id();
    let more = tried.insert(head).insert(id);
    if exists|mid: B, v: Wal| #[trigger]
        ready_to_log(a, mid, w, v, at, head) && logged(mid, b, v, x, head, writes, now_ms, r)
            && now_at == (match r {
            Ok(id) => id,
            Err(_) => head,
        }) {
        let (mid, v) = choose|mid: B, v: Wal| #[trigger]
            ready_to_log(a, mid, w, v, at, head) && logged(mid, b, v, x, head, writes, now_ms, r)
                && now_at == (match r {
                Ok(id) => id,
                Err(_) => head,
            });
        let (c, u) = choose|c: B, u: Wal| #[trigger]
            settled_to(a, c, w, u) && headed(c, mid, u, v, at, head, Ok(()));
        lemma_settled_in_step(a, c, w, u, root, at, tried);
        lemma_headed(c, mid, u, v, root, at, head, Ok(()));
        match r {
            Ok(_) => {
                a_commit_is_never_lost_and_never_torn(
                    mid,
                    b,
                    v,
                    x,
                    root,
                    head,
                    writes,
                    now_ms,
                    r,
                );
            },
            Err(e) => {
                a_failed_commit_is_accounted_for(mid, b, v, x, root, head, writes, now_ms, e);
                assert(more.contains(id));
            },
        }
    } else {
        let e = r->Err_0;
        if unsettled(a, b, w, x, e) {
            lemma_unsettled(a, b, w, x, root, at, tried, e);
        } else if settled_to(a, b, w, x) {
            lemma_settled_in_step(a, b, w, x, root, at, tried);
        } else {
            let (c, u) = choose|c: B, u: Wal| #[trigger]
                settled_to(a, c, w, u) && headed(c, b, u, x, at, head, Err(e));
            lemma_settled_in_step(a, c, w, u, root, at, tried);
            lemma_headed(c, b, u, x, root, at, head, Err(e));
            assert(more.contains(head));
        }
    }
}

/// However a checkpoint ends, everything is accounted for: where it goes through, recovering gives
/// the store's head, wherever that was moved to, and where it does not, the log leads to that head or
/// to the one that it led to before.
pub proof fn a_checkpoint_keeps_the_account<B: Backing>(
    a: B,
    b: B,
    w: Wal,
    x: Wal,
    root: ManifestView,
    at: ManifestId,
    head: ManifestId,
    r: Result<Lsn, WalError>,
    tried: Set<ManifestId>,
)
    requires
        accounted(a, w, root, at, tried),
        checkpointed_settled(a, b, w, x, head, r),
        head == at || a.manifests().contains_key(head),
        w.spec_current() < u64::MAX,
        w.spec_next_lsn() < u64::MAX,
    ensures
        r is Ok ==> in_step(b, x, root, head),
        r is Err && !x.spec_doubt() ==> in_step(b, x, root, head),
        r is Err && x.spec_doubt() ==> in_doubt(b, x, root, at, tried.insert(head)),
{
    if exists|mid: B, v: Wal| #[trigger]
        settled_to(a, mid, w, v) && checkpointed(mid, b, v, x, head, r) {
        let (mid, v) = choose|mid: B, v: Wal| #[trigger]
            settled_to(a, mid, w, v) && checkpointed(mid, b, v, x, head, r);
        lemma_settled_in_step(a, mid, w, v, root, at, tried);
        let (files, dirs) = mid.elsewhere();
        let dir = v.spec_dir();
        lemma_begun(mid.manifests(), marker(files, dir), root, 0);
        lemma_head_is_there(
            base_of(mid.manifests(), marker(files, dir), root),
            log(files, dirs, dir),
        );
        a_checkpoint_makes_the_head_durable(mid, b, v, x, root, at, head, r);
        assert(tried.insert(head).contains(head));
    } else {
        lemma_unsettled(a, b, w, x, root, at, tried, r->Err_0);
    }
}

/// A store that has no log yet is in step with it, at its empty root.
pub proof fn a_store_without_a_log_is_in_step<B: Backing>(b: B, w: Wal, root: ManifestView)
    requires
        intact(b),
        !w.spec_doubt(),
        w.spec_bytes() == 0,
        b.manifests().contains_key(root.id()),
        b.manifests()[root.id()] == root,
        forall|e: Names| #[trigger]
            is_child(e, w.spec_dir()) ==> !b.elsewhere().0.contains_key(e)
                && !b.elsewhere().1.contains(e),
    ensures
        in_step(b, w, root, root.id()),
{
    let (files, dirs) = b.elsewhere();
    let dir = w.spec_dir();
    let none = Seq::<u64>::empty();
    assert(checkpoint_path(dir).drop_last() =~= dir);
    assert(is_child(checkpoint_path(dir), dir));
    assert(are_segments(none, files, dirs, dir));
    lemma_segments_are(none, files, dirs, dir);
    a_segment_is_named_by_its_number(dir, w.spec_current());
    assert(b.manifests().insert(root.id(), root) =~= b.manifests());
}

} // verus!
