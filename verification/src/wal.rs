//! The write-ahead log: segments, the commit protocol, and recovery.

use crate::cas::{manifest_put, Backing};
use crate::chain::Manifests;
use crate::clock::Clock;
use crate::error::IoError;
use crate::fsstore::{outside, same_under, under, FsStore};
use crate::log::{
    after, frames, good_len, lemma_frames_push, lemma_good_len, lemma_len_of_first,
    lemma_len_of_first_grows, lemma_replay_cat, lemma_settled, len_of_first, records_of, replay,
    settled, start_at, stored, txn_records, unfinished, whole, Outcome, Replay,
};
use crate::manifest::{empty_view, ManifestId, ManifestView};
use crate::pagemap::{entries, entries_of};
use crate::pager::{lemma_popped, Pager};
use crate::path::{is_scratch, VPath};
use crate::record::{
    a_framed_record_reads_back, frame, read_front, reading_looks_no_further_than_the_record, Lsn, ReadOutcome, Record, RecordKind, Stage, TxnWrites, WalError,
};
use crate::replay::{
    capped, fails_as, got_into, is_replay_error, lemma_got_into_cat, lemma_installed, reached, Replaying,
};
use crate::text::{padded, padded_round_trips, parse_u64, parsed_u64, to_padded};
use crate::vfs::{above, appended, cut, is_child, leads_to, names_of, Names, Vfs};
use std::collections::BTreeMap;
use vstd::prelude::*;

verus! {

/// The size from which on a segment is sealed and a new one started.
pub const SEGMENT_TARGET_BYTES: u64 = 4194304;

/// What a recovery did.
#[derive(Clone, Copy, Debug, PartialEq, Eq)]
pub struct Recovery {
    /// Committed transactions replayed from the log.
    pub committed_txns: u64,
    /// Records read and verified.
    pub records_replayed: u64,
    /// Whether the log ended in a torn record: a crash in the middle of a write.
    pub torn_tail: bool,
    /// Page writes discarded because their transaction never committed.
    pub uncommitted_writes_discarded: u64,
    /// The last number that is durable and applied.
    pub durable_lsn: Lsn,
}

impl Default for Recovery {
    fn default() -> (r: Recovery)
        ensures
            r == (Recovery {
                committed_txns: 0,
                records_replayed: 0,
                torn_tail: false,
                uncommitted_writes_discarded: 0,
                durable_lsn: 0,
            }),
    {
        Recovery {
            committed_txns: 0,
            records_replayed: 0,
            torn_tail: false,
            uncommitted_writes_discarded: 0,
            durable_lsn: 0,
        }
    }
}

// ---------------------------------------------------------------------------------------------
// The files of a log.
// ---------------------------------------------------------------------------------------------

/// Where the segment with this number is.
pub open spec fn segment_path(dir: Names, n: u64) -> Names {
    dir.push(padded(n as nat, 12) + ".wal"@)
}

/// Where the checkpoint marker is.
pub open spec fn checkpoint_path(dir: Names) -> Names {
    dir.push("CHECKPOINT"@)
}

/// The number of the segment that a file of this name is, if it is one.
pub open spec fn segment_number(name: Seq<char>) -> Option<u64> {
    if name.len() >= 4 && name.skip(name.len() - 4) == ".wal"@ {
        parsed_u64(name.take(name.len() - 4))
    } else {
        None
    }
}

/// There is an entry in the log's directory that is named as the segment `n`.
pub open spec fn is_segment(
    files: Map<Names, Seq<u8>>,
    dirs: Set<Names>,
    dir: Names,
    n: u64,
) -> bool {
    exists|e: Names|
        is_child(e, dir) && (files.contains_key(e) || dirs.contains(e)) && #[trigger] segment_number(
            e.last(),
        ) == Some(n)
}

/// Everything named as a segment is a file, named as this log names it.
pub open spec fn orderly(files: Map<Names, Seq<u8>>, dirs: Set<Names>, dir: Names) -> bool {
    forall|e: Names|
        is_child(e, dir) && (files.contains_key(e) || dirs.contains(e)) && (
        #[trigger] segment_number(e.last()) is Some) ==> e == segment_path(
            dir,
            segment_number(e.last()).unwrap(),
        ) && files.contains_key(e) && !dirs.contains(e)
}

/// Each number is greater than the one before.
pub open spec fn ascending(s: Seq<u64>) -> bool {
    forall|i: int, j: int| 0 <= i < j < s.len() ==> #[trigger] s[i] < #[trigger] s[j]
}

/// `s` are the segments, in order.
pub open spec fn are_segments(
    s: Seq<u64>,
    files: Map<Names, Seq<u8>>,
    dirs: Set<Names>,
    dir: Names,
) -> bool {
    ascending(s) && forall|n: u64| #[trigger] s.contains(n) <==> is_segment(files, dirs, dir, n)
}

/// The entries of the log's directory that are named as the segment `n`.
pub open spec fn named_for(
    files: Map<Names, Seq<u8>>,
    dirs: Set<Names>,
    dir: Names,
    n: u64,
) -> Set<Names> {
    Set::new(
        |e: Names|
            is_child(e, dir) && (files.contains_key(e) || dirs.contains(e)) && segment_number(
                e.last(),
            ) == Some(n),
    )
}

/// `s` are the numbers of the segments, in order, each as often as entries are named for it.
pub open spec fn are_numbers(
    s: Seq<u64>,
    files: Map<Names, Seq<u8>>,
    dirs: Set<Names>,
    dir: Names,
) -> bool {
    &&& forall|i: int, j: int| 0 <= i < j < s.len() ==> #[trigger] s[i] <= #[trigger] s[j]
    &&& forall|n: u64| #[trigger]
        s.to_multiset().count(n) == named_for(files, dirs, dir, n).len()
    &&& forall|n: u64| #[trigger] s.contains(n) <==> is_segment(files, dirs, dir, n)
}

/// The segments of a log, in order.
pub open spec fn segments(files: Map<Names, Seq<u8>>, dirs: Set<Names>, dir: Names) -> Seq<u64> {
    choose|s: Seq<u64>| are_segments(s, files, dirs, dir)
}

/// The records in some segments, one segment after the other.
pub open spec fn log_in(files: Map<Names, Seq<u8>>, dir: Names, segs: Seq<u64>) -> Seq<Record>
    decreases segs.len(),
{
    if segs.len() == 0 {
        Seq::empty()
    } else {
        log_in(files, dir, segs.drop_last()) + records_of(files[segment_path(dir, segs.last())])
    }
}

/// All records of a log.
pub open spec fn log(files: Map<Names, Seq<u8>>, dirs: Set<Names>, dir: Names) -> Seq<Record> {
    log_in(files, dir, segments(files, dirs, dir))
}

/// The checkpoint that the marker tells of, if it is whole.
pub open spec fn marker(files: Map<Names, Seq<u8>>, dir: Names) -> Option<(ManifestId, Lsn)> {
    if files.contains_key(checkpoint_path(dir)) {
        match read_front(files[checkpoint_path(dir)]) {
            Some((r, _)) => match r.kind {
                RecordKind::Checkpoint { manifest } => Some((manifest, r.lsn)),
                _ => None,
            },
            None => None,
        }
    } else {
        None
    }
}

/// The files without the segments before `keep_from`.
pub open spec fn cleared(files: Map<Names, Seq<u8>>, dir: Names, keep_from: int) -> Map<
    Names,
    Seq<u8>,
> {
    Map::new(
        |f: Names| files.contains_key(f) && !old_segment(f, dir, keep_from),
        |f: Names| files[f],
    )
}

/// `f` is where a segment before `keep_from` is.
pub open spec fn old_segment(f: Names, dir: Names, keep_from: int) -> bool {
    exists|n: u64| n < keep_from && f == #[trigger] segment_path(dir, n)
}

/// A segment's own name has its number.
pub proof fn a_segment_is_named_by_its_number(dir: Names, n: u64)
    ensures
        segment_number(segment_path(dir, n).last()) == Some(n),
        is_child(segment_path(dir, n), dir),
        !is_scratch(segment_path(dir, n)),
        segment_path(dir, n) != checkpoint_path(dir),
{
    reveal_strlit(".wal");
    reveal_strlit(".tmp.");
    reveal_strlit("CHECKPOINT");
    padded_round_trips(n, 12);
    let name = padded(n as nat, 12) + ".wal"@;
    assert(segment_path(dir, n).last() == name);
    assert(segment_path(dir, n).drop_last() =~= dir);
    assert(name.skip(name.len() - 4) =~= ".wal"@);
    assert(name.take(name.len() - 4) =~= padded(n as nat, 12));
    if is_scratch(segment_path(dir, n)) {
        assert(name.take(5)[0] == '.');
        assert(name[0] == padded(n as nat, 12)[0]);
        assert(parsed_u64(padded(n as nat, 12)) is Some);
    }
    if segment_path(dir, n) == checkpoint_path(dir) {
        assert(checkpoint_path(dir).last() == "CHECKPOINT"@);
        assert(name.skip(name.len() - 4)[0] == '.');
        assert("CHECKPOINT"@.skip(6)[0] == 'O');
    }
}

/// A scratch file is no segment.
proof fn lemma_scratch_is_no_segment(e: Names)
    requires
        is_scratch(e),
    ensures
        segment_number(e.last()) is None,
{
    reveal_strlit(".wal");
    reveal_strlit(".tmp.");
    let name = e.last();
    assert(name.take(5)[0] == '.');
    assert(name[0] == '.');
    let stem = name.take(name.len() - 4);
    if segment_number(name) is Some {
        assert(stem.len() > 0);
        assert(stem[0] == '.');
    }
}

/// Two segments have two names.
pub proof fn lemma_segment_paths(dir: Names, a: u64, b: u64)
    ensures
        segment_path(dir, a) == segment_path(dir, b) ==> a == b,
{
    a_segment_is_named_by_its_number(dir, a);
    a_segment_is_named_by_its_number(dir, b);
}

/// Ascending lists of the same numbers are the same list.
pub proof fn lemma_ascending_unique(a: Seq<u64>, b: Seq<u64>)
    requires
        ascending(a),
        ascending(b),
        forall|n: u64| #[trigger] a.contains(n) <==> b.contains(n),
    ensures
        a == b,
    decreases a.len(),
{
    if a.len() == 0 {
        if b.len() > 0 {
            assert(b.contains(b[0]));
            assert(a.contains(b[0]));
        }
        assert(a =~= b);
    } else {
        let x = a.last();
        assert(a.contains(x));
        assert(b.contains(x));
        let y = b.last();
        assert(b.contains(y));
        assert(a.contains(y));
        let i = choose|i: int| 0 <= i < b.len() && b[i] == x;
        let j = choose|j: int| 0 <= j < a.len() && a[j] == y;
        assert(x == y);
        let (c, d) = (a.drop_last(), b.drop_last());
        assert forall|n: u64| #[trigger] c.contains(n) <==> d.contains(n) by {
            if c.contains(n) {
                let k = choose|k: int| 0 <= k < c.len() && c[k] == n;
                assert(a[k] == n);
                assert(a.contains(n));
                let m = choose|m: int| 0 <= m < b.len() && b[m] == n;
                assert(m < b.len() - 1);
                assert(d[m] == n);
            }
            if d.contains(n) {
                let k = choose|k: int| 0 <= k < d.len() && d[k] == n;
                assert(b[k] == n);
                assert(b.contains(n));
                assert(a.contains(n));
                let m = choose|m: int| 0 <= m < a.len() && a[m] == n;
                assert(m < a.len() - 1);
                assert(c[m] == n);
            }
        }
        lemma_ascending_unique(c, d);
        assert(a =~= c.push(x));
        assert(b =~= d.push(x));
    }
}

/// What lists the segments is the list of segments.
pub proof fn lemma_segments_are(
    s: Seq<u64>,
    files: Map<Names, Seq<u8>>,
    dirs: Set<Names>,
    dir: Names,
)
    requires
        are_segments(s, files, dirs, dir),
    ensures
        segments(files, dirs, dir) == s,
{
    let t = segments(files, dirs, dir);
    assert(are_segments(t, files, dirs, dir));
    assert forall|n: u64| #[trigger] s.contains(n) <==> t.contains(n) by {}
    lemma_ascending_unique(s, t);
}

/// One of the first `i` entries is named as the segment `n`.
/// Those of the first `i` entries that are named as the segment `n`.
spec fn named_in(entries: Seq<Names>, i: int, n: u64) -> Set<Names> {
    Set::new(|e: Names| entries.take(i).contains(e) && segment_number(e.last()) == Some(n))
}

/// One more entry counts once, for its own number.
proof fn lemma_named_in(entries: Seq<Names>, i: int, n: u64)
    requires
        entries.no_duplicates(),
        0 <= i < entries.len(),
        named_in(entries, i, n).finite(),
    ensures
        named_in(entries, i + 1, n).finite(),
        named_in(entries, i + 1, n).len() == named_in(entries, i, n).len() + (if segment_number(
            entries[i].last(),
        ) == Some(n) {
            1int
        } else {
            0int
        }),
{
    let (a, b) = (named_in(entries, i, n), named_in(entries, i + 1, n));
    let e = entries[i];
    let (p, q) = (entries.take(i), entries.take(i + 1));
    assert(q.drop_last() =~= p);
    assert(q.last() == e);
    assert(!p.contains(e)) by {
        if p.contains(e) {
            let k = choose|k: int| 0 <= k < p.len() && p[k] == e;
            assert(entries[k] == entries[i]);
        }
    }
    assert forall|x: Names| b.contains(x) <==> a.contains(x) || (x == e && segment_number(e.last())
        == Some(n)) by {
        lemma_popped(q, x);
    }
    if segment_number(e.last()) == Some(n) {
        assert(b =~= a.insert(e));
    } else {
        assert(b =~= a);
    }
}

/// Inserting a number makes it occur once more.
proof fn lemma_inserted_once(s: Seq<u64>, at: int, n: u64)
    requires
        0 <= at <= s.len(),
    ensures
        forall|m: u64| #[trigger]
            s.insert(at, n).to_multiset().count(m) == s.to_multiset().count(m) + (if m == n {
                1int
            } else {
                0int
            }),
{
    broadcast use vstd::seq_lib::group_to_multiset_ensures;

    let t = s.insert(at, n);
    assert(t.remove(at) =~= s);
    assert(t[at] == n);
    assert(t.contains(n));
    assert(s.to_multiset() =~= t.to_multiset().remove(n));
}

spec fn numbered(entries: Seq<Names>, i: int, n: u64) -> bool {
    exists|j: int| 0 <= j < i && segment_number((#[trigger] entries[j]).last()) == Some(n)
}

// ---------------------------------------------------------------------------------------------
// The log.
// ---------------------------------------------------------------------------------------------

/// The write-ahead log. Nothing is committed until its record is durable here.
pub struct Wal {
    dir: VPath,
    /// The segment that is appended to.
    current: u64,
    /// The bytes in it.
    current_bytes: u64,
    /// The number that is handed out next.
    next_lsn: Lsn,
    /// Whether something may stand behind those bytes that does not count: what is left of an
    /// append that failed, or a transaction that could not be carried out.
    doubt: bool,
}

/// The segment and its size after `n` bytes were appended.
pub open spec fn rolled(current: u64, bytes: u64, n: nat) -> (u64, u64) {
    let grown: nat = bytes as nat + n;
    if grown >= SEGMENT_TARGET_BYTES {
        ((current + 1) as u64, 0)
    } else {
        (current, grown as u64)
    }
}

impl Wal {
    /// Where the log's files are.
    pub closed spec fn spec_dir(&self) -> Names {
        self.dir@
    }

    /// The segment that is appended to.
    pub closed spec fn spec_current(&self) -> u64 {
        self.current
    }

    /// The bytes in it.
    pub closed spec fn spec_bytes(&self) -> u64 {
        self.current_bytes
    }

    /// The number that is handed out next.
    pub closed spec fn spec_next_lsn(&self) -> u64 {
        self.next_lsn
    }

    /// Whether something may stand behind the log's end that does not count.
    pub closed spec fn spec_doubt(&self) -> bool {
        self.doubt
    }

    /// Opens, or creates, the log under `root`. Replaying it is a separate act.
    pub fn open<V: Vfs>(vfs: &mut V, root: &VPath) -> (r: Result<Wal, WalError>)
        requires
            old(vfs).inv(),
        ensures
            final(vfs).inv(),
            final(vfs).steady() == old(vfs).steady(),
            final(vfs).files() == old(vfs).files(),
            old(vfs).dirs().subset_of(final(vfs).dirs()),
            forall|p: Names| #[trigger]
                final(vfs).dirs().contains(p) ==> old(vfs).dirs().contains(p) || leads_to(
                    p,
                    root@.push("wal"@),
                ),
            match r {
                Ok(w) => {
                    let dir = root@.push("wal"@);
                    let (files, dirs) = (final(vfs).files(), final(vfs).dirs());
                    &&& w.spec_dir() == dir
                    &&& w.spec_next_lsn() == 0
                    &&& !w.spec_doubt()
                    &&& forall|p: Names| leads_to(p, dir) ==> #[trigger] dirs.contains(p)
                    &&& at_last_segment(w, files, dirs, old(vfs).steady())
                },
                Err(e) => !old(vfs).steady() && e is Io,
            },
    {
        let dir = root.join("wal");
        match vfs.create_dir_all(&dir) {
            Ok(()) => {},
            Err(e) => {
                return Err(WalError::io(&dir, e));
            },
        }
        let segments = match Wal::segments_in(vfs, &dir) {
            Ok(s) => s,
            Err(e) => {
                return Err(e);
            },
        };
        let n: usize = segments.len();
        if n == 0 {
            proof {
                assert forall|k: u64| !is_segment(vfs.files(), vfs.dirs(), dir@, k) by {
                    assert(!segments@.contains(k));
                }
                a_segment_is_named_by_its_number(dir@, 0);
                if vfs.files().contains_key(segment_path(dir@, 0)) {
                    assert(is_segment(vfs.files(), vfs.dirs(), dir@, 0));
                }
            }
            return Ok(Wal { dir, current: 0, current_bytes: 0, next_lsn: 0, doubt: false });
        }
        let current: u64 = segments[n - 1];
        proof {
            assert(segments@.contains(current));
            assert forall|k: u64| is_segment(vfs.files(), vfs.dirs(), dir@, k) implies k
                <= current by {
                assert(segments@.contains(k));
            }
        }
        let path = Wal::segment_path_of(&dir, current);
        let current_bytes: u64 = match vfs.read(&path) {
            Ok(b) => b.len() as u64,
            Err(_) => 0,
        };
        Ok(Wal { dir, current, current_bytes, next_lsn: 0, doubt: false })
    }

    fn segment_path_of(dir: &VPath, n: u64) -> (p: VPath)
        ensures
            p@ == segment_path(dir@, n),
    {
        let name = to_padded(n, 12).concat(".wal");
        dir.join(name.as_str())
    }

    /// The number in a segment's name.
    fn number_in(name: &String) -> (r: Option<u64>)
        ensures
            r == segment_number(name@),
    {
        proof {
            reveal_strlit(".wal");
        }
        let s = name.as_str();
        let n: usize = s.unicode_len();
        if n < 4 {
            return None;
        }
        let suffix = ".wal";
        let mut i: usize = 0;
        while i < 4
            invariant
                i <= 4,
                n == s@.len(),
                n >= 4,
                suffix@ == ".wal"@,
                suffix@.len() == 4,
                s@ == name@,
                forall|k: int| 0 <= k < i ==> s@[n - 4 + k] == #[trigger] suffix@[k],
            decreases 4 - i,
        {
            if s.get_char(n - 4 + i) != suffix.get_char(i) {
                proof {
                    assert(s@.skip(n - 4)[i as int] == s@[n - 4 + i]);
                }
                return None;
            }
            i = i + 1;
        }
        assert(s@.skip(n - 4) =~= ".wal"@);
        let stem = s.substring_char(0, n - 4);
        assert(stem@ =~= name@.take(n - 4));
        parse_u64(stem)
    }

    /// Every segment in the log, in order.
    fn segments_in<V: Vfs>(vfs: &V, dir: &VPath) -> (r: Result<Vec<u64>, WalError>)
        requires
            vfs.inv(),
        ensures
            match r {
                Ok(out) => {
                    &&& are_numbers(out@, vfs.files(), vfs.dirs(), dir@)
                    &&& orderly(vfs.files(), vfs.dirs(), dir@) ==> ascending(out@)
                },
                Err(e) => !vfs.steady() && e is Io,
            },
    {
        let entries = match vfs.read_dir(dir) {
            Ok(v) => v,
            Err(e) => {
                return Err(WalError::io(dir, e));
            },
        };
        let ghost names = names_of(entries@);
        let mut out: Vec<u64> = Vec::new();
        let mut i: usize = 0;
        proof {
            broadcast use vstd::seq_lib::group_to_multiset_ensures;

            assert forall|n: u64|
                #![trigger named_in(names, 0, n)]
                named_in(names, 0, n).finite() && out@.to_multiset().count(n) == named_in(
                    names,
                    0,
                    n,
                ).len() by {
                assert(named_in(names, 0, n) =~= Set::empty());
                assert(!out@.contains(n));
            }
        }
        while i < entries.len()
            invariant
                i <= entries@.len(),
                names == names_of(entries@),
                crate::vfs::lists(names, vfs.files(), vfs.dirs(), dir@),
                forall|a: int, b: int|
                    0 <= a < b < out@.len() ==> #[trigger] out@[a] <= #[trigger] out@[b],
                forall|n: u64| #[trigger] out@.contains(n) <==> numbered(names, i as int, n),
                forall|n: u64|
                    #![trigger named_in(names, i as int, n)]
                    #![trigger out@.to_multiset().count(n)]
                    named_in(names, i as int, n).finite() && out@.to_multiset().count(n)
                        == named_in(names, i as int, n).len(),
                orderly(vfs.files(), vfs.dirs(), dir@) ==> ascending(out@),
            decreases entries@.len() - i,
        {
            let ghost before = out@;
            let ghost e = names[i as int];
            assert(e == entries@[i as int]@);
            assert(names.contains(e));
            let number = match entries[i].file_name() {
                Some(name) => Wal::number_in(name),
                None => None,
            };
            assert(number == segment_number(e.last())) by {
                assert(is_child(e, dir@));
            }
            if let Some(n) = number {
                let mut at: usize = 0;
                while at < out.len() && out[at] <= n
                    invariant
                        at <= out@.len(),
                        forall|a: int| 0 <= a < at ==> #[trigger] out@[a] <= n,
                    decreases out@.len() - at,
                {
                    at = at + 1;
                }
                proof {
                    if orderly(vfs.files(), vfs.dirs(), dir@) && before.contains(n) {
                        let j = choose|j: int|
                            0 <= j < i && segment_number((#[trigger] names[j]).last()) == Some(n);
                        assert(names.contains(names[j]));
                        if is_scratch(e) {
                            lemma_scratch_is_no_segment(e);
                        }
                        if is_scratch(names[j]) {
                            lemma_scratch_is_no_segment(names[j]);
                        }
                        assert(is_child(names[j], dir@));
                        assert(names[j] == segment_path(dir@, n));
                        assert(e == segment_path(dir@, n));
                        assert(false);
                    }
                }
                out.insert(at, n);
                proof {
                    let after = before.insert(at as int, n);
                    assert(out@ == after);
                    lemma_inserted_once(before, at as int, n);
                    assert forall|m: u64| #[trigger] after.contains(m) <==> before.contains(m) || m
                        == n by {
                        if before.contains(m) {
                            let k = choose|k: int| 0 <= k < before.len() && before[k] == m;
                            assert(after[if k < at {
                                k
                            } else {
                                k + 1
                            }] == m);
                        }
                        assert(after[at as int] == n);
                        if after.contains(m) && m != n {
                            let k = choose|k: int| 0 <= k < after.len() && after[k] == m;
                            assert(before[if k < at {
                                k
                            } else {
                                k - 1
                            }] == m);
                        }
                    }
                    if ascending(before) && !before.contains(n) {
                        assert forall|a: int, b: int| 0 <= a < b < after.len() implies #[trigger] after[a]
                            < #[trigger] after[b] by {
                            if a == at {
                                assert(before[b - 1] >= before[at as int]);
                                assert(before.contains(before[b - 1]));
                            }
                            if b == at {
                                assert(before.contains(before[a]));
                            }
                        }
                    }
                }
            }
            proof {
                assert forall|m: u64|
                    #![trigger named_in(names, i + 1, m)]
                    named_in(names, i + 1, m).finite() && out@.to_multiset().count(m) == named_in(
                        names,
                        i + 1,
                        m,
                    ).len() by {
                    assert(before.to_multiset().count(m) == named_in(names, i as int, m).len());
                    lemma_named_in(names, i as int, m);
                }
                assert forall|m: u64| #[trigger] out@.contains(m) <==> numbered(
                    names,
                    i as int + 1,
                    m,
                ) by {
                    if before.contains(m) {
                        let j = choose|j: int|
                            0 <= j < i && segment_number((#[trigger] names[j]).last()) == Some(m);
                        assert(numbered(names, i as int + 1, m));
                    }
                    if number == Some(m) {
                        assert(segment_number(names[i as int].last()) == Some(m));
                    }
                }
            }
            i = i + 1;
        }
        proof {
            assert forall|n: u64| #[trigger] out@.contains(n) <==> is_segment(
                vfs.files(),
                vfs.dirs(),
                dir@,
                n,
            ) by {
                if out@.contains(n) {
                    let j = choose|j: int|
                        0 <= j < names.len() && segment_number((#[trigger] names[j]).last()) == Some(
                            n,
                        );
                    assert(names.contains(names[j]));
                    if is_scratch(names[j]) {
                        lemma_scratch_is_no_segment(names[j]);
                    }
                }
                if is_segment(vfs.files(), vfs.dirs(), dir@, n) {
                    let e = choose|e: Names|
                        is_child(e, dir@) && (vfs.files().contains_key(e) || vfs.dirs().contains(e))
                            && #[trigger] segment_number(e.last()) == Some(n);
                    assert(names.contains(e));
                    let j = choose|j: int| 0 <= j < names.len() && names[j] == e;
                    assert(numbered(names, names.len() as int, n));
                }
            }
            assert(names.take(names.len() as int) =~= names);
            assert forall|n: u64| #[trigger]
                out@.to_multiset().count(n) == named_for(
                    vfs.files(),
                    vfs.dirs(),
                    dir@,
                    n,
                ).len() by {
                assert forall|e: Names| named_in(names, names.len() as int, n).contains(e)
                    <==> named_for(vfs.files(), vfs.dirs(), dir@, n).contains(e) by {
                    if names.contains(e) && segment_number(e.last()) == Some(n) {
                        if is_scratch(e) {
                            lemma_scratch_is_no_segment(e);
                        }
                        let k = choose|k: int| 0 <= k < names.len() && names[k] == e;
                        assert(is_child(names[k], dir@));
                    }
                }
                assert(named_in(names, names.len() as int, n) =~= named_for(
                    vfs.files(),
                    vfs.dirs(),
                    dir@,
                    n,
                ));
            }
        }
        Ok(out)
    }
}

/// The state between two appends: the same, but for what happened to the files.
pub open spec fn same_wal(a: Wal, b: Wal) -> bool {
    &&& b.spec_dir() == a.spec_dir()
    &&& b.spec_current() == a.spec_current()
    &&& b.spec_bytes() == a.spec_bytes()
    &&& b.spec_next_lsn() == a.spec_next_lsn()
    &&& b.spec_doubt() == a.spec_doubt()
}

/// The log ends where it did.
pub open spec fn same_end(a: Wal, b: Wal) -> bool {
    b.spec_current() == a.spec_current() && b.spec_bytes() == a.spec_bytes()
}

/// The files once what stands behind the log's end in doubt is cut off.
pub open spec fn taken_back(w: Wal, files: Map<Names, Seq<u8>>) -> Map<Names, Seq<u8>> {
    let path = segment_path(w.spec_dir(), w.spec_current());
    if w.spec_doubt() && files.contains_key(path) {
        files.insert(path, cut(files[path], w.spec_bytes()))
    } else {
        files
    }
}

/// A failed append may leave a part of its bytes, or all of them.
pub open spec fn partly_appended(
    files: Map<Names, Seq<u8>>,
    after: Map<Names, Seq<u8>>,
    path: Names,
    bytes: Seq<u8>,
) -> bool {
    after == files || exists|k: int|
        0 <= k <= bytes.len() && after == appended(files, path, #[trigger] bytes.take(k))
}

/// How far a checkpoint got: the record, then the marker, then the segments that are dropped.
pub open spec fn checkpoint_failed(
    files: Map<Names, Seq<u8>>,
    after: Map<Names, Seq<u8>>,
    w: Wal,
    x: Wal,
    bytes: Seq<u8>,
) -> bool {
    let dir = w.spec_dir();
    let path = segment_path(dir, w.spec_current());
    let noted = appended(files, path, bytes);
    let marked = noted.insert(checkpoint_path(dir), bytes);
    ||| x.spec_doubt() && same_end(w, x) && partly_appended(files, after, path, bytes)
    ||| !x.spec_doubt() && (x.spec_current(), x.spec_bytes()) == rolled(
        w.spec_current(),
        w.spec_bytes(),
        bytes.len(),
    ) && (after == noted || partly_cleared(marked, after, dir, x.spec_current() as int))
}

/// Some of the segments before `keep_from` are gone: the first ones.
pub open spec fn partly_cleared(
    files: Map<Names, Seq<u8>>,
    after: Map<Names, Seq<u8>>,
    dir: Names,
    keep_from: int,
) -> bool {
    exists|keep: int| 0 <= keep <= keep_from && after == #[trigger] cleared(files, dir, keep)
}

/// Where a call may make directories: only above a file of the log.
pub open spec fn made_dirs(before: Set<Names>, after: Set<Names>, dir: Names) -> bool {
    &&& before.subset_of(after)
    &&& forall|p: Names| #[trigger]
        after.contains(p) ==> before.contains(p) || leads_to(p, dir)
}

proof fn lemma_above_child(p: Names, path: Names, dir: Names)
    requires
        above(p, path),
        is_child(path, dir),
    ensures
        leads_to(p, dir),
{
    assert(path.take(p.len() as int) =~= dir.take(p.len() as int));
}

impl Wal {
    /// Appends records, and makes them durable together. What is in doubt is cut off first.
    fn append<V: Vfs>(&mut self, vfs: &mut V, records: &Vec<Record>) -> (r: Result<(), WalError>)
        requires
            old(vfs).inv(),
            old(self).spec_current() < u64::MAX,
        ensures
            final(vfs).inv(),
            final(vfs).steady() == old(vfs).steady(),
            made_dirs(old(vfs).dirs(), final(vfs).dirs(), old(self).spec_dir()),
            final(self).spec_dir() == old(self).spec_dir(),
            final(self).spec_next_lsn() == old(self).spec_next_lsn(),
            ({
                let path = segment_path(old(self).spec_dir(), old(self).spec_current());
                let files = taken_back(*old(self), old(vfs).files());
                match r {
                    Ok(()) => final(vfs).files() == appended(files, path, frames(records@)) && (final(self).spec_current(), final(self).spec_bytes()) == rolled(
                        old(self).spec_current(),
                        old(self).spec_bytes(),
                        frames(records@).len(),
                    ) && !final(self).spec_doubt(),
                    Err(e) => !old(vfs).steady() && e is Io && same_end(*old(self), *final(self))
                        && final(self).spec_doubt() && (final(vfs).files() == old(vfs).files()
                        || partly_appended(files, final(vfs).files(), path, frames(records@))),
                }
            }),
    {
        let mut buf: Vec<u8> = Vec::new();
        let mut i: usize = 0;
        proof {
            assert(records@.take(0) =~= Seq::empty());
            assert(frames(records@.take(0)) =~= Seq::empty());
        }
        while i < records.len()
            invariant
                i <= records@.len(),
                buf@ == frames(records@.take(i as int)),
            decreases records@.len() - i,
        {
            match records[i].encode() {
                Ok(mut bytes) => {
                    proof {
                        assert(records@.take(i + 1) =~= records@.take(i as int).push(
                            records@[i as int],
                        ));
                        lemma_frames_push(records@.take(i as int), records@[i as int]);
                    }
                    buf.append(&mut bytes);
                },
                Err(e) => {
                    return Err(e);
                },
            }
            i = i + 1;
        }
        assert(records@.take(i as int) =~= records@);
        let path = Wal::segment_path_of(&self.dir, self.current);
        proof {
            a_segment_is_named_by_its_number(self.dir@, self.current);
            assert forall|p: Names| above(p, path@) implies leads_to(p, self.dir@) by {
                lemma_above_child(p, path@, self.dir@);
            }
        }
        if self.doubt && vfs.has_file(&path) {
            match vfs.truncate(&path, self.current_bytes) {
                Ok(()) => {},
                Err(e) => {
                    return Err(WalError::io(&path, e));
                },
            }
        }
        self.doubt = false;
        match vfs.append(&path, buf.as_slice()) {
            Ok(()) => {},
            Err(e) => {
                self.doubt = true;
                return Err(WalError::io(&path, e));
            },
        }
        let n: u64 = buf.len() as u64;
        if n >= SEGMENT_TARGET_BYTES || self.current_bytes >= SEGMENT_TARGET_BYTES - n {
            self.current = self.current + 1;
            self.current_bytes = 0;
        } else {
            self.current_bytes = self.current_bytes + n;
        }
        Ok(())
    }

    /// Logs a committed transaction, behind whatever counts: what is in doubt is cut off. When this
    /// gives the number of the commit, the transaction has happened, even if its manifest is never
    /// installed.
    pub fn commit<V: Vfs>(
        &mut self,
        vfs: &mut V,
        writes: &TxnWrites,
        manifest: ManifestId,
        created_at_ms: u64,
    ) -> (r: Result<Lsn, WalError>)
        requires
            old(vfs).inv(),
            old(self).spec_current() < u64::MAX,
            old(self).spec_next_lsn() + writes@.dom().len() < u64::MAX,
        ensures
            final(vfs).inv(),
            final(vfs).steady() == old(vfs).steady(),
            made_dirs(old(vfs).dirs(), final(vfs).dirs(), old(self).spec_dir()),
            final(self).spec_dir() == old(self).spec_dir(),
            final(self).spec_next_lsn() == old(self).spec_next_lsn() + writes@.dom().len() + 1,
            ({
                let path = segment_path(old(self).spec_dir(), old(self).spec_current());
                let bytes = frames(
                    txn_records(
                        old(self).spec_next_lsn(),
                        entries_of(writes@),
                        manifest,
                        created_at_ms,
                    ),
                );
                let files = taken_back(*old(self), old(vfs).files());
                match r {
                    Ok(lsn) => lsn == old(self).spec_next_lsn() + writes@.dom().len() && final(
                        vfs).files() == appended(files, path, bytes) && (
                    final(self).spec_current(), final(self).spec_bytes()) == rolled(
                        old(self).spec_current(),
                        old(self).spec_bytes(),
                        bytes.len(),
                    ) && !final(self).spec_doubt(),
                    Err(e) => !old(vfs).steady() && e is Io && same_end(*old(self), *final(self))
                        && final(self).spec_doubt() && (final(vfs).files() == old(vfs).files()
                        || partly_appended(files, final(vfs).files(), path, bytes)),
                }
            }),
    {
        let list = entries(writes);
        let ghost first = self.next_lsn;
        let ghost wanted = txn_records(first, list@, manifest, created_at_ms);
        let mut records: Vec<Record> = Vec::new();
        let mut i: usize = 0;
        while i < list.len()
            invariant
                i <= list@.len(),
                list@.len() == writes@.dom().len(),
                first == old(self).spec_next_lsn(),
                first + list@.len() < u64::MAX,
                self.next_lsn == first + i,
                self.dir == old(self).dir,
                self.current == old(self).current,
                self.current_bytes == old(self).current_bytes,
                self.doubt == old(self).doubt,
                wanted == txn_records(first, list@, manifest, created_at_ms),
                records@ == wanted.take(i as int),
            decreases list@.len() - i,
        {
            let (page_no, page) = list[i];
            let lsn = self.take_lsn();
            records.push(Record { lsn, kind: RecordKind::Write { page_no, page } });
            proof {
                assert(wanted.take(i + 1) =~= wanted.take(i as int).push(wanted[i as int]));
            }
            i = i + 1;
        }
        let commit_lsn = self.take_lsn();
        records.push(
            Record { lsn: commit_lsn, kind: RecordKind::Commit { manifest, created_at_ms } },
        );
        assert(records@ =~= wanted);
        match self.append(vfs, &records) {
            Ok(()) => Ok(commit_lsn),
            Err(e) => Err(e),
        }
    }

    /// Records that the log goes on from `manifest`.
    pub(crate) fn note_head<V: Vfs>(&mut self, vfs: &mut V, manifest: ManifestId) -> (r: Result<
        (),
        WalError,
    >)
        requires
            old(vfs).inv(),
            old(self).spec_current() < u64::MAX,
            old(self).spec_next_lsn() < u64::MAX,
        ensures
            final(vfs).inv(),
            final(vfs).steady() == old(vfs).steady(),
            made_dirs(old(vfs).dirs(), final(vfs).dirs(), old(self).spec_dir()),
            final(self).spec_dir() == old(self).spec_dir(),
            final(self).spec_next_lsn() == old(self).spec_next_lsn() + 1,
            ({
                let path = segment_path(old(self).spec_dir(), old(self).spec_current());
                let bytes = frame(
                    Record {
                        lsn: old(self).spec_next_lsn(),
                        kind: RecordKind::Checkpoint { manifest },
                    },
                );
                let files = taken_back(*old(self), old(vfs).files());
                match r {
                    Ok(()) => final(vfs).files() == appended(files, path, bytes) && (
                    final(self).spec_current(), final(self).spec_bytes()) == rolled(
                        old(self).spec_current(),
                        old(self).spec_bytes(),
                        bytes.len(),
                    ) && !final(self).spec_doubt(),
                    Err(e) => !old(vfs).steady() && e is Io && same_end(*old(self), *final(self))
                        && final(self).spec_doubt() && (final(vfs).files() == old(vfs).files()
                        || partly_appended(files, final(vfs).files(), path, bytes)),
                }
            }),
    {
        let lsn = self.take_lsn();
        let record = Record { lsn, kind: RecordKind::Checkpoint { manifest } };
        let mut records: Vec<Record> = Vec::new();
        records.push(record);
        proof {
            assert(records@.skip(1) =~= Seq::empty());
            reveal_with_fuel(frames, 2);
            assert(frames(records@) =~= frame(record));
        }
        self.append(vfs, &records)
    }

    /// Records that everything up to now is captured by `manifest`, and drops the history behind it.
    pub fn checkpoint<V: Vfs>(&mut self, vfs: &mut V, manifest: ManifestId) -> (r: Result<
        Lsn,
        WalError,
    >)
        requires
            old(vfs).inv(),
            old(self).spec_current() < u64::MAX,
            old(self).spec_next_lsn() < u64::MAX,
        ensures
            final(vfs).inv(),
            final(vfs).steady() == old(vfs).steady(),
            made_dirs(old(vfs).dirs(), final(vfs).dirs(), old(self).spec_dir()),
            final(self).spec_dir() == old(self).spec_dir(),
            final(self).spec_next_lsn() == old(self).spec_next_lsn() + 1,
            ({
                let dir = old(self).spec_dir();
                let path = segment_path(dir, old(self).spec_current());
                let lsn = old(self).spec_next_lsn();
                let bytes = frame(Record { lsn, kind: RecordKind::Checkpoint { manifest } });
                let files = taken_back(*old(self), old(vfs).files());
                let marked = appended(files, path, bytes).insert(
                    checkpoint_path(dir),
                    bytes,
                );
                match r {
                    Ok(got) => got == lsn && (final(self).spec_current(), final(self).spec_bytes())
                        == rolled(
                        old(self).spec_current(),
                        old(self).spec_bytes(),
                        bytes.len(),
                    ) && !final(self).spec_doubt() && final(vfs).files() == cleared(
                        marked,
                        dir,
                        final(self).spec_current() as int,
                    ),
                    Err(e) => !old(vfs).steady() && e is Io && (checkpoint_failed(
                        files,
                        final(vfs).files(),
                        *old(self),
                        *final(self),
                        bytes,
                    ) || (final(vfs).files() == old(vfs).files() && same_end(
                        *old(self),
                        *final(self),
                    ) && final(self).spec_doubt())),
                }
            }),
    {
        let lsn = self.take_lsn();
        let record = Record { lsn, kind: RecordKind::Checkpoint { manifest } };
        let mut records: Vec<Record> = Vec::new();
        records.push(record);
        let ghost bytes = frame(record);
        proof {
            assert(records@.skip(1) =~= Seq::empty());
            reveal_with_fuel(frames, 2);
            assert(frames(records@) =~= bytes);
        }
        let ghost dir = self.dir@;
        match self.append(vfs, &records) {
            Ok(()) => {},
            Err(e) => {
                return Err(e);
            },
        }
        let ghost noted = vfs.files();
        let ghost marked = noted.insert(checkpoint_path(dir), bytes);
        let marker = match record.encode() {
            Ok(b) => b,
            Err(e) => {
                return Err(e);
            },
        };
        let path = self.dir.join("CHECKPOINT");
        proof {
            assert(path@.drop_last() =~= dir);
            assert forall|p: Names| above(p, path@) implies leads_to(p, dir) by {
                lemma_above_child(p, path@, dir);
            }
            assert(bytes.take(bytes.len() as int) =~= bytes);
            assert(cleared(marked, dir, 0) =~= marked) by {
                assert forall|f: Names| !old_segment(f, dir, 0) by {}
            }
        }
        match vfs.atomic_write(&path, marker.as_slice()) {
            Ok(()) => {},
            Err(e) => {
                return Err(WalError::io(&path, e));
            },
        }
        match self.truncate_segments_before(vfs, self.current) {
            Ok(()) => Ok(lsn),
            Err(e) => Err(e),
        }
    }

    /// Deletes every segment before `keep_from`.
    fn truncate_segments_before<V: Vfs>(&self, vfs: &mut V, keep_from: u64) -> (r: Result<
        (),
        WalError,
    >)
        requires
            old(vfs).inv(),
        ensures
            final(vfs).inv(),
            final(vfs).steady() == old(vfs).steady(),
            final(vfs).dirs() == old(vfs).dirs(),
            match r {
                Ok(()) => final(vfs).files() == cleared(
                    old(vfs).files(),
                    self.spec_dir(),
                    keep_from as int,
                ),
                Err(e) => !old(vfs).steady() && e is Io && partly_cleared(
                    old(vfs).files(),
                    final(vfs).files(),
                    self.spec_dir(),
                    keep_from as int,
                ),
            },
    {
        let ghost files = vfs.files();
        let ghost dir = self.dir@;
        proof {
            assert(cleared(files, dir, 0) =~= files) by {
                assert forall|f: Names| !old_segment(f, dir, 0) by {}
            }
        }
        let segments = match Wal::segments_in(vfs, &self.dir) {
            Ok(s) => s,
            Err(e) => {
                assert(vfs.files() == cleared(files, dir, 0));
                return Err(e);
            },
        };
        let ghost mut keep: int = 0;
        let mut i: usize = 0;
        while i < segments.len()
            invariant
                i <= segments@.len(),
                dir == self.dir@,
                vfs.inv(),
                vfs.steady() == old(vfs).steady(),
                vfs.dirs() == old(vfs).dirs(),
                files == old(vfs).files(),
                0 <= keep <= keep_from,
                vfs.files() == cleared(files, dir, keep),
                forall|a: int, b: int|
                    0 <= a < b < segments@.len() ==> #[trigger] segments@[a]
                        <= #[trigger] segments@[b],
                forall|n: u64| #[trigger]
                    segments@.contains(n) <==> is_segment(files, vfs.dirs(), dir, n),
                forall|a: int|
                    0 <= a < i && #[trigger] segments@[a] < keep_from ==> segments@[a] < keep,
                forall|a: int| i <= a < segments@.len() ==> keep <= #[trigger] segments@[a] + 1,
            decreases segments@.len() - i,
        {
            let segment: u64 = segments[i];
            if segment < keep_from {
                let path = Wal::segment_path_of(&self.dir, segment);
                match vfs.remove_file(&path) {
                    Ok(()) => {},
                    Err(e) => {
                        assert(vfs.files() == cleared(files, dir, keep));
                        return Err(WalError::io(&path, e));
                    },
                }
                proof {
                    lemma_clear_one(files, vfs.dirs(), dir, segments@, i as int, keep);
                    keep = segment + 1;
                }
            }
            i = i + 1;
        }
        proof {
            assert(cleared(files, dir, keep) =~= cleared(files, dir, keep_from as int)) by {
                assert forall|f: Names| files.contains_key(f) implies (old_segment(f, dir, keep)
                    <==> old_segment(f, dir, keep_from as int)) by {
                    if old_segment(f, dir, keep_from as int) {
                        let n = choose|n: u64|
                            n < keep_from && f == #[trigger] segment_path(dir, n);
                        a_segment_is_named_by_its_number(dir, n);
                        assert(is_segment(files, vfs.dirs(), dir, n));
                        assert(segments@.contains(n));
                    }
                }
            }
        }
        Ok(())
    }

    fn take_lsn(&mut self) -> (lsn: Lsn)
        requires
            old(self).next_lsn < u64::MAX,
        ensures
            lsn == old(self).next_lsn,
            final(self).next_lsn == old(self).next_lsn + 1,
            final(self).dir == old(self).dir,
            final(self).current == old(self).current,
            final(self).current_bytes == old(self).current_bytes,
            final(self).doubt == old(self).doubt,
    {
        let lsn = self.next_lsn;
        self.next_lsn = lsn + 1;
        lsn
    }

    /// The number that is handed out next.
    pub fn next_lsn(&self) -> (lsn: Lsn)
        ensures
            lsn == self.spec_next_lsn(),
    {
        self.next_lsn
    }

    /// Whether something may stand behind the log's end that does not count.
    pub(crate) fn in_doubt(&self) -> (r: bool)
        ensures
            r == self.spec_doubt(),
    {
        self.doubt
    }

    /// The segment that is appended to.
    pub fn current_segment(&self) -> (n: u64)
        ensures
            n == self.spec_current(),
    {
        self.current
    }

    /// Reads the checkpoint marker, if one is durable.
    fn read_checkpoint<V: Vfs>(&self, vfs: &V) -> (r: Result<Option<(ManifestId, Lsn)>, WalError>)
        requires
            vfs.inv(),
        ensures
            match r {
                Ok(m) => m == marker(vfs.files(), self.spec_dir()),
                Err(e) => !vfs.steady() && e is Io,
            },
    {
        let path = self.dir.join("CHECKPOINT");
        if !vfs.has_file(&path) {
            return Ok(None);
        }
        let bytes = match vfs.read(&path) {
            Ok(b) => b,
            Err(e) => {
                return Err(WalError::io(&path, e));
            },
        };
        match Record::decode(bytes.as_slice()) {
            ReadOutcome::Record { record, .. } => match record.kind {
                RecordKind::Checkpoint { manifest } => Ok(Some((manifest, record.lsn))),
                _ => Ok(None),
            },
            ReadOutcome::Torn => Ok(None),
        }
    }
}

/// Removing the next segment clears up to and including it.
proof fn lemma_clear_one(
    files: Map<Names, Seq<u8>>,
    dirs: Set<Names>,
    dir: Names,
    segs: Seq<u64>,
    i: int,
    keep: int,
)
    requires
        0 <= i < segs.len(),
        keep <= segs[i] + 1,
        forall|a: int, b: int|
            0 <= a < b < segs.len() ==> #[trigger] segs[a] <= #[trigger] segs[b],
        forall|n: u64| #[trigger] segs.contains(n) <==> is_segment(files, dirs, dir, n),
        forall|a: int| 0 <= a < i ==> #[trigger] segs[a] < keep || segs[a] >= segs[i],
    ensures
        cleared(files, dir, keep).remove(segment_path(dir, segs[i])) == cleared(
            files,
            dir,
            segs[i] + 1,
        ),
{
    let s = segs[i];
    let p = segment_path(dir, s);
    assert forall|f: Names| files.contains_key(f) implies (old_segment(f, dir, s + 1) <==> (
    old_segment(f, dir, keep) || f == p)) by {
        if old_segment(f, dir, s + 1) {
            let n = choose|n: u64| n < s + 1 && f == #[trigger] segment_path(dir, n);
            if n != s && n >= keep {
                a_segment_is_named_by_its_number(dir, n);
                assert(is_segment(files, dirs, dir, n));
                assert(segs.contains(n));
                let a = choose|a: int| 0 <= a < segs.len() && segs[a] == n;
                assert(a < i);
            }
        }
    }
    assert(cleared(files, dir, keep).remove(p) =~= cleared(files, dir, s + 1));
}

// ---------------------------------------------------------------------------------------------
// Recovery.
// ---------------------------------------------------------------------------------------------

/// The log's directory stands beside the store's own, not under them.
pub open spec fn apart(roots: Seq<Names>, dir: Names) -> bool {
    &&& roots.len() == 2
    &&& roots[0].len() == dir.len() && roots[0] != dir
    &&& roots[1].len() == dir.len() && roots[1] != dir
}

/// The files after everything behind the first `n` records of these segments was cut off.
pub open spec fn mended(files: Map<Names, Seq<u8>>, dir: Names, segs: Seq<u64>, n: int) -> Map<
    Names,
    Seq<u8>,
>
    decreases segs.len(),
{
    if segs.len() == 0 {
        files
    } else {
        let init = segs.drop_last();
        let p = segment_path(dir, segs.last());
        let here = n - log_in(files, dir, init).len();
        mended(files, dir, init, n).insert(p, files[p].take(len_of_first(files[p], here) as int))
    }
}

/// Some segment ends in a torn record.
pub open spec fn has_torn_tail(files: Map<Names, Seq<u8>>, dir: Names, segs: Seq<u64>) -> bool {
    exists|i: int| 0 <= i < segs.len() && !whole(files[segment_path(dir, #[trigger] segs[i])])
}

/// The number up to which a checkpoint has the records already.
pub open spec fn captured_by(mark: Option<(ManifestId, Lsn)>) -> Option<Lsn> {
    match mark {
        Some((_, lsn)) => Some(lsn),
        None => None,
    }
}

/// Where the replay of a log starts: at its checkpoint or, where it has none, at the root.
pub open spec fn begun(
    ms: Manifests,
    held: Set<ManifestId>,
    mark: Option<(ManifestId, Lsn)>,
    root: ManifestView,
    next_lsn: u64,
) -> Replay {
    match mark {
        Some((manifest, lsn)) => start_at(ms, held, manifest, after(lsn), Some(lsn)),
        None => start_at(
            stored(ms, held, root),
            held.insert(root.id()),
            root.id(),
            next_lsn,
            None,
        ),
    }
}

/// How the replay of a log ends that starts at its checkpoint or, where it has none, at the root.
pub open spec fn recovery_of(
    ms: Manifests,
    held: Set<ManifestId>,
    files: Map<Names, Seq<u8>>,
    dirs: Set<Names>,
    dir: Names,
    root: ManifestView,
    next_lsn: u64,
) -> Outcome {
    recovery_from(ms, held, marker(files, dir), log(files, dirs, dir), root, next_lsn)
}

/// The same, with the checkpoint and the records of the log.
pub open spec fn recovery_from(
    ms: Manifests,
    held: Set<ManifestId>,
    mark: Option<(ManifestId, Lsn)>,
    recs: Seq<Record>,
    root: ManifestView,
    next_lsn: u64,
) -> Outcome {
    let st = begun(ms, held, mark, root, next_lsn);
    match mark {
        Some((manifest, _)) => if held.contains(manifest) {
            replay(st, recs)
        } else {
            Outcome::Stuck { stage: Stage::Marker, missing: Some(manifest) }
        },
        None => replay(st, recs),
    }
}

/// The log of a store whose recovery stopped: torn records were cut off of some of the segments, or
/// of all of them and then some of the unfinished writes.
pub open spec fn partly_settled(
    files: Map<Names, Seq<u8>>,
    dir: Names,
    segs: Seq<u64>,
    captured: Option<Lsn>,
    now: Map<Names, Seq<u8>>,
) -> bool {
    let recs = log_in(files, dir, segs);
    exists|i: int, n: int|
        0 <= i <= segs.len() && settled(captured, recs) <= n <= recs.len() && (i < segs.len() ==> n
            == recs.len()) && now == #[trigger] mended(files, dir, segs.take(i), n)
}

/// What a recovery over these segments that stopped leaves: no committed record is gone, and the
/// manifests are those that some of the records lead to.
pub open spec fn stopped<B: Backing>(
    a: B,
    b: B,
    w: Wal,
    root: ManifestView,
    segs: Seq<u64>,
) -> bool {
    let (files, dirs) = a.elsewhere();
    let dir = w.spec_dir();
    let mark = marker(files, dir);
    let st = begun(a.manifests(), a.held_manifests(), mark, root, w.spec_next_lsn());
    &&& b.elsewhere().1 == dirs
    &&& partly_settled(files, dir, segs, captured_by(mark), b.elsewhere().0)
    &&& (b.manifests() == a.manifests() && b.held_manifests() == a.held_manifests()) || got_into(
        b,
        st,
        log_in(files, dir, segs),
    )
}

/// An entry of the log's directory is named like a segment, and the segment's own file is not there.
pub open spec fn misnamed(files: Map<Names, Seq<u8>>, dirs: Set<Names>, dir: Names) -> bool {
    exists|n: u64| #[trigger]
        is_segment(files, dirs, dir, n) && !files.contains_key(segment_path(dir, n))
}

/// The error says that the file of such a segment was not found.
pub open spec fn says_misnamed(
    files: Map<Names, Seq<u8>>,
    dirs: Set<Names>,
    dir: Names,
    e: WalError,
) -> bool {
    e matches WalError::Io { path, source: IoError::NotFound } && exists|n: u64| #[trigger]
        is_segment(files, dirs, dir, n) && !files.contains_key(segment_path(dir, n)) && path@
            == segment_path(dir, n)
}

/// What recovery gives where every segment has one entry, which is its own file.
pub open spec fn recovered<B: Backing>(
    a: B,
    b: B,
    w: Wal,
    x: Wal,
    root: ManifestView,
    head: ManifestId,
    r: Result<Recovery, WalError>,
) -> bool {
    let (files, dirs) = a.elsewhere();
    recovered_these(a, b, w, x, root, head, r, segments(files, dirs, w.spec_dir()))
}

/// What recovery gives, whatever the entries of the log's directory are named: that of the records
/// in the order of the numbers, those of a number that several entries are named for as often. Where
/// it fails before it has listed the segments, the log is as it was, and where it finds that a
/// segment's own file is not there, it stops at that.
pub open spec fn recovered_by_number<B: Backing>(
    a: B,
    b: B,
    w: Wal,
    x: Wal,
    root: ManifestView,
    head: ManifestId,
    r: Result<Recovery, WalError>,
) -> bool {
    let (files, dirs) = a.elsewhere();
    let dir = w.spec_dir();
    ||| exists|segs: Seq<u64>| #[trigger]
        are_numbers(segs, files, dirs, dir) && recovered_these(a, b, w, x, root, head, r, segs)
    ||| unlisted(a, b, w, root, r)
    ||| r is Err && says_misnamed(files, dirs, dir, r->Err_0) && exists|segs: Seq<u64>| #[trigger]
        are_numbers(segs, files, dirs, dir) && stopped(a, b, w, root, segs)
}

/// Recovery failed before the segments were listed.
pub open spec fn unlisted<B: Backing>(
    a: B,
    b: B,
    w: Wal,
    root: ManifestView,
    r: Result<Recovery, WalError>,
) -> bool {
    let mark = marker(a.elsewhere().0, w.spec_dir());
    let st = begun(a.manifests(), a.held_manifests(), mark, root, w.spec_next_lsn());
    &&& r is Err
    &&& b.elsewhere() == a.elsewhere()
    &&& (b.manifests() == a.manifests() && b.held_manifests() == a.held_manifests()) || reached(
        b,
        st,
        Seq::empty(),
    )
    &&& !a.steady() || (mark is Some && !a.held_manifests().contains(mark->Some_0.0) && fails_as(
        Outcome::Stuck { stage: Stage::Marker, missing: Some(mark->Some_0.0) },
        r->Err_0,
        true,
    ))
}

/// What recovery gives over the segments with these numbers: the head that their records lead to,
/// and a log that ends where a transaction ends. Where it fails, it can be run again.
pub open spec fn recovered_these<B: Backing>(
    a: B,
    b: B,
    w: Wal,
    x: Wal,
    root: ManifestView,
    head: ManifestId,
    r: Result<Recovery, WalError>,
    segs: Seq<u64>,
) -> bool {
    let (files, dirs) = a.elsewhere();
    let dir = w.spec_dir();
    let mark = marker(files, dir);
    let recs = log_in(files, dir, segs);
    let o = recovery_from(
        a.manifests(),
        a.held_manifests(),
        mark,
        recs,
        root,
        w.spec_next_lsn(),
    );
    match r {
        Ok(rec) => {
            &&& b.elsewhere() == (
                mended(files, dir, segs, settled(captured_by(mark), recs) as int),
                dirs,
            )
            &&& !x.spec_doubt()
            &&& rec.torn_tail == has_torn_tail(files, dir, segs)
            &&& segs.len() == 0 ==> x.spec_current() == w.spec_current() && x.spec_bytes() == 0
            &&& segs.len() > 0 ==> x.spec_current() == segs.last() && x.spec_bytes()
                == b.elsewhere().0[segment_path(dir, segs.last())].len()
            &&& o matches Outcome::Fine(end) && told(b, x, head, rec, end)
        },
        Err(e) => (fails_as(o, e, a.steady()) || !a.steady()) && stopped(a, b, w, root, segs),
    }
}

/// The store is where a replay ended, and the summary tells of it.
pub open spec fn told<B: Backing>(
    b: B,
    x: Wal,
    head: ManifestId,
    rec: Recovery,
    end: Replay,
) -> bool {
    &&& b.manifests() == end.ms
    &&& b.held_manifests() == end.held
    &&& head == end.head
    &&& x.spec_next_lsn() == end.next_lsn
    &&& rec.committed_txns == capped(end.txns)
    &&& rec.records_replayed == capped(end.records)
    &&& rec.durable_lsn == end.durable
    &&& rec.uncommitted_writes_discarded == end.pending.dom().len()
}

/// What is in the log's directory is not in one of the store's.
proof fn lemma_child_is_apart(roots: Seq<Names>, dir: Names, f: Names)
    requires
        apart(roots, dir),
        is_child(f, dir),
    ensures
        !under(roots[0], f),
        !under(roots[1], f),
{
    assert(f.take(dir.len() as int) =~= dir);
}

/// The log is the same whether one looks at all files, or only at those outside the roots.
pub proof fn lemma_log_is_outside(
    files: Map<Names, Seq<u8>>,
    dirs: Set<Names>,
    roots: Seq<Names>,
    dir: Names,
)
    requires
        apart(roots, dir),
    ensures
        ({
            let (g, e) = outside(files, dirs, roots[0], roots[1]);
            &&& forall|n: u64| is_segment(files, dirs, dir, n) <==> #[trigger] is_segment(g, e, dir, n)
            &&& orderly(files, dirs, dir) <==> orderly(g, e, dir)
            &&& marker(files, dir) == marker(g, dir)
            &&& forall|f: Names|
                is_child(f, dir) ==> (#[trigger] files.contains_key(f) <==> g.contains_key(f)) && (
                files.contains_key(f) ==> files[f] == g[f])
        }),
{
    let (g, e) = outside(files, dirs, roots[0], roots[1]);
    assert forall|f: Names| is_child(f, dir) implies (#[trigger] files.contains_key(f)
        <==> g.contains_key(f)) && (files.contains_key(f) ==> files[f] == g[f]) && (dirs.contains(f)
        <==> e.contains(f)) by {
        lemma_child_is_apart(roots, dir, f);
    }
    assert forall|n: u64| is_segment(files, dirs, dir, n) <==> #[trigger] is_segment(g, e, dir, n) by {
        if is_segment(files, dirs, dir, n) {
            let f = choose|f: Names|
                is_child(f, dir) && (files.contains_key(f) || dirs.contains(f))
                    && #[trigger] segment_number(f.last()) == Some(n);
            assert(files.contains_key(f) || dirs.contains(f));
            assert(g.contains_key(f) || e.contains(f));
        }
        if is_segment(g, e, dir, n) {
            let f = choose|f: Names|
                is_child(f, dir) && (g.contains_key(f) || e.contains(f)) && #[trigger] segment_number(
                    f.last(),
                ) == Some(n);
            assert(files.contains_key(f) || dirs.contains(f));
        }
    }
    assert(checkpoint_path(dir).drop_last() =~= dir);
    assert(is_child(checkpoint_path(dir), dir));
    assert(files.contains_key(checkpoint_path(dir)) <==> g.contains_key(checkpoint_path(dir)));
    assert forall|f: Names|
        is_child(f, dir) && (files.contains_key(f) || dirs.contains(f)) <==> is_child(f, dir) && (
        g.contains_key(f) || e.contains(f)) by {
        assert(files.contains_key(f) == files.contains_key(f));
    }
    if orderly(files, dirs, dir) {
        assert forall|f: Names|
            is_child(f, dir) && (g.contains_key(f) || e.contains(f)) && (#[trigger] segment_number(
                f.last(),
            ) is Some) implies f == segment_path(dir, segment_number(f.last()).unwrap())
            && g.contains_key(f) && !e.contains(f) by {
            assert(files.contains_key(f) || dirs.contains(f));
        }
    }
    if orderly(g, e, dir) {
        assert forall|f: Names|
            is_child(f, dir) && (files.contains_key(f) || dirs.contains(f)) && (
            #[trigger] segment_number(f.last()) is Some) implies f == segment_path(
            dir,
            segment_number(f.last()).unwrap(),
        ) && files.contains_key(f) && !dirs.contains(f) by {
            assert(g.contains_key(f) || e.contains(f));
        }
    }
}

/// The log up to a segment is no longer than the log up to a later one.
pub proof fn lemma_log_grows(files: Map<Names, Seq<u8>>, dir: Names, segs: Seq<u64>, i: int, j: int)
    requires
        0 <= i <= j <= segs.len(),
    ensures
        log_in(files, dir, segs.take(i)).len() <= log_in(files, dir, segs.take(j)).len(),
        i < j ==> log_in(files, dir, segs.take(i)).len() + records_of(
            files[segment_path(dir, segs[i])],
        ).len() <= log_in(files, dir, segs.take(j)).len(),
        i + 1 == j ==> log_in(files, dir, segs.take(j)) == log_in(files, dir, segs.take(i))
            + records_of(files[segment_path(dir, segs[i])]),
    decreases j - i,
{
    if i < j {
        assert(segs.take(j).drop_last() =~= segs.take(j - 1));
        assert(segs.take(j).last() == segs[j - 1]);
        lemma_log_grows(files, dir, segs, i, j - 1);
    }
}

/// The log up to a segment is the first part of the log up to a later one.
proof fn lemma_log_begins(files: Map<Names, Seq<u8>>, dir: Names, segs: Seq<u64>, i: int, j: int)
    requires
        0 <= i <= j <= segs.len(),
    ensures
        ({
            let (a, b) = (log_in(files, dir, segs.take(i)), log_in(files, dir, segs.take(j)));
            a.len() <= b.len() && a == b.take(a.len() as int)
        }),
    decreases j - i,
{
    let (a, b) = (log_in(files, dir, segs.take(i)), log_in(files, dir, segs.take(j)));
    if i < j {
        lemma_log_begins(files, dir, segs, i, j - 1);
        lemma_log_grows(files, dir, segs, j - 1, j);
        assert(b.take(a.len() as int) =~= log_in(files, dir, segs.take(j - 1)).take(a.len() as int));
    } else {
        assert(b.take(a.len() as int) =~= a);
    }
}

/// No later number is the same.
spec fn last_of(segs: Seq<u64>, i: int) -> bool {
    forall|j: int| i < j < segs.len() ==> #[trigger] segs[j] != segs[i]
}

/// Where a number comes for the last time.
proof fn lemma_last_of(segs: Seq<u64>, k: int) -> (i: int)
    requires
        0 <= k < segs.len(),
    ensures
        k <= i < segs.len(),
        segs[i] == segs[k],
        last_of(segs, i),
    decreases segs.len() - k,
{
    if last_of(segs, k) {
        k
    } else {
        let j = choose|j: int| k < j < segs.len() && #[trigger] segs[j] == segs[k];
        lemma_last_of(segs, j)
    }
}

/// Every segment is cut where its part of the records ends, and every other file is left alone. Of
/// one that is there several times, the last part counts.
#[verifier::rlimit(40)]
#[verifier::spinoff_prover]
proof fn lemma_mended_at(files: Map<Names, Seq<u8>>, dir: Names, segs: Seq<u64>, n: int)
    requires
        forall|i: int|
            0 <= i < segs.len() ==> files.contains_key(segment_path(dir, #[trigger] segs[i])),
    ensures
        ({
            let good = mended(files, dir, segs, n);
            &&& good.dom() == files.dom()
            &&& forall|i: int| #![trigger segs[i]]
                0 <= i < segs.len() && last_of(segs, i) ==> good[segment_path(dir, segs[i])]
                    == files[segment_path(dir, segs[i])].take(
                    len_of_first(
                        files[segment_path(dir, segs[i])],
                        n - log_in(files, dir, segs.take(i)).len(),
                    ) as int,
                )
            &&& forall|f: Names|
                (forall|i: int| 0 <= i < segs.len() ==> f != segment_path(dir, #[trigger] segs[i]))
                    ==> #[trigger] good[f] == files[f]
        }),
    decreases segs.len(),
{
    if segs.len() > 0 {
        let init = segs.drop_last();
        let last = segs.last();
        let good = mended(files, dir, segs, n);
        assert forall|i: int| 0 <= i < init.len() implies files.contains_key(
            segment_path(dir, #[trigger] init[i]),
        ) by {
            assert(init[i] == segs[i]);
        }
        lemma_mended_at(files, dir, init, n);
        assert(segs[segs.len() - 1] == last);
        assert(segs.take(segs.len() - 1) =~= init);
        assert(good.dom() =~= files.dom());
        assert forall|i: int| #![trigger segs[i]] 0 <= i < segs.len() && last_of(
            segs,
            i,
        ) implies good[segment_path(dir, segs[i])] == files[segment_path(dir, segs[i])].take(
            len_of_first(
                files[segment_path(dir, segs[i])],
                n - log_in(files, dir, segs.take(i)).len(),
            ) as int,
        ) by {
            lemma_segment_paths(dir, segs[i], last);
            if i < init.len() {
                assert(init[i] == segs[i]);
                assert(init.take(i) =~= segs.take(i));
                assert forall|j: int| i < j < init.len() implies #[trigger] init[j] != init[i] by {
                    assert(segs[j] != segs[i]);
                }
                assert(last_of(init, i));
            }
        }
        assert forall|f: Names|
            (forall|i: int| 0 <= i < segs.len() ==> f != segment_path(dir, #[trigger] segs[i])) implies #[trigger] good[f]
            == files[f] by {
            assert forall|i: int| 0 <= i < init.len() implies f != segment_path(
                dir,
                #[trigger] init[i],
            ) by {
                assert(init[i] == segs[i]);
            }
            assert(f != segment_path(dir, segs[segs.len() - 1]));
        }
    }
}

/// The same, where every segment is there once.
pub proof fn lemma_mended(files: Map<Names, Seq<u8>>, dir: Names, segs: Seq<u64>, n: int)
    requires
        ascending(segs),
        forall|i: int|
            0 <= i < segs.len() ==> files.contains_key(segment_path(dir, #[trigger] segs[i])),
    ensures
        ({
            let good = mended(files, dir, segs, n);
            &&& good.dom() == files.dom()
            &&& forall|i: int| #![trigger segs[i]]
                0 <= i < segs.len() ==> good[segment_path(dir, segs[i])] == files[segment_path(
                    dir,
                    segs[i],
                )].take(
                    len_of_first(
                        files[segment_path(dir, segs[i])],
                        n - log_in(files, dir, segs.take(i)).len(),
                    ) as int,
                )
            &&& forall|f: Names|
                (forall|i: int| 0 <= i < segs.len() ==> f != segment_path(dir, #[trigger] segs[i]))
                    ==> #[trigger] good[f] == files[f]
        }),
{
    lemma_mended_at(files, dir, segs, n);
    assert forall|i: int| #![trigger segs[i]] 0 <= i < segs.len() implies last_of(segs, i) by {
        assert forall|j: int| i < j < segs.len() implies #[trigger] segs[j] != segs[i] by {
            assert(segs[i] < segs[j]);
        }
    }
}

/// Cutting one segment further, behind which nothing is left, cuts the log further.
#[verifier::rlimit(40)]
#[verifier::spinoff_prover]
proof fn lemma_cut_further(
    files: Map<Names, Seq<u8>>,
    dir: Names,
    segs: Seq<u64>,
    m: int,
    from: int,
    to: int,
    off: u64,
)
    requires
        forall|i: int|
            0 <= i < segs.len() ==> files.contains_key(segment_path(dir, #[trigger] segs[i])),
        0 <= m < segs.len(),
        log_in(files, dir, segs.take(m)).len() <= to <= from <= log_in(
            files,
            dir,
            segs.take(m + 1),
        ).len(),
        off == len_of_first(
            files[segment_path(dir, segs[m])],
            to - log_in(files, dir, segs.take(m)).len(),
        ),
    ensures
        ({
            let p = segment_path(dir, segs[m]);
            let before = mended(files, dir, segs, from);
            &&& before.contains_key(p)
            &&& before.insert(p, cut(before[p], off)) == mended(files, dir, segs, to)
        }),
{
    let p = segment_path(dir, segs[m]);
    let before = mended(files, dir, segs, from);
    let after = mended(files, dir, segs, to);
    let base = log_in(files, dir, segs.take(m)).len();
    lemma_mended_at(files, dir, segs, from);
    lemma_mended_at(files, dir, segs, to);
    lemma_len_of_first_grows(files[p], to - base, from - base);
    lemma_len_of_first(files[p], from - base);
    assert(before.dom().contains(p));
    assert forall|f: Names| #[trigger] after[f] == (if f == p {
        cut(before[p], off)
    } else {
        before[f]
    }) by {
        if exists|i: int| 0 <= i < segs.len() && f == segment_path(dir, #[trigger] segs[i]) {
            let k = choose|i: int| 0 <= i < segs.len() && f == segment_path(dir, #[trigger] segs[i]);
            let i = lemma_last_of(segs, k);
            lemma_segment_paths(dir, segs[i], segs[m]);
            let at = log_in(files, dir, segs.take(i)).len();
            if i < m {
                assert(segs[m] != segs[i]);
                lemma_log_grows(files, dir, segs, i, m);
                lemma_len_of_first(files[f], from - at);
                lemma_len_of_first(files[f], to - at);
            } else if i > m {
                lemma_log_grows(files, dir, segs, m + 1, i);
                assert(len_of_first(files[f], from - at) == 0);
                assert(len_of_first(files[f], to - at) == 0);
                assert(cut(before[f], off) =~= before[f]);
            } else {
                assert(cut(before[p], off) =~= files[p].take(off as int));
            }
        } else {
            assert(f != segment_path(dir, segs[m]));
        }
    }
    assert(before.insert(p, cut(before[p], off)) =~= after);
}

/// Cuts a file of the log down to `len` bytes.
fn cut_file<V: Vfs, C: Clock>(pager: &mut Pager<FsStore<V>, C>, path: &VPath, len: u64) -> (r: Result<
    (),
    IoError,
>)
    requires
        old(pager).wf(),
        path@.len() > 0,
        apart(old(pager).backing().roots(), path@.drop_last()),
    ensures
        final(pager).wf(),
        same_pager(old(pager), final(pager)),
        ({
            let (files, dirs) = old(pager).backing().elsewhere();
            let after = (files.insert(path@, cut(files[path@], len)), dirs);
            match r {
                Ok(()) => files.contains_key(path@) && final(pager).backing().elsewhere() == after,
                Err(_) => (!old(pager).backing().steady() || !files.contains_key(path@)) && (final(
                    pager).backing().elsewhere() == (files, dirs) || files.contains_key(path@)
                    && final(pager).backing().elsewhere() == after),
            }
        }),
{
    let ghost dir = path@.drop_last();
    let ghost roots = pager.backing().roots();
    let ghost (f0, d0) = (pager.backing().spec_vfs().files(), pager.backing().spec_vfs().dirs());
    proof {
        pager.lemma_wf();
        pager.backing().shows();
        lemma_child_is_apart(roots, dir, path@);
    }
    let r = pager.vfs_mut().truncate(path, len);
    proof {
        let b = pager.backing();
        let g = b.spec_vfs().files();
        b.shows();
        assert(same_under(f0, g, roots[0], roots[1]));
        Pager::lemma_lent(&*old(pager), &*pager);
        if g != f0 {
            assert(outside(g, d0, roots[0], roots[1]).0 =~= outside(
                f0,
                d0,
                roots[0],
                roots[1],
            ).0.insert(path@, cut(f0[path@], len)));
        }
    }
    r
}

impl Wal {
    /// What is in doubt is cut off: nothing may be appended behind it.
    pub(crate) fn settle<V: Vfs, C: Clock>(&mut self, pager: &mut Pager<FsStore<V>, C>) -> (r: Result<
        (),
        WalError,
    >)
        requires
            old(pager).wf(),
            apart(old(pager).backing().roots(), old(self).spec_dir()),
        ensures
            final(pager).wf(),
            same_pager(old(pager), final(pager)),
            settling(
                old(pager).backing(),
                final(pager).backing(),
                *old(self),
                *final(self),
                r,
            ),
    {
        if !self.doubt {
            return Ok(());
        }
        let path = Wal::segment_path_of(&self.dir, self.current);
        proof {
            pager.lemma_wf();
            pager.backing().shows();
            a_segment_is_named_by_its_number(self.dir@, self.current);
            lemma_log_is_outside(
                pager.backing().spec_vfs().files(),
                pager.backing().spec_vfs().dirs(),
                pager.backing().roots(),
                self.dir@,
            );
            assert(pager.backing().spec_vfs().files().contains_key(path@)
                <==> pager.backing().elsewhere().0.contains_key(path@));
        }
        if pager.vfs().has_file(&path) {
            match cut_file(pager, &path, self.current_bytes) {
                Ok(()) => {},
                Err(e) => {
                    return Err(WalError::io(&path, e));
                },
            }
        }
        self.doubt = false;
        Ok(())
    }

    /// The log ends here again, and what was appended since is in doubt.
    pub(crate) fn take_back(&mut self, current: u64, bytes: u64)
        ensures
            final(self).spec_dir() == old(self).spec_dir(),
            final(self).spec_next_lsn() == old(self).spec_next_lsn(),
            final(self).spec_current() == current,
            final(self).spec_bytes() == bytes,
            final(self).spec_doubt(),
    {
        self.current = current;
        self.current_bytes = bytes;
        self.doubt = true;
    }

    /// The bytes in the segment that is appended to.
    pub(crate) fn current_len(&self) -> (n: u64)
        ensures
            n == self.spec_bytes(),
    {
        self.current_bytes
    }
}

/// What settling a log does: what is in doubt is cut off, or the disk did not do it.
pub open spec fn settling<B: Backing>(a: B, b: B, w: Wal, x: Wal, r: Result<(), WalError>) -> bool {
    let (files, dirs) = a.elsewhere();
    &&& b.elsewhere().1 == dirs
    &&& same_end(w, x)
    &&& x.spec_dir() == w.spec_dir()
    &&& x.spec_next_lsn() == w.spec_next_lsn()
    &&& match r {
        Ok(()) => !x.spec_doubt() && b.elsewhere().0 == taken_back(w, files),
        Err(e) => !a.steady() && e is Io && w.spec_doubt() && x.spec_doubt() && (b.elsewhere().0
            == files || b.elsewhere().0 == taken_back(w, files)),
    }
}

/// Nothing but the log's files may differ.
pub open spec fn same_pager<V: Vfs, C: Clock>(
    a: &Pager<FsStore<V>, C>,
    b: &Pager<FsStore<V>, C>,
) -> bool {
    &&& b.spec_head() == a.spec_head()
    &&& b.pin_counts() == a.pin_counts()
    &&& b.spec_config() == a.spec_config()
    &&& b.spec_clock() == a.spec_clock()
    &&& same_store(a.backing(), b.backing())
    &&& b.backing().held_manifests() == a.backing().held_manifests()
    &&& b.backing().manifests() == a.backing().manifests()
}

/// The pages are the same, and so is the place where they are kept.
pub open spec fn same_store<B: Backing>(a: B, b: B) -> bool {
    &&& b.steady() == a.steady()
    &&& b.hasher() == a.hasher()
    &&& b.roots() == a.roots()
    &&& b.held_pages() == a.held_pages()
    &&& b.pages() == a.pages()
}

/// A log that was just opened goes on in its last segment, where that one ends, or in the first one
/// where it has none.
pub open spec fn at_last_segment(
    w: Wal,
    files: Map<Names, Seq<u8>>,
    dirs: Set<Names>,
    steady: bool,
) -> bool {
    let (dir, n) = (w.spec_dir(), w.spec_current());
    let path = segment_path(dir, n);
    &&& forall|k: u64| #[trigger] is_segment(files, dirs, dir, k) ==> k <= n
    &&& is_segment(files, dirs, dir, n) || (n == 0 && w.spec_bytes() == 0)
    &&& steady ==> w.spec_bytes() == (if files.contains_key(path) {
        files[path].len()
    } else {
        0
    })
}

impl Wal {
    /// Replays every segment onto the store, cuts off what is torn or unfinished, and says whether
    /// something was torn.
    #[verifier::rlimit(60)]
    #[verifier::spinoff_prover]
    fn replay_log<V: Vfs, C: Clock>(
        &mut self,
        pager: &mut Pager<FsStore<V>, C>,
        x: &mut Replaying,
        Ghost(st): Ghost<Replay>,
    ) -> (r: Result<bool, WalError>)
        requires
            old(pager).wf(),
            apart(old(pager).backing().roots(), old(self).spec_dir()),
            old(pager).backing().held_manifests().contains(old(x).head),
            old(x).pending@.is_empty(),
        ensures
            final(pager).wf(),
            final(pager).pin_counts() == old(pager).pin_counts(),
            final(pager).spec_config() == old(pager).spec_config(),
            final(pager).spec_clock() == old(pager).spec_clock(),
            same_store(old(pager).backing(), final(pager).backing()),
            final(pager).backing().elsewhere().1 == old(pager).backing().elsewhere().1,
            final(self).spec_dir() == old(self).spec_dir(),
            final(self).spec_next_lsn() == old(self).spec_next_lsn(),
            r is Ok ==> final(pager).backing().held_manifests().contains(final(x).head),
            ({
                let (files, dirs) = old(pager).backing().elsewhere();
                let dir = old(self).spec_dir();
                &&& misnamed(files, dirs, dir) ==> r is Err
                &&& old(pager).backing().steady() && r is Err ==> is_replay_error(r->Err_0)
                    || says_misnamed(files, dirs, dir, r->Err_0)
                &&& replayed(
                    old(pager).backing(),
                    final(pager).backing(),
                    *old(self),
                    *final(self),
                    *old(x),
                    *final(x),
                    st,
                    r,
                )
            }),
    {
        let ghost roots = pager.backing().roots();
        let ghost dir = self.dir@;
        let ghost (files, dirs) = pager.backing().elsewhere();
        let ghost steady = pager.backing().steady();
        let ghost fits = x.tracks(pager.backing(), st);
        proof {
            pager.lemma_wf();
            pager.backing().shows();
            lemma_log_is_outside(
                pager.backing().spec_vfs().files(),
                pager.backing().spec_vfs().dirs(),
                roots,
                dir,
            );
        }
        let segments = match Wal::segments_in(pager.vfs(), &self.dir) {
            Ok(s) => s,
            Err(e) => {
                return Err(e);
            },
        };
        let ghost segs = segments@;
        let ghost captured = x.captured;
        let ghost all = log_in(files, dir, segs);
        proof {
            lemma_numbers_outside(
                segs,
                pager.backing().spec_vfs().files(),
                pager.backing().spec_vfs().dirs(),
                roots,
                dir,
            );
            assert(segs.take(0) =~= Seq::empty());
            assert(untorn(files, dir, segs.take(0)) =~= files);
            assert(replay(st, Seq::empty()) == Outcome::Fine(st));
        }
        let ghost mut seen: Seq<Record> = Seq::empty();
        let mut mark_seg: usize = 0;
        let mut mark_at: usize = 0;
        let mut torn = false;
        self.current_bytes = 0;
        let mut i: usize = 0;
        while i < segments.len()
            invariant
                i <= segs.len(),
                segs == segments@,
                roots == old(pager).backing().roots(),
                dir == old(self).spec_dir(),
                self.dir@ == dir,
                self.next_lsn == old(self).next_lsn,
                apart(roots, dir),
                (files, dirs) == old(pager).backing().elsewhere(),
                steady == old(pager).backing().steady(),
                fits == old(x).tracks(old(pager).backing(), st),
                are_numbers(segs, files, dirs, dir),
                orderly(files, dirs, dir) ==> ascending(segs),
                forall|k: int|
                    0 <= k < i ==> files.contains_key(segment_path(dir, #[trigger] segs[k])),
                pager.wf(),
                pager.pin_counts() == old(pager).pin_counts(),
                pager.spec_config() == old(pager).spec_config(),
                pager.spec_clock() == old(pager).spec_clock(),
                same_store(old(pager).backing(), pager.backing()),
                pager.backing().elsewhere() == (untorn(files, dir, segs.take(i as int)), dirs),
                pager.backing().held_manifests().contains(x.head),
                all == log_in(files, dir, segs),
                captured == old(x).captured,
                x.captured == captured,
                x.pending@.is_empty() == !unfinished(captured, seen),
                seen == log_in(files, dir, segs.take(i as int)),
                mark_seg == 0 || mark_seg < i,
                i == 0 ==> mark_at == 0,
                i > 0 ==> marked(
                    files,
                    dir,
                    segs,
                    mark_seg as int,
                    mark_at as int,
                    settled(captured, seen) as int,
                ),
                torn == has_torn_tail(files, dir, segs.take(i as int)),
                i == 0 ==> self.current == old(self).current && self.current_bytes == 0,
                i > 0 ==> self.current == segs[i - 1] && self.current_bytes == good_len(
                    files[segment_path(dir, segs[i - 1])],
                ),
                fits ==> x.answers(pager.backing(), replay(st, seen), None),
            decreases segs.len() - i,
        {
            let segment: u64 = segments[i];
            let path = Wal::segment_path_of(&self.dir, segment);
            let ghost now = untorn(files, dir, segs.take(i as int));
            proof {
                pager.lemma_wf();
                pager.backing().shows();
                a_segment_is_named_by_its_number(dir, segment);
                lemma_child_is_apart(roots, dir, path@);
                lemma_log_prefix(st, files, dir, segs, i as int);
                lemma_log_grows(files, dir, segs, i as int, i + 1);
                lemma_stopped_at(files, dir, captured, segs, i as int);
                assert(now.dom() =~= files.dom());
                assert(now.contains_key(path@) <==> files.contains_key(path@));
                if fits {
                    lemma_replayed_to(pager.backing(), st, files, dir, segs, i as int);
                }
            }
            let bytes = match pager.vfs().read(&path) {
                Ok(b) => b,
                Err(e) => {
                    let failed = WalError::io(&path, e);
                    proof {
                        assert(segs.contains(segment));
                        assert(path@ == segment_path(dir, segment));
                        lemma_stopped_there(
                            old(pager).backing(),
                            pager.backing(),
                            *old(self),
                            *self,
                            *old(x),
                            *x,
                            st,
                            failed,
                            segs,
                        );
                    }
                    return Err(failed);
                },
            };
            proof {
                assert(files.contains_key(path@));
                assert(bytes@ == now[path@]);
                lemma_untorn_read(files, dir, segs, i as int);
                lemma_stopped_at(files, dir, captured, segs, i + 1);
            }
            let ghost cur = replay(st, seen)->Fine_0;
            let (offset, mark): (usize, Option<usize>) = match x.replay_segment(
                pager,
                &bytes,
                Ghost(cur),
                Ghost(seen),
            ) {
                Ok(n) => n,
                Err(e) => {
                    proof {
                        if fits {
                            lemma_log_begins(files, dir, segs, i + 1, segs.len() as int);
                            assert(segs.take(segs.len() as int) =~= segs);
                            lemma_got_into_cat(pager.backing(), st, seen, records_of(bytes@), all);
                        }
                    }
                    return Err(e);
                },
            };
            let ghost before = seen;
            proof {
                seen = seen + records_of(bytes@);
                lemma_settled(captured, seen);
                lemma_settled(captured, before);
                if fits {
                    lemma_replayed_to(pager.backing(), st, files, dir, segs, i + 1);
                }
            }
            if let Some(at) = mark {
                mark_seg = i;
                mark_at = at;
            }
            proof {
                lemma_good_len(bytes@);
                pager.lemma_wf();
                pager.backing().shows();
                lemma_torn_step(files, dir, segs, i as int);
                lemma_len_in_good_part(files[path@], settled(captured, seen) - before.len());
            }
            if offset < bytes.len() {
                torn = true;
                let ghost held = pager.backing();
                let cut_off = cut_file(pager, &path, offset as u64);
                proof {
                    assert(cut(bytes@, offset as u64) =~= bytes@.take(offset as int));
                    if fits {
                        lemma_same_reached(held, pager.backing(), st, all);
                    }
                }
                match cut_off {
                    Ok(()) => {},
                    Err(e) => {
                        return Err(WalError::io(&path, e));
                    },
                }
            }
            self.current = segment;
            self.current_bytes = offset as u64;
            i = i + 1;
        }
        proof {
            assert(segs.take(i as int) =~= segs);
            assert forall|n: u64| is_segment(files, dirs, dir, n) implies files.contains_key(
                segment_path(dir, n),
            ) by {
                assert(segs.contains(n));
            }
            lemma_untorn_is_mended(files, dir, segs, all.len() as int);
            if fits {
                lemma_replayed_to(pager.backing(), st, files, dir, segs, i as int);
            }
            lemma_settled(captured, seen);
        }
        let n: usize = segments.len();
        if !x.pending.is_empty() && n > 0 {
            let ghost held = pager.backing();
            let dropped = self.drop_unfinished(
                pager,
                &segments,
                mark_seg,
                mark_at,
                Ghost(files),
                Ghost(settled(captured, seen) as int),
            );
            proof {
                assert(segs.take(segs.len() as int) =~= segs);
                if fits {
                    lemma_same_reached(held, pager.backing(), st, all);
                }
            }
            match dropped {
                Ok(()) => {},
                Err(e) => {
                    return Err(e);
                },
            }
            self.current_bytes = if mark_seg + 1 == n {
                mark_at as u64
            } else {
                0
            };
            proof {
                lemma_last_is_cut(
                    files,
                    dir,
                    segs,
                    mark_seg as int,
                    mark_at as int,
                    settled(captured, seen) as int,
                );
            }
        } else {
            proof {
                if n > 0 {
                    let last = segment_path(dir, segs.last());
                    assert(listed(dir, segs, last));
                    lemma_good_len(files[last]);
                }
            }
        }
        Ok(torn)
    }

    /// Cuts the log off behind a place in one of its segments: the segments behind it first, from
    /// the last one on.
    fn drop_unfinished<V: Vfs, C: Clock>(
        &self,
        pager: &mut Pager<FsStore<V>, C>,
        segments: &Vec<u64>,
        seg: usize,
        at: usize,
        Ghost(files): Ghost<Map<Names, Seq<u8>>>,
        Ghost(n): Ghost<int>,
    ) -> (r: Result<(), WalError>)
        requires
            old(pager).wf(),
            apart(old(pager).backing().roots(), self.spec_dir()),
            forall|k: int|
                0 <= k < segments@.len() ==> files.contains_key(
                    segment_path(self.spec_dir(), #[trigger] segments@[k]),
                ),
            old(pager).backing().elsewhere().0 == mended(
                files,
                self.spec_dir(),
                segments@,
                log_in(files, self.spec_dir(), segments@).len() as int,
            ),
            marked(files, self.spec_dir(), segments@, seg as int, at as int, n),
        ensures
            final(pager).wf(),
            same_pager(old(pager), final(pager)),
            final(pager).backing().elsewhere().1 == old(pager).backing().elsewhere().1,
            r is Err ==> r->Err_0 is Io,
            ({
                let (dir, segs) = (self.spec_dir(), segments@);
                let now = final(pager).backing().elsewhere().0;
                match r {
                    Ok(()) => now == mended(files, dir, segs, n),
                    Err(_) => !old(pager).backing().steady() && partly_dropped(
                        files,
                        dir,
                        segs,
                        n,
                        now,
                    ),
                }
            }),
    {
        let ghost dir = self.dir@;
        let ghost segs = segments@;
        let ghost dirs = pager.backing().elsewhere().1;
        let mut m: usize = segments.len();
        assert(segs.take(m as int) =~= segs);
        while m > seg
            invariant
                forall|k: int|
                    0 <= k < segs.len() ==> files.contains_key(
                        segment_path(dir, #[trigger] segs[k]),
                    ),
                marked(files, dir, segs, seg as int, at as int, n),
                dirs == old(pager).backing().elsewhere().1,
                seg <= m <= segments@.len(),
                segs == segments@,
                dir == self.dir@,
                pager.wf(),
                same_pager(old(pager), pager),
                apart(pager.backing().roots(), dir),
                pager.backing().elsewhere() == (
                    mended(
                        files,
                        dir,
                        segs,
                        if m > seg {
                            log_in(files, dir, segs.take(m as int)).len() as int
                        } else {
                            n
                        },
                    ),
                    dirs,
                ),
            decreases m,
        {
            m = m - 1;
            let path = Wal::segment_path_of(&self.dir, segments[m]);
            let len: u64 = if m == seg {
                at as u64
            } else {
                0
            };
            let ghost was = log_in(files, dir, segs.take(m + 1)).len() as int;
            let ghost to = if m == seg {
                n
            } else {
                log_in(files, dir, segs.take(m as int)).len() as int
            };
            proof {
                a_segment_is_named_by_its_number(dir, segs[m as int]);
                lemma_log_grows(files, dir, segs, m as int, m + 1);
                assert(segs.take(segs.len() as int) =~= segs);
                lemma_log_grows(files, dir, segs, m + 1, segs.len() as int);
                lemma_log_grows(files, dir, segs, seg + 1, m + 1);
                if m > seg {
                    lemma_log_grows(files, dir, segs, seg + 1, m as int);
                }
                lemma_cut_further(files, dir, segs, m as int, was, to, len);
                assert(pager.backing().elsewhere().0 == mended(files, dir, segs, was));
            }
            let cut_off = cut_file(pager, &path, len);
            proof {
                let now = pager.backing().elsewhere().0;
                assert(now == mended(files, dir, segs, was) || now == mended(files, dir, segs, to));
                assert(partly_dropped(files, dir, segs, n, now));
            }
            match cut_off {
                Ok(()) => {},
                Err(e) => {
                    return Err(WalError::io(&path, e));
                },
            }
        }
        Ok(())
    }
}

/// At least the first `n` records are left.
spec fn partly_dropped(
    files: Map<Names, Seq<u8>>,
    dir: Names,
    segs: Seq<u64>,
    n: int,
    now: Map<Names, Seq<u8>>,
) -> bool {
    exists|k: int|
        n <= k <= log_in(files, dir, segs).len() && now == #[trigger] mended(files, dir, segs, k)
}

/// The first `n` records end in this segment, at this byte.
pub open spec fn marked(
    files: Map<Names, Seq<u8>>,
    dir: Names,
    segs: Seq<u64>,
    seg: int,
    at: int,
    n: int,
) -> bool {
    &&& 0 <= seg < segs.len()
    &&& log_in(files, dir, segs.take(seg)).len() <= n <= log_in(files, dir, segs.take(seg + 1)).len()
    &&& at == len_of_first(
        files[segment_path(dir, segs[seg])],
        n - log_in(files, dir, segs.take(seg)).len(),
    )
}

/// What is left in the last segment of a log that was cut off at a place.
proof fn lemma_last_is_cut(
    files: Map<Names, Seq<u8>>,
    dir: Names,
    segs: Seq<u64>,
    seg: int,
    at: int,
    n: int,
)
    requires
        forall|k: int|
            0 <= k < segs.len() ==> files.contains_key(segment_path(dir, #[trigger] segs[k])),
        marked(files, dir, segs, seg, at, n),
    ensures
        mended(files, dir, segs, n)[segment_path(dir, segs.last())].len() == (if seg + 1
            == segs.len() {
            at
        } else {
            0
        }),
{
    let last = segs.len() - 1;
    let p = segment_path(dir, segs[last]);
    let here = n - log_in(files, dir, segs.take(last)).len();
    lemma_mended_at(files, dir, segs, n);
    assert(last_of(segs, last));
    if seg < last {
        lemma_log_grows(files, dir, segs, seg + 1, last);
        assert(len_of_first(files[p], here) == 0);
    } else {
        lemma_len_of_first(files[p], here);
    }
}

/// Where the replay of all segments stands after one more of them.
proof fn lemma_log_prefix(st: Replay, files: Map<Names, Seq<u8>>, dir: Names, segs: Seq<u64>, i: int)
    requires
        0 <= i < segs.len(),
    ensures
        ({
            let done = log_in(files, dir, segs.take(i));
            let upto = log_in(files, dir, segs.take(i + 1));
            let here = records_of(files[segment_path(dir, segs[i])]);
            &&& replay(st, upto) == (match replay(st, done) {
                Outcome::Fine(mid) => replay(mid, here),
                other => other,
            })
            &&& replay(st, upto) !is Fine ==> replay(st, log_in(files, dir, segs)) == replay(st, upto)
        }),
    decreases segs.len() - i,
{
    let done = log_in(files, dir, segs.take(i));
    let upto = log_in(files, dir, segs.take(i + 1));
    assert(segs.take(i + 1).drop_last() =~= segs.take(i));
    lemma_replay_cat(st, done, records_of(files[segment_path(dir, segs[i])]));
    if i + 1 < segs.len() {
        lemma_log_prefix(st, files, dir, segs, i + 1);
    } else {
        assert(segs.take(i + 1) =~= segs);
    }
}

/// What a replay of a whole directory gives, whatever its entries are named: the numbers are taken in
/// order, and one that several entries are named for is replayed as often. Where it fails, it got
/// into these records.
spec fn replayed<B: Backing>(
    a: B,
    b: B,
    w: Wal,
    v: Wal,
    x: Replaying,
    y: Replaying,
    st: Replay,
    r: Result<bool, WalError>,
) -> bool {
    let (files, dirs) = a.elsewhere();
    let dir = w.spec_dir();
    ||| exists|segs: Seq<u64>| #[trigger]
        are_numbers(segs, files, dirs, dir) && (orderly(files, dirs, dir) ==> ascending(segs))
            && replayed_these(a, b, w, v, x, y, st, r, segs)
    ||| r is Err && !a.steady() && b.elsewhere() == a.elsewhere() && b.manifests() == a.manifests()
        && b.held_manifests() == a.held_manifests()
    ||| r is Err && says_misnamed(files, dirs, dir, r->Err_0) && exists|segs: Seq<u64>| #[trigger]
        are_numbers(segs, files, dirs, dir) && replay_stopped(a, b, w, x, st, segs)
}

/// How far a replay can get into these segments.
spec fn replay_stopped<B: Backing>(
    a: B,
    b: B,
    w: Wal,
    x: Replaying,
    st: Replay,
    segs: Seq<u64>,
) -> bool {
    let files = a.elsewhere().0;
    &&& partly_settled(files, w.spec_dir(), segs, x.captured, b.elsewhere().0)
    &&& x.tracks(a, st) ==> got_into(b, st, log_in(files, w.spec_dir(), segs))
}

/// The same, with the numbers.
spec fn replayed_these<B: Backing>(
    a: B,
    b: B,
    w: Wal,
    v: Wal,
    x: Replaying,
    y: Replaying,
    st: Replay,
    r: Result<bool, WalError>,
    segs: Seq<u64>,
) -> bool {
    let files = a.elsewhere().0;
    let now = b.elsewhere().0;
    let dir = w.spec_dir();
    let recs = log_in(files, dir, segs);
    match r {
        Ok(torn) => {
            &&& now == mended(files, dir, segs, settled(x.captured, recs) as int)
            &&& torn == has_torn_tail(files, dir, segs)
            &&& segs.len() == 0 ==> v.spec_current() == w.spec_current() && v.spec_bytes() == 0
            &&& segs.len() > 0 ==> v.spec_current() == segs.last() && v.spec_bytes()
                == now[segment_path(dir, segs.last())].len()
            &&& x.tracks(a, st) ==> y.answers(b, replay(st, recs), None)
        },
        Err(e) => {
            &&& !a.steady() || (x.tracks(a, st) ==> fails_as(replay(st, recs), e, true))
            &&& replay_stopped(a, b, w, x, st, segs)
        },
    }
}

/// A replay that cannot read a segment stops there.
proof fn lemma_stopped_there<B: Backing>(
    a: B,
    b: B,
    w: Wal,
    v: Wal,
    x: Replaying,
    y: Replaying,
    st: Replay,
    e: WalError,
    segs: Seq<u64>,
)
    requires
        ({
            let (files, dirs) = a.elsewhere();
            let dir = w.spec_dir();
            &&& are_numbers(segs, files, dirs, dir)
            &&& orderly(files, dirs, dir) ==> ascending(segs)
            &&& replay_stopped(a, b, w, x, st, segs)
            &&& !a.steady() || says_misnamed(files, dirs, dir, e)
        }),
    ensures
        replayed(a, b, w, v, x, y, st, Err(e)),
{
    let r: Result<bool, WalError> = Err(e);
    if !a.steady() {
        assert(replayed_these(a, b, w, v, x, y, st, r, segs));
    } else {
        assert(says_misnamed(a.elsewhere().0, a.elsewhere().1, w.spec_dir(), r->Err_0));
    }
}

/// In an orderly log every segment's own file is there.
proof fn lemma_orderly_is_named(files: Map<Names, Seq<u8>>, dirs: Set<Names>, dir: Names)
    requires
        orderly(files, dirs, dir),
    ensures
        !misnamed(files, dirs, dir),
{
    assert forall|n: u64| #[trigger] is_segment(files, dirs, dir, n) implies files.contains_key(
        segment_path(dir, n),
    ) by {
        let f = choose|f: Names|
            is_child(f, dir) && (files.contains_key(f) || dirs.contains(f))
                && #[trigger] segment_number(f.last()) == Some(n);
        assert(segment_number(f.last()) is Some);
    }
}

/// A recovery gives what its replay gave.
proof fn lemma_recovered<B: Backing>(
    a: B,
    mid: B,
    b: B,
    w: Wal,
    was: Wal,
    v: Wal,
    x: Wal,
    begin: Replaying,
    y: Replaying,
    root: ManifestView,
    head: ManifestId,
    rr: Result<bool, WalError>,
    r: Result<Recovery, WalError>,
)
    requires
        a.elsewhere() == mid.elsewhere(),
        a.steady() == mid.steady(),
        w.spec_dir() == was.spec_dir(),
        w.spec_current() == was.spec_current(),
        b.elsewhere().1 == a.elsewhere().1,
        ({
            let mark = marker(a.elsewhere().0, w.spec_dir());
            let st = begun(a.manifests(), a.held_manifests(), mark, root, w.spec_next_lsn());
            &&& mark is Some ==> a.held_manifests().contains(mark->Some_0.0)
            &&& begin.tracks(mid, st)
            &&& replayed(mid, b, was, v, begin, y, st, rr)
        }),
        rr is Err ==> r is Err && r->Err_0 == rr->Err_0,
        rr is Ok && r is Err ==> !a.steady(),
        r is Ok ==> {
            let rec = r->Ok_0;
            &&& rr is Ok
            &&& rec.torn_tail == rr->Ok_0
            &&& rec.committed_txns == y.txns
            &&& rec.records_replayed == y.records
            &&& rec.durable_lsn == y.durable
            &&& rec.uncommitted_writes_discarded == y.pending@.dom().len()
            &&& head == y.head
            &&& x.spec_next_lsn() == y.next_lsn
            &&& x.spec_current() == v.spec_current()
            &&& x.spec_bytes() == v.spec_bytes()
            &&& !x.spec_doubt()
        },
    ensures
        recovered_by_number(a, b, w, x, root, head, r),
        orderly(a.elsewhere().0, a.elsewhere().1, w.spec_dir()) ==> recovered(
            a,
            b,
            w,
            x,
            root,
            head,
            r,
        ),
{
    let (files, dirs) = a.elsewhere();
    let dir = w.spec_dir();
    let mark = marker(files, dir);
    let st = begun(a.manifests(), a.held_manifests(), mark, root, w.spec_next_lsn());
    if exists|segs: Seq<u64>| #[trigger]
        are_numbers(segs, files, dirs, dir) && (orderly(files, dirs, dir) ==> ascending(segs))
            && replayed_these(
            mid,
            b,
            was,
            v,
            begin,
            y,
            st,
            rr,
            segs,
        ) {
        let segs = choose|segs: Seq<u64>| #[trigger]
            are_numbers(segs, files, dirs, dir) && (orderly(files, dirs, dir) ==> ascending(segs))
                && replayed_these(
                mid,
                b,
                was,
                v,
                begin,
                y,
                st,
                rr,
                segs,
            );
        let recs = log_in(files, dir, segs);
        assert(recs.take(recs.len() as int) =~= recs);
        if rr is Ok {
            assert(reached(b, st, recs.take(recs.len() as int)));
            assert(got_into(b, st, recs));
        }
        if rr is Ok && r is Err {
            let all = segs.take(segs.len() as int);
            assert(all =~= segs);
            lemma_settled(captured_by(mark), recs);
            assert(b.elsewhere().0 == mended(
                files,
                dir,
                all,
                settled(captured_by(mark), recs) as int,
            ));
        }
        assert(recovered_these(a, b, w, x, root, head, r, segs));
        if orderly(files, dirs, dir) {
            lemma_segments_are(segs, files, dirs, dir);
        }
    } else if rr is Err && says_misnamed(files, dirs, dir, rr->Err_0) && exists|segs: Seq<u64>|
        #[trigger] are_numbers(segs, files, dirs, dir) && replay_stopped(
            mid,
            b,
            was,
            begin,
            st,
            segs,
        ) {
        let segs = choose|segs: Seq<u64>| #[trigger]
            are_numbers(segs, files, dirs, dir) && replay_stopped(mid, b, was, begin, st, segs);
        assert(stopped(a, b, w, root, segs));
        if orderly(files, dirs, dir) {
            lemma_orderly_is_named(files, dirs, dir);
        }
    } else {
        assert(replay(st, Seq::empty()) == Outcome::Fine(st));
        assert(unlisted(a, b, w, root, r));
        lemma_unlisted(a, b, w, x, root, head, r);
    }
}

/// A recovery that did not get to the segments is one that stopped before the first of them.
proof fn lemma_unlisted<B: Backing>(
    a: B,
    b: B,
    w: Wal,
    x: Wal,
    root: ManifestView,
    head: ManifestId,
    r: Result<Recovery, WalError>,
)
    requires
        unlisted(a, b, w, root, r),
    ensures
        recovered(a, b, w, x, root, head, r),
{
    let (files, dirs) = a.elsewhere();
    let dir = w.spec_dir();
    let segs = segments(files, dirs, dir);
    let recs = log_in(files, dir, segs);
    lemma_settled(captured_by(marker(files, dir)), recs);
    assert(segs.take(0) =~= Seq::empty());
    assert(files == mended(files, dir, segs.take(0), recs.len() as int));
    assert(recs.take(0) =~= Seq::empty());
    let st = begun(
        a.manifests(),
        a.held_manifests(),
        marker(files, dir),
        root,
        w.spec_next_lsn(),
    );
    if reached(b, st, Seq::empty()) {
        assert(reached(b, st, recs.take(0)));
    }
}

/// The numbers are the same whether one looks at all files, or only at those outside the roots.
proof fn lemma_numbers_outside(
    segs: Seq<u64>,
    files: Map<Names, Seq<u8>>,
    dirs: Set<Names>,
    roots: Seq<Names>,
    dir: Names,
)
    requires
        apart(roots, dir),
        are_numbers(segs, files, dirs, dir),
    ensures
        ({
            let (g, e) = outside(files, dirs, roots[0], roots[1]);
            are_numbers(segs, g, e, dir)
        }),
{
    let (g, e) = outside(files, dirs, roots[0], roots[1]);
    lemma_log_is_outside(files, dirs, roots, dir);
    assert forall|n: u64| named_for(files, dirs, dir, n) == #[trigger] named_for(g, e, dir, n) by {
        assert forall|f: Names| named_for(files, dirs, dir, n).contains(f) <==> named_for(
            g,
            e,
            dir,
            n,
        ).contains(f) by {
            if is_child(f, dir) {
                lemma_child_is_apart(roots, dir, f);
            }
        }
        assert(named_for(files, dirs, dir, n) =~= named_for(g, e, dir, n));
    }
    assert forall|n: u64| #[trigger] segs.contains(n) <==> is_segment(g, e, dir, n) by {
        assert(is_segment(files, dirs, dir, n) <==> is_segment(g, e, dir, n));
    }
}

/// What is left of a segment's bytes when what is torn is cut off.
proof fn lemma_good_part(bytes: Seq<u8>)
    ensures
        ({
            let kept = bytes.take(good_len(bytes) as int);
            &&& good_len(bytes) <= bytes.len()
            &&& records_of(kept) == records_of(bytes)
            &&& good_len(kept) == good_len(bytes)
            &&& kept.take(good_len(kept) as int) == kept
            &&& whole(bytes) ==> kept == bytes
        }),
{
    let kept = bytes.take(good_len(bytes) as int);
    let all = records_of(bytes);
    lemma_good_len(bytes);
    lemma_len_of_first(bytes, all.len() as int);
    assert(all.take(all.len() as int) =~= all);
    assert(kept.take(kept.len() as int) =~= kept);
    assert(whole(bytes) ==> kept =~= bytes);
}

/// How long the first records are does not depend on what is torn behind them.
proof fn lemma_len_in_good_part(bytes: Seq<u8>, n: int)
    ensures
        len_of_first(bytes.take(good_len(bytes) as int), n) == len_of_first(bytes, n),
    decreases bytes.len(),
{
    lemma_good_len(bytes);
    let kept = bytes.take(good_len(bytes) as int);
    match read_front(bytes) {
        None => {
            assert(kept =~= Seq::empty());
        },
        Some((_, k)) => {
            let rest = bytes.skip(k as int);
            lemma_good_len(rest);
            let part = rest.take(good_len(rest) as int);
            reading_looks_no_further_than_the_record(bytes, part);
            assert(kept =~= bytes.take(k as int) + part);
            assert(kept.skip(k as int) =~= part);
            lemma_len_in_good_part(rest, n - 1);
        },
    }
}

/// One of these segments is in this file.
spec fn listed(dir: Names, segs: Seq<u64>, f: Names) -> bool {
    exists|k: int| 0 <= k < segs.len() && f == segment_path(dir, #[trigger] segs[k])
}

/// The files after what is torn was cut off of these segments.
spec fn untorn(files: Map<Names, Seq<u8>>, dir: Names, segs: Seq<u64>) -> Map<Names, Seq<u8>> {
    Map::new(
        |f: Names| files.contains_key(f),
        |f: Names|
            if listed(dir, segs, f) {
                files[f].take(good_len(files[f]) as int)
            } else {
                files[f]
            },
    )
}

/// What is read of a segment, whether or not it was read before.
proof fn lemma_untorn_read(files: Map<Names, Seq<u8>>, dir: Names, segs: Seq<u64>, i: int)
    requires
        0 <= i < segs.len(),
        files.contains_key(segment_path(dir, segs[i])),
    ensures
        ({
            let p = segment_path(dir, segs[i]);
            let now = untorn(files, dir, segs.take(i));
            let next = untorn(files, dir, segs.take(i + 1));
            &&& records_of(now[p]) == records_of(files[p])
            &&& good_len(now[p]) == good_len(files[p])
            &&& next == now.insert(p, now[p].take(good_len(now[p]) as int))
            &&& whole(now[p]) ==> next == now
            &&& has_torn_tail(files, dir, segs.take(i)) || whole(files[p]) == whole(now[p])
            &&& now[p] == files[p] || now[p] == files[p].take(good_len(files[p]) as int)
        }),
{
    let p = segment_path(dir, segs[i]);
    let (done, upto) = (segs.take(i), segs.take(i + 1));
    let now = untorn(files, dir, done);
    let next = untorn(files, dir, upto);
    lemma_good_part(files[p]);
    assert(listed(dir, upto, p)) by {
        assert(upto[i] == segs[i]);
    }
    assert forall|f: Names| f != p implies listed(dir, upto, f) == listed(dir, done, f) by {
        if listed(dir, upto, f) {
            let k = choose|k: int| 0 <= k < upto.len() && f == segment_path(dir, #[trigger] upto[k]);
            assert(k < i);
            assert(done[k] == upto[k]);
        }
        if listed(dir, done, f) {
            let k = choose|k: int| 0 <= k < done.len() && f == segment_path(dir, #[trigger] done[k]);
            assert(upto[k] == done[k]);
        }
    }
    assert(now[p].take(good_len(now[p]) as int) == files[p].take(good_len(files[p]) as int));
    assert(next =~= now.insert(p, now[p].take(good_len(now[p]) as int)));
    if whole(now[p]) {
        assert(now[p].take(good_len(now[p]) as int) =~= now[p]);
        assert(next =~= now);
    }
    if listed(dir, done, p) {
        let k = choose|k: int| 0 <= k < done.len() && p == segment_path(dir, #[trigger] done[k]);
        assert(done[k] == segs[k]);
    }
}

/// Where what is torn was cut off of the first `i` segments, that is how far a recovery can get.
proof fn lemma_stopped_at(
    files: Map<Names, Seq<u8>>,
    dir: Names,
    captured: Option<Lsn>,
    segs: Seq<u64>,
    i: int,
)
    requires
        0 <= i <= segs.len(),
        forall|k: int| 0 <= k < i ==> files.contains_key(segment_path(dir, #[trigger] segs[k])),
    ensures
        partly_settled(files, dir, segs, captured, untorn(files, dir, segs.take(i))),
{
    let part = segs.take(i);
    let recs = log_in(files, dir, segs);
    assert forall|k: int| 0 <= k < part.len() implies files.contains_key(
        segment_path(dir, #[trigger] part[k]),
    ) by {
        assert(part[k] == segs[k]);
    }
    assert(segs.take(segs.len() as int) =~= segs);
    lemma_log_grows(files, dir, segs, i, segs.len() as int);
    lemma_untorn_is_mended(files, dir, part, recs.len() as int);
    lemma_settled(captured, recs);
    assert(untorn(files, dir, part) == mended(files, dir, segs.take(i), recs.len() as int));
}

/// Cutting off what is torn is keeping all records.
proof fn lemma_untorn_is_mended(files: Map<Names, Seq<u8>>, dir: Names, segs: Seq<u64>, n: int)
    requires
        forall|k: int|
            0 <= k < segs.len() ==> files.contains_key(segment_path(dir, #[trigger] segs[k])),
        log_in(files, dir, segs).len() <= n,
    ensures
        untorn(files, dir, segs) == mended(files, dir, segs, n),
    decreases segs.len(),
{
    if segs.len() > 0 {
        let init = segs.drop_last();
        let last = segs.len() - 1;
        let p = segment_path(dir, segs.last());
        assert(segs[last] == segs.last());
        assert forall|k: int| 0 <= k < init.len() implies files.contains_key(
            segment_path(dir, #[trigger] init[k]),
        ) by {
            assert(init[k] == segs[k]);
        }
        assert(segs.take(last) =~= init);
        assert(segs.take(last + 1) =~= segs);
        lemma_log_grows(files, dir, segs, last, last + 1);
        lemma_untorn_is_mended(files, dir, init, n);
        lemma_untorn_read(files, dir, segs, last);
        lemma_good_part(files[p]);
        lemma_len_of_first(files[p], n - log_in(files, dir, init).len());
        assert(untorn(files, dir, segs) =~= mended(files, dir, segs, n));
    } else {
        assert(untorn(files, dir, segs) =~= files);
    }
}

/// A replay that is at the end of some segments got into the whole log.
proof fn lemma_replayed_to<B: Backing>(
    b: B,
    st: Replay,
    files: Map<Names, Seq<u8>>,
    dir: Names,
    segs: Seq<u64>,
    i: int,
)
    requires
        0 <= i <= segs.len(),
        replay(st, log_in(files, dir, segs.take(i))) matches Outcome::Fine(mid) && mid.ms
            == b.manifests() && mid.held == b.held_manifests(),
    ensures
        got_into(b, st, log_in(files, dir, segs)),
{
    let all = log_in(files, dir, segs);
    let done = log_in(files, dir, segs.take(i));
    assert(segs.take(segs.len() as int) =~= segs);
    lemma_log_begins(files, dir, segs, i, segs.len() as int);
    assert(reached(b, st, all.take(done.len() as int)));
}

/// How far a replay got does not depend on other files.
proof fn lemma_same_reached<B: Backing>(a: B, b: B, st: Replay, recs: Seq<Record>)
    requires
        got_into(a, st, recs),
        b.manifests() == a.manifests(),
        b.held_manifests() == a.held_manifests(),
    ensures
        got_into(b, st, recs),
{
    let k = choose|k: int| 0 <= k <= recs.len() && #[trigger] reached(a, st, recs.take(k));
    assert(reached(b, st, recs.take(k)));
}

/// Whether there was a torn tail up to here.
proof fn lemma_torn_step(files: Map<Names, Seq<u8>>, dir: Names, segs: Seq<u64>, i: int)
    requires
        0 <= i < segs.len(),
    ensures
        has_torn_tail(files, dir, segs.take(i + 1)) == (has_torn_tail(files, dir, segs.take(i))
            || !whole(files[segment_path(dir, segs[i])])),
{
    let (done, upto) = (segs.take(i), segs.take(i + 1));
    if has_torn_tail(files, dir, done) {
        let k = choose|k: int|
            0 <= k < done.len() && !whole(files[segment_path(dir, #[trigger] done[k])]);
        assert(upto[k] == done[k]);
    }
    if !whole(files[segment_path(dir, segs[i])]) {
        assert(upto[i] == segs[i]);
    }
    if has_torn_tail(files, dir, upto) {
        let k = choose|k: int|
            0 <= k < upto.len() && !whole(files[segment_path(dir, #[trigger] upto[k])]);
        if k < i {
            assert(done[k] == upto[k]);
        }
    }
}

impl Wal {
    /// Replays the log onto the store, which gets back the head that it had before the crash.
    ///
    /// The replay starts at a fixed base, the checkpoint or the empty root, and never at the
    /// store's current head. Where an entry of the directory is named like a segment whose own file
    /// is not there, recovery fails.
    pub fn recover<V: Vfs, C: Clock>(&mut self, pager: &mut Pager<FsStore<V>, C>) -> (r: Result<
        Recovery,
        WalError,
    >)
        requires
            old(pager).wf(),
            apart(old(pager).backing().roots(), old(self).spec_dir()),
        ensures
            final(pager).wf(),
            final(pager).pin_counts() == old(pager).pin_counts(),
            final(pager).spec_config() == old(pager).spec_config(),
            final(pager).spec_clock() == old(pager).spec_clock(),
            same_store(old(pager).backing(), final(pager).backing()),
            final(pager).backing().elsewhere().1 == old(pager).backing().elsewhere().1,
            final(self).spec_dir() == old(self).spec_dir(),
            r is Ok ==> final(pager).backing().held_manifests().contains(final(pager).spec_head()),
            ({
                let (files, dirs) = old(pager).backing().elsewhere();
                let dir = old(self).spec_dir();
                &&& misnamed(files, dirs, dir) ==> r is Err
                &&& old(pager).backing().steady() && r is Err ==> is_replay_error(r->Err_0)
                    || says_misnamed(files, dirs, dir, r->Err_0)
                &&& recovered_by_number(
                    old(pager).backing(),
                    final(pager).backing(),
                    *old(self),
                    *final(self),
                    empty_view(old(pager).spec_config().page_size),
                    final(pager).spec_head(),
                    r,
                )
            }),
            ({
                let (files, dirs) = old(pager).backing().elsewhere();
                orderly(files, dirs, old(self).spec_dir()) ==> recovered(
                    old(pager).backing(),
                    final(pager).backing(),
                    *old(self),
                    *final(self),
                    empty_view(old(pager).spec_config().page_size),
                    final(pager).spec_head(),
                    r,
                )
            }),
    {
        let ghost a = pager.backing();
        let ghost roots = a.roots();
        let ghost dir = self.dir@;
        let ghost root_view = empty_view(pager.spec_config().page_size);
        let ghost (files, dirs) = a.elsewhere();
        proof {
            pager.lemma_wf();
            a.shows();
            lemma_log_is_outside(a.spec_vfs().files(), a.spec_vfs().dirs(), roots, dir);
        }
        let ghost first = begun(
            a.manifests(),
            a.held_manifests(),
            marker(files, dir),
            root_view,
            self.next_lsn,
        );
        let mark = match self.read_checkpoint(pager.vfs()) {
            Ok(m) => m,
            Err(e) => {
                let failed: Result<Recovery, WalError> = Err(e);
                proof {
                    lemma_unlisted(
                        a,
                        pager.backing(),
                        *old(self),
                        *self,
                        root_view,
                        pager.spec_head(),
                        failed,
                    );
                }
                return failed;
            },
        };
        let mut captured: Option<Lsn> = None;
        let head = match mark {
            Some((manifest, lsn)) => {
                match pager.set_head_to(manifest) {
                    Ok(()) => {},
                    Err(e) => {
                        let failed: Result<Recovery, WalError> = Err(WalError::recovery(Stage::Marker, &e));
                        proof {
                            lemma_unlisted(
                                a,
                                pager.backing(),
                                *old(self),
                                *self,
                                root_view,
                                pager.spec_head(),
                                failed,
                            );
                        }
                        return failed;
                    },
                }
                self.next_lsn = if lsn < u64::MAX {
                    lsn + 1
                } else {
                    lsn
                };
                captured = Some(lsn);
                manifest
            },
            None => {
                let stored = pager.root_manifest();
                proof {
                    let b = pager.backing();
                    if manifest_put(a, b, root_view) {
                        a.contents_are_what_their_ids_say();
                        lemma_installed(a, b, root_view);
                        assert(reached(b, first, Seq::empty()));
                    }
                }
                let root = match stored {
                    Ok(id) => id,
                    Err(e) => {
                        let failed: Result<Recovery, WalError> = Err(WalError::Pager(e));
                        proof {
                            lemma_unlisted(
                                a,
                                pager.backing(),
                                *old(self),
                                *self,
                                root_view,
                                pager.spec_head(),
                                failed,
                            );
                        }
                        return failed;
                    },
                };
                match pager.set_head_to(root) {
                    Ok(()) => {},
                    Err(e) => {
                        let failed: Result<Recovery, WalError> = Err(WalError::recovery(Stage::Root, &e));
                        proof {
                            lemma_unlisted(
                                a,
                                pager.backing(),
                                *old(self),
                                *self,
                                root_view,
                                pager.spec_head(),
                                failed,
                            );
                        }
                        return failed;
                    },
                }
                root
            },
        };
        let mut x = Replaying {
            head,
            pending: BTreeMap::new(),
            next_lsn: self.next_lsn,
            captured,
            records: 0,
            txns: 0,
            durable: 0,
        };
        let ghost st = start_at(
            pager.ms(),
            pager.backing().held_manifests(),
            head,
            self.next_lsn,
            captured,
        );
        let ghost mid = pager.backing();
        let ghost (was, begin) = (*self, x);
        let replayed = self.replay_log(pager, &mut x, Ghost(st));
        let ghost then = *self;
        let torn_tail = match replayed {
            Ok(t) => t,
            Err(e) => {
                proof {
                    lemma_recovered(
                        a,
                        mid,
                        pager.backing(),
                        *old(self),
                        was,
                        then,
                        then,
                        begin,
                        x,
                        root_view,
                        pager.spec_head(),
                        replayed,
                        Err(e),
                    );
                }
                return Err(e);
            },
        };
        self.next_lsn = x.next_lsn;
        self.doubt = false;
        let set = pager.set_head_to(x.head);
        let summary = match set {
            Ok(()) => Ok(
                Recovery {
                    committed_txns: x.txns,
                    records_replayed: x.records,
                    torn_tail,
                    uncommitted_writes_discarded: x.pending.len() as u64,
                    durable_lsn: x.durable,
                },
            ),
            Err(e) => Err(WalError::recovery(Stage::Head, &e)),
        };
        proof {
            lemma_recovered(
                a,
                mid,
                pager.backing(),
                *old(self),
                was,
                then,
                *self,
                begin,
                x,
                root_view,
                pager.spec_head(),
                replayed,
                summary,
            );
        }
        summary
    }
}

/// A segment's file is in the log's directory. Its name is its number, in twelve digits where that is
/// enough, and `.wal`; no two segments share one.
pub proof fn a_segment_has_a_file_of_its_own(dir: Names, m: u64, n: u64)
    ensures
        segment_path(dir, n).drop_last() == dir,
        segment_path(dir, n).last().len() >= 16,
        segment_path(dir, n).last().take(segment_path(dir, n).last().len() - 4) == padded(
            n as nat,
            12,
        ),
        segment_path(dir, n).last().skip(segment_path(dir, n).last().len() - 4) == ".wal"@,
        segment_path(dir, m) == segment_path(dir, n) <==> m == n,
        checkpoint_path(dir) == dir.push("CHECKPOINT"@),
        segment_path(dir, n) != checkpoint_path(dir),
{
    reveal_strlit(".wal");
    reveal_strlit("CHECKPOINT");
    let name = segment_path(dir, n).last();
    assert(segment_path(dir, n).drop_last() =~= dir);
    assert(name.take(name.len() - 4) =~= padded(n as nat, 12));
    assert(name.skip(name.len() - 4) =~= ".wal"@);
    lemma_segment_paths(dir, m, n);
    assert(checkpoint_path(dir).last() == "CHECKPOINT"@);
}

/// The log goes on in a new segment exactly when the one it is in has reached four mebibytes.
pub proof fn a_full_segment_is_followed_by_the_next(current: u64, bytes: u64, n: nat)
    requires
        current < u64::MAX,
    ensures
        bytes + n >= 4194304 ==> rolled(current, bytes, n) == ((current + 1) as u64, 0u64),
        bytes + n < 4194304 ==> rolled(current, bytes, n).0 == current && rolled(
            current,
            bytes,
            n,
        ).1 == bytes + n,
{
}

/// Clearing the log removes the files of the segments before one, and no other file.
pub proof fn clearing_removes_older_segments_alone(
    files: Map<Names, Seq<u8>>,
    dir: Names,
    keep_from: u64,
    n: u64,
    f: Names,
)
    ensures
        n < keep_from ==> !cleared(files, dir, keep_from as int).contains_key(segment_path(dir, n)),
        n >= keep_from ==> cleared(files, dir, keep_from as int).get(segment_path(dir, n))
            == files.get(segment_path(dir, n)),
        (forall|m: u64| f != #[trigger] segment_path(dir, m)) ==> cleared(
            files,
            dir,
            keep_from as int,
        ).get(f) == files.get(f),
{
    if n >= keep_from {
        assert(!old_segment(segment_path(dir, n), dir, keep_from as int)) by {
            if old_segment(segment_path(dir, n), dir, keep_from as int) {
                let m = choose|m: u64|
                    m < keep_from && segment_path(dir, n) == #[trigger] segment_path(dir, m);
                lemma_segment_paths(dir, m, n);
            }
        }
    } else {
        assert(old_segment(segment_path(dir, n), dir, keep_from as int));
    }
}

/// A marker that was written is the checkpoint that is found, and no other file is one: where there is
/// no such file, or one that holds no whole record, or another record, there is no checkpoint.
pub proof fn a_marker_tells_of_its_checkpoint(
    files: Map<Names, Seq<u8>>,
    dir: Names,
    r: Record,
    other: Names,
    bytes: Seq<u8>,
)
    requires
        other != dir.push("CHECKPOINT"@),
    ensures
        marker(files.insert(dir.push("CHECKPOINT"@), frame(r)), dir) == (match r.kind {
            RecordKind::Checkpoint { manifest } => Some((manifest, r.lsn)),
            _ => None,
        }),
        marker(files.remove(dir.push("CHECKPOINT"@)), dir) is None,
        marker(files.insert(other, bytes), dir) == marker(files, dir),
        read_front(bytes) is None ==> marker(
            files.insert(dir.push("CHECKPOINT"@), bytes),
            dir,
        ) is None,
{
    a_framed_record_reads_back(r, Seq::empty());
}

/// A recovery that went through says what it did. The store has the manifests and the head that the
/// replay of the records from the checkpoint on, or from the root, came to; the counts are those of
/// the replay as far as the machine's integers go, and a torn tail is told of exactly where the file
/// of some segment does not end where a record ends. The replay starts with nothing pending and
/// nothing counted, behind the checkpoint where there is one.
pub proof fn a_recovery_says_what_it_did<B: Backing>(
    a: B,
    b: B,
    w: Wal,
    x: Wal,
    root: ManifestView,
    head: ManifestId,
    rec: Recovery,
    segs: Seq<u64>,
) -> (ends: (Replay, Replay))
    requires
        recovered_these(a, b, w, x, root, head, Ok(rec), segs),
    ensures
        ({
            let (files, dirs) = a.elsewhere();
            let mark = marker(files, w.spec_dir());
            let (start, end) = ends;
            &&& replay(start, log_in(files, w.spec_dir(), segs)) == Outcome::Fine(end)
            &&& start.pending == Map::<u64, Option<crate::page::PageId>>::empty()
            &&& start.records == 0 && start.txns == 0 && start.durable == 0
            &&& mark matches Some(m) ==> start.head == m.0 && start.captured == Some(m.1)
                && a.held_manifests().contains(m.0)
            &&& mark is None ==> start.head == root.id() && start.captured is None
            &&& head == end.head && b.manifests() == end.ms && b.held_manifests() == end.held
            &&& end.txns <= u64::MAX ==> rec.committed_txns == end.txns
            &&& end.records <= u64::MAX ==> rec.records_replayed == end.records
            &&& rec.durable_lsn == end.durable && x.spec_next_lsn() == end.next_lsn
            &&& rec.uncommitted_writes_discarded == end.pending.dom().len()
            &&& !rec.torn_tail <==> forall|i: int|
                0 <= i < segs.len() ==> whole(
                    files[segment_path(w.spec_dir(), #[trigger] segs[i])],
                )
        }),
{
    let (files, dirs) = a.elsewhere();
    let mark = marker(files, w.spec_dir());
    let start = begun(a.manifests(), a.held_manifests(), mark, root, w.spec_next_lsn());
    let recs = log_in(files, w.spec_dir(), segs);
    (start, replay(start, recs)->Fine_0)
}

/// The records of a log are those of its segments, in the order of the segments: a segment that comes
/// last adds its records behind the others.
pub proof fn a_log_is_read_segment_by_segment(
    files: Map<Names, Seq<u8>>,
    dir: Names,
    before: Seq<u64>,
    last: u64,
)
    ensures
        log_in(files, dir, Seq::empty()) == Seq::<Record>::empty(),
        log_in(files, dir, before.push(last)) == log_in(files, dir, before) + records_of(
            files[segment_path(dir, last)],
        ),
{
    assert(before.push(last).drop_last() =~= before);
}

} // verus!
