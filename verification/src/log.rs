//! What a log means: the records in its bytes, and the state that replaying them gives.

use crate::chain::{
    looked_up,
    changes_something, committing_applies_the_changes, derivable, derived, extends,
    lemma_derivable_extends, lemma_derived_extends, lemma_resolved_is_derivable,
    lemma_sound_resolves, resolved, sound, Manifests, Writes,
};
use crate::laws::no_clash;
use crate::manifest::{apply_changes, ManifestId, ManifestView};
use crate::page::PageId;
use crate::pagemap::{entries_of, lemma_entries_exist, map_of};
use crate::record::{
    a_cut_record_is_torn, a_framed_record_reads_back, frame, lemma_payload_len, read_front,
    reading_looks_no_further_than_the_record, Record, RecordKind, Stage,
};
use vstd::prelude::*;

verus! {

// ---------------------------------------------------------------------------------------------
// Bytes and records.
// ---------------------------------------------------------------------------------------------

/// Frames, one after the other.
pub open spec fn frames(recs: Seq<Record>) -> Seq<u8>
    decreases recs.len(),
{
    if recs.len() == 0 {
        Seq::empty()
    } else {
        frame(recs[0]) + frames(recs.skip(1))
    }
}

/// The records that bytes hold, up to the first that is torn.
pub open spec fn records_of(bytes: Seq<u8>) -> Seq<Record>
    decreases bytes.len(),
{
    match read_front(bytes) {
        Some((r, n)) => if 0 < n <= bytes.len() {
            seq![r] + records_of(bytes.skip(n as int))
        } else {
            Seq::empty()
        },
        None => Seq::empty(),
    }
}

/// How many bytes those records take.
pub open spec fn good_len(bytes: Seq<u8>) -> nat
    decreases bytes.len(),
{
    match read_front(bytes) {
        Some((r, n)) => if 0 < n <= bytes.len() {
            n + good_len(bytes.skip(n as int))
        } else {
            0
        },
        None => 0,
    }
}

/// How many bytes the first `n` of those records take.
pub open spec fn len_of_first(bytes: Seq<u8>, n: int) -> nat
    decreases bytes.len(),
{
    if n <= 0 {
        0
    } else {
        match read_front(bytes) {
            Some((_, k)) => if 0 < k <= bytes.len() {
                k + len_of_first(bytes.skip(k as int), n - 1)
            } else {
                0
            },
            None => 0,
        }
    }
}

/// The bytes end where a record ends.
pub open spec fn whole(bytes: Seq<u8>) -> bool {
    good_len(bytes) == bytes.len()
}

pub proof fn lemma_good_len(bytes: Seq<u8>)
    ensures
        good_len(bytes) <= bytes.len(),
    decreases bytes.len(),
{
    if let Some((r, n)) = read_front(bytes) {
        reading_looks_no_further_than_the_record(bytes, Seq::empty());
        lemma_good_len(bytes.skip(n as int));
    }
}

/// The first records take up a part of the bytes, which reads back as these records.
pub proof fn lemma_len_of_first(bytes: Seq<u8>, n: int)
    requires
        0 <= n,
    ensures
        len_of_first(bytes, n) <= bytes.len(),
        n <= records_of(bytes).len() ==> {
            let kept = bytes.take(len_of_first(bytes, n) as int);
            records_of(kept) == records_of(bytes).take(n) && whole(kept)
        },
        n >= records_of(bytes).len() ==> len_of_first(bytes, n) == good_len(bytes),
    decreases bytes.len(),
{
    let all = records_of(bytes);
    match read_front(bytes) {
        None => {
            assert(all =~= Seq::empty());
            assert(bytes.take(0) =~= Seq::empty());
            assert(records_of(Seq::<u8>::empty()) =~= Seq::empty());
            assert(all.take(0) =~= Seq::empty());
        },
        Some((r, k)) => {
            reading_looks_no_further_than_the_record(bytes, Seq::empty());
            let k = k as int;
            let rest = bytes.skip(k);
            assert(all =~= seq![r] + records_of(rest));
            if n == 0 {
                assert(bytes.take(0) =~= Seq::empty());
                assert(records_of(Seq::<u8>::empty()) =~= Seq::empty());
                assert(all.take(0) =~= Seq::empty());
            } else {
                lemma_len_of_first(rest, n - 1);
                let m = len_of_first(rest, n - 1) as int;
                let kept = bytes.take(k + m);
                if n <= all.len() {
                    let part = rest.take(m);
                    assert(kept =~= bytes.take(k) + part);
                    reading_looks_no_further_than_the_record(bytes, part);
                    assert(kept.skip(k) =~= part);
                    assert(records_of(kept) =~= seq![r] + records_of(part));
                    assert(all.take(n) =~= seq![r] + records_of(rest).take(n - 1));
                }
            }
        },
    }
}

/// More records take up more bytes.
pub proof fn lemma_len_of_first_grows(bytes: Seq<u8>, a: int, b: int)
    requires
        a <= b,
    ensures
        len_of_first(bytes, a) <= len_of_first(bytes, b),
    decreases bytes.len(),
{
    if a > 0 {
        if let Some((r, k)) = read_front(bytes) {
            reading_looks_no_further_than_the_record(bytes, Seq::empty());
            lemma_len_of_first_grows(bytes.skip(k as int), a - 1, b - 1);
        }
    }
}

/// One more record takes up the bytes that it was read from.
pub proof fn lemma_len_of_one_more(bytes: Seq<u8>, n: int)
    requires
        0 <= n < records_of(bytes).len(),
    ensures
        ({
            let at = len_of_first(bytes, n) as int;
            &&& at <= bytes.len()
            &&& read_front(bytes.skip(at)) matches Some((r, k)) && r == records_of(bytes)[n]
                && len_of_first(bytes, n + 1) == at + k
        }),
    decreases bytes.len(),
{
    let (r, k) = read_front(bytes).unwrap();
    reading_looks_no_further_than_the_record(bytes, Seq::empty());
    let k = k as int;
    let rest = bytes.skip(k);
    if n == 0 {
        assert(bytes.skip(0) =~= bytes);
        assert(len_of_first(rest, 0) == 0);
        reveal_with_fuel(len_of_first, 2);
    } else {
        lemma_len_of_one_more(rest, n - 1);
        let at = len_of_first(rest, n - 1) as int;
        assert(rest.skip(at) =~= bytes.skip(k + at));
        assert(records_of(rest)[n - 1] == records_of(bytes)[n]);
    }
}

/// One more frame at the end.
pub proof fn lemma_frames_push(recs: Seq<Record>, r: Record)
    ensures
        frames(recs.push(r)) == frames(recs) + frame(r),
    decreases recs.len(),
{
    if recs.len() == 0 {
        assert(recs.push(r).skip(1) =~= recs);
        assert(frames(recs) =~= Seq::empty());
        assert(frames(recs.push(r)) =~= frames(recs) + frame(r));
    } else {
        assert(recs.push(r).skip(1) =~= recs.skip(1).push(r));
        lemma_frames_push(recs.skip(1), r);
        assert(frames(recs.push(r)) =~= frames(recs) + frame(r));
    }
}

/// What follows the whole records of some bytes is read on its own.
pub proof fn reading_goes_on_after_whole_records(bytes: Seq<u8>, tail: Seq<u8>)
    ensures
        good_len(bytes) <= bytes.len(),
        records_of(bytes.take(good_len(bytes) as int) + tail) == records_of(bytes) + records_of(
            tail,
        ),
        good_len(bytes.take(good_len(bytes) as int) + tail) == good_len(bytes) + good_len(tail),
    decreases bytes.len(),
{
    lemma_good_len(bytes);
    match read_front(bytes) {
        None => {
            assert(bytes.take(0) + tail =~= tail);
            assert(records_of(bytes) + records_of(tail) =~= records_of(tail));
        },
        Some((r, n)) => {
            let n = n as int;
            let rest = bytes.skip(n);
            reading_looks_no_further_than_the_record(bytes, Seq::empty());
            reading_goes_on_after_whole_records(rest, tail);
            let g = good_len(rest) as int;
            let b = bytes.take(n + g) + tail;
            let cont = rest.take(g) + tail;
            assert(b =~= bytes.take(n) + cont);
            reading_looks_no_further_than_the_record(bytes, cont);
            assert(b.skip(n) =~= cont);
            assert(records_of(b) =~= seq![r] + records_of(cont));
            assert(seq![r] + (records_of(rest) + records_of(tail)) =~= (seq![r] + records_of(rest))
                + records_of(tail));
        },
    }
}

/// Whatever is appended to whole records is read after them.
pub proof fn lemma_append_to_whole(bytes: Seq<u8>, tail: Seq<u8>)
    requires
        whole(bytes),
    ensures
        records_of(bytes + tail) == records_of(bytes) + records_of(tail),
        good_len(bytes + tail) == bytes.len() + good_len(tail),
{
    reading_goes_on_after_whole_records(bytes, tail);
    assert(bytes.take(bytes.len() as int) =~= bytes);
}

/// Framed records are read back, all of them and nothing else.
pub proof fn framed_records_read_back(recs: Seq<Record>)
    ensures
        records_of(frames(recs)) == recs,
        whole(frames(recs)),
    decreases recs.len(),
{
    if recs.len() > 0 {
        let rest = recs.skip(1);
        framed_records_read_back(rest);
        a_framed_record_reads_back(recs[0], frames(rest));
        assert(frames(recs).skip(frame(recs[0]).len() as int) =~= frames(rest));
        assert(seq![recs[0]] + rest =~= recs);
        lemma_payload_len(recs[0]);
    } else {
        assert(frames(recs) =~= Seq::empty());
    }
}

/// Framed records that were cut off anywhere read back as fewer of them: those before the cut.
pub proof fn a_cut_loses_the_last_record(recs: Seq<Record>, cut: int) -> (n: int)
    requires
        0 <= cut < frames(recs).len(),
    ensures
        0 <= n < recs.len(),
        records_of(frames(recs).take(cut)) == recs.take(n),
    decreases recs.len(),
{
    let f = frame(recs[0]);
    let rest = recs.skip(1);
    let bytes = frames(recs).take(cut);
    if cut < f.len() {
        a_cut_record_is_torn(recs[0], cut);
        assert(bytes =~= f.take(cut));
        assert(recs.take(0) =~= Seq::empty());
        0
    } else {
        let tail = frames(rest).take(cut - f.len());
        assert(bytes =~= f + tail);
        a_framed_record_reads_back(recs[0], tail);
        lemma_payload_len(recs[0]);
        let n = a_cut_loses_the_last_record(rest, cut - f.len());
        assert(bytes.skip(f.len() as int) =~= tail);
        assert(seq![recs[0]] + rest.take(n) =~= recs.take(n + 1));
        n + 1
    }
}

// ---------------------------------------------------------------------------------------------
// Transactions and records.
// ---------------------------------------------------------------------------------------------

/// The records of a committed transaction: its writes in order of page, and then the commit.
pub open spec fn txn_records(
    lsn: u64,
    list: Seq<(u64, Option<PageId>)>,
    manifest: ManifestId,
    created_at_ms: u64,
) -> Seq<Record> {
    Seq::new(
        list.len() + 1,
        |i: int|
            if i < list.len() {
                Record {
                    lsn: (lsn + i) as u64,
                    kind: RecordKind::Write { page_no: list[i].0, page: list[i].1 },
                }
            } else {
                Record {
                    lsn: (lsn + i) as u64,
                    kind: RecordKind::Commit { manifest, created_at_ms },
                }
            },
    )
}

// ---------------------------------------------------------------------------------------------
// Replay.
// ---------------------------------------------------------------------------------------------

/// A replay in progress.
#[verifier::ext_equal]
pub struct Replay {
    /// The manifests that can be read.
    pub ms: Manifests,
    /// The manifests that are there.
    pub held: Set<ManifestId>,
    /// The manifest that the next commit is on top of.
    pub head: ManifestId,
    /// The writes since the last commit.
    pub pending: Writes,
    /// The sequence number after the greatest that was seen.
    pub next_lsn: u64,
    /// Records up to this number are in the checkpoint already.
    pub captured: Option<u64>,
    /// How many records were replayed.
    pub records: nat,
    /// How many transactions were installed.
    pub txns: nat,
    /// The number of the last commit or checkpoint.
    pub durable: u64,
}

/// How a replay ends.
pub enum Outcome {
    /// Every record was replayed.
    Fine(Replay),
    /// A commit record names another manifest than the one that its writes give.
    Diverged { lsn: u64, expected: ManifestId, actual: ManifestId },
    /// A manifest that is needed cannot be read. Where it is one that the log names, it is missing.
    Stuck { stage: Stage, missing: Option<ManifestId> },
}

/// The manifests after one more was stored: what is there already under its id stays.
pub open spec fn stored(ms: Manifests, held: Set<ManifestId>, m: ManifestView) -> Manifests {
    if held.contains(m.id()) || ms.contains_key(m.id()) {
        ms
    } else {
        ms.insert(m.id(), m)
    }
}

/// Nothing that is there stands in the way of storing the manifest.
pub open spec fn installable(ms: Manifests, held: Set<ManifestId>, m: ManifestView) -> bool {
    no_clash(ms, m) && (held.contains(m.id()) ==> ms.contains_key(m.id()))
}

/// The next number, or the last one there is.
pub open spec fn after(lsn: u64) -> u64 {
    if lsn < u64::MAX {
        (lsn + 1) as u64
    } else {
        u64::MAX
    }
}

/// One record replayed.
pub open spec fn replay_one(st: Replay, r: Record) -> Outcome {
    let next_lsn = if st.next_lsn >= after(r.lsn) {
        st.next_lsn
    } else {
        after(r.lsn)
    };
    if st.captured matches Some(c) && r.lsn <= c {
        Outcome::Fine(Replay { next_lsn, ..st })
    } else {
        let seen = Replay { next_lsn, records: st.records + 1, ..st };
        match r.kind {
            RecordKind::Write { page_no, page } => Outcome::Fine(
                Replay { pending: st.pending.insert(page_no, page), ..seen },
            ),
            RecordKind::Commit { manifest, created_at_ms } => {
                let m = derived(st.ms, st.head, st.pending, created_at_ms);
                if !derivable(st.ms, st.head, st.pending) {
                    Outcome::Stuck { stage: Stage::Commit { lsn: r.lsn }, missing: None }
                } else if !changes_something(st.ms, st.head, st.pending) {
                    Outcome::Fine(Replay { pending: Map::empty(), durable: r.lsn, ..seen })
                } else if m.id() != manifest {
                    Outcome::Diverged { lsn: r.lsn, expected: manifest, actual: m.id() }
                } else {
                    Outcome::Fine(
                        Replay {
                            ms: stored(st.ms, st.held, m),
                            held: st.held.insert(manifest),
                            head: manifest,
                            pending: Map::empty(),
                            txns: st.txns + 1,
                            durable: r.lsn,
                            ..seen
                        },
                    )
                }
            },
            RecordKind::Checkpoint { manifest } => if st.held.contains(manifest) {
                Outcome::Fine(
                    Replay { head: manifest, pending: Map::empty(), durable: r.lsn, ..seen },
                )
            } else {
                Outcome::Stuck {
                    stage: Stage::Checkpoint { lsn: r.lsn },
                    missing: Some(manifest),
                }
            },
        }
    }
}

/// Records replayed one after the other, up to the first that fails.
pub open spec fn replay(st: Replay, recs: Seq<Record>) -> Outcome
    decreases recs.len(),
{
    if recs.len() == 0 {
        Outcome::Fine(st)
    } else {
        match replay_one(st, recs[0]) {
            Outcome::Fine(next) => replay(next, recs.skip(1)),
            other => other,
        }
    }
}

/// Replaying two lists in turn is replaying both as one.
pub proof fn lemma_replay_cat(st: Replay, a: Seq<Record>, b: Seq<Record>)
    ensures
        replay(st, a + b) == (match replay(st, a) {
            Outcome::Fine(mid) => replay(mid, b),
            other => other,
        }),
    decreases a.len(),
{
    if a.len() == 0 {
        assert(a + b =~= b);
    } else {
        assert((a + b)[0] == a[0]);
        assert((a + b).skip(1) =~= a.skip(1) + b);
        match replay_one(st, a[0]) {
            Outcome::Fine(next) => {
                lemma_replay_cat(next, a.skip(1), b);
            },
            _ => {},
        }
    }
}

/// Every manifest that is there can be read.
pub open spec fn unharmed(st: Replay) -> bool {
    st.held == st.ms.dom()
}

/// A replay harms no manifest.
pub proof fn lemma_replay_unharmed(st: Replay, recs: Seq<Record>)
    requires
        unharmed(st),
        replay(st, recs) is Fine,
    ensures
        unharmed(replay(st, recs)->Fine_0),
    decreases recs.len(),
{
    if recs.len() > 0 {
        let next = replay_one(st, recs[0])->Fine_0;
        assert(next.held =~= next.ms.dom());
        lemma_replay_unharmed(next, recs.skip(1));
    }
}

/// The same replay on other manifests.
pub open spec fn onto(st: Replay, ms: Manifests) -> Replay {
    Replay { ms, held: ms.dom(), ..st }
}

/// A replay never forgets a manifest.
pub proof fn lemma_replay_extends(st: Replay, recs: Seq<Record>)
    requires
        replay(st, recs) is Fine,
    ensures
        extends(st.ms, replay(st, recs)->Fine_0.ms),
    decreases recs.len(),
{
    if recs.len() > 0 {
        let next = replay_one(st, recs[0])->Fine_0;
        assert(extends(st.ms, next.ms));
        lemma_replay_extends(next, recs.skip(1));
    }
}

/// What a replay gives does not depend on manifests that are stored besides: a store that already
/// has some of what the replay will build, or anything else, ends up at the same head.
pub proof fn other_manifests_do_not_matter(st: Replay, more: Manifests, recs: Seq<Record>)
    requires
        unharmed(st),
        replay(st, recs) is Fine,
        extends(st.ms, more),
        agree(more, replay(st, recs)->Fine_0.ms),
    ensures
        ({
            let end = replay(st, recs)->Fine_0;
            replay(onto(st, more), recs) matches Outcome::Fine(other) && other == onto(
                end,
                more.union_prefer_right(end.ms),
            )
        }),
    decreases recs.len(),
{
    let end = replay(st, recs)->Fine_0;
    let rich = onto(st, more);
    if recs.len() == 0 {
        assert(more.union_prefer_right(end.ms) =~= more);
    } else {
        let next = replay_one(st, recs[0])->Fine_0;
        let tail = recs.skip(1);
        lemma_replay_extends(next, tail);
        assert(next.held =~= next.ms.dom());
        if let RecordKind::Commit { manifest, created_at_ms } = recs[0].kind {
            if derivable(st.ms, st.head, st.pending) {
                lemma_derivable_extends(st.ms, more, st.head, st.pending, created_at_ms);
            }
        }
        assert(replay_one(rich, recs[0]) is Fine);
        let most = replay_one(rich, recs[0])->Fine_0.ms;
        assert(replay_one(rich, recs[0])->Fine_0.held =~= most.dom());
        assert(replay_one(rich, recs[0])->Fine_0 == onto(next, most));
        assert(extends(next.ms, most));
        assert(agree(most, end.ms));
        other_manifests_do_not_matter(next, most, tail);
        assert(most.union_prefer_right(end.ms) =~= more.union_prefer_right(end.ms));
    }
}

/// The state after the first `n` writes of a list: nothing but the pending writes has changed.
pub open spec fn written(
    st: Replay,
    lsn: u64,
    list: Seq<(u64, Option<PageId>)>,
    n: int,
) -> Replay {
    Replay {
        pending: st.pending.union_prefer_right(map_of(list.take(n))),
        next_lsn: if n == 0 || st.next_lsn >= lsn + n {
            st.next_lsn
        } else {
            (lsn + n) as u64
        },
        records: st.records + n as nat,
        ..st
    }
}

proof fn lemma_writes_are_pending(
    st: Replay,
    lsn: u64,
    list: Seq<(u64, Option<PageId>)>,
    manifest: ManifestId,
    created_at_ms: u64,
    n: int,
)
    requires
        0 <= n <= list.len(),
        lsn + list.len() < u64::MAX,
        st.captured matches Some(c) ==> c < lsn,
    ensures
        replay(st, txn_records(lsn, list, manifest, created_at_ms).take(n)) == Outcome::Fine(
            written(st, lsn, list, n),
        ),
    decreases n,
{
    let recs = txn_records(lsn, list, manifest, created_at_ms);
    if n == 0 {
        assert(recs.take(0) =~= Seq::empty());
        assert(list.take(0) =~= Seq::empty());
        assert(written(st, lsn, list, 0) =~= st);
    } else {
        lemma_writes_are_pending(st, lsn, list, manifest, created_at_ms, n - 1);
        assert(recs.take(n) =~= recs.take(n - 1) + seq![recs[n - 1]]);
        lemma_replay_cat(st, recs.take(n - 1), seq![recs[n - 1]]);
        let mid = written(st, lsn, list, n - 1);
        assert(seq![recs[n - 1]].skip(1) =~= Seq::empty());
        assert(list.take(n).drop_last() =~= list.take(n - 1));
        reveal_with_fuel(replay, 2);
        let after_one = written(st, lsn, list, n);
        assert(mid.pending.insert(list[n - 1].0, list[n - 1].1) =~= after_one.pending);
        assert(replay_one(mid, recs[n - 1]) == Outcome::Fine(after_one)) by {
            let got = replay_one(mid, recs[n - 1])->Fine_0;
            assert(got =~= after_one);
        }
    }
}

/// A transaction whose commit record is missing leaves the head and the manifests alone: it did
/// not happen.
pub proof fn an_unfinished_transaction_did_not_happen(
    st: Replay,
    lsn: u64,
    list: Seq<(u64, Option<PageId>)>,
    manifest: ManifestId,
    created_at_ms: u64,
    n: int,
)
    requires
        0 <= n <= list.len(),
        lsn + list.len() < u64::MAX,
        st.captured matches Some(c) ==> c < lsn,
    ensures
        replay(st, txn_records(lsn, list, manifest, created_at_ms).take(n)) matches Outcome::Fine(
            end,
        ) && end.ms == st.ms && end.head == st.head && end.txns == st.txns && end.durable
            == st.durable && end.captured == st.captured,
{
    lemma_writes_are_pending(st, lsn, list, manifest, created_at_ms, n);
}

/// A transaction that was logged in full is replayed to the manifest that it was committed as.
pub proof fn a_logged_transaction_is_replayed(
    st: Replay,
    lsn: u64,
    writes: Writes,
    created_at_ms: u64,
)
    requires
        st.pending.is_empty(),
        writes.dom().finite(),
        lsn + writes.dom().len() < u64::MAX,
        st.captured matches Some(c) ==> c < lsn,
        derivable(st.ms, st.head, writes),
        changes_something(st.ms, st.head, writes),
        installable(st.ms, st.held, derived(st.ms, st.head, writes, created_at_ms)),
    ensures
        ({
            let m = derived(st.ms, st.head, writes, created_at_ms);
            replay(
                st,
                txn_records(lsn, entries_of(writes), m.id(), created_at_ms),
            ) matches Outcome::Fine(end) && end.ms == st.ms.insert(m.id(), m) && end.held
                == st.held.insert(m.id()) && end.head == m.id()
                && end.pending == Map::<u64, Option<PageId>>::empty() && end.txns == st.txns + 1
                && end.captured == st.captured && end.durable == lsn + writes.dom().len()
        }),
{
    let m = derived(st.ms, st.head, writes, created_at_ms);
    let list = entries_of(writes);
    lemma_entries_exist(writes);
    let recs = txn_records(lsn, list, m.id(), created_at_ms);
    let n = list.len() as int;
    lemma_writes_are_pending(st, lsn, list, m.id(), created_at_ms, n);
    assert(recs =~= recs.take(n) + seq![recs[n]]);
    lemma_replay_cat(st, recs.take(n), seq![recs[n]]);
    assert(list.take(n) =~= list);
    let mid = written(st, lsn, list, n);
    assert(mid.pending =~= writes);
    assert(seq![recs[n]].skip(1) =~= Seq::empty());
    reveal_with_fuel(replay, 2);
}

// ---------------------------------------------------------------------------------------------
// Unfinished transactions.
// ---------------------------------------------------------------------------------------------

/// The records end in the middle of a transaction: there are writes since the last commit or
/// checkpoint. Records up to the captured number do not count.
pub open spec fn unfinished(captured: Option<u64>, recs: Seq<Record>) -> bool
    decreases recs.len(),
{
    recs.len() > 0 && if captured matches Some(c) && recs.last().lsn <= c {
        unfinished(captured, recs.drop_last())
    } else {
        recs.last().kind is Write
    }
}

/// How many records there are up to where no transaction is unfinished.
pub open spec fn settled(captured: Option<u64>, recs: Seq<Record>) -> nat
    decreases recs.len(),
{
    if unfinished(captured, recs) {
        settled(captured, recs.drop_last())
    } else {
        recs.len()
    }
}

pub proof fn lemma_settled(captured: Option<u64>, recs: Seq<Record>)
    ensures
        settled(captured, recs) <= recs.len(),
        !unfinished(captured, recs.take(settled(captured, recs) as int)),
    decreases recs.len(),
{
    if unfinished(captured, recs) {
        let init = recs.drop_last();
        lemma_settled(captured, init);
        let n = settled(captured, init) as int;
        assert(recs.take(n) =~= init.take(n));
    } else {
        assert(recs.take(recs.len() as int) =~= recs);
    }
}

/// Pending writes are what an unfinished transaction has.
pub proof fn lemma_pending_is_unfinished(st: Replay, recs: Seq<Record>)
    requires
        st.pending.is_empty(),
        replay(st, recs) is Fine,
    ensures
        replay(st, recs)->Fine_0.captured == st.captured,
        replay(st, recs)->Fine_0.pending.is_empty() <==> !unfinished(st.captured, recs),
    decreases recs.len(),
{
    if recs.len() > 0 {
        let init = recs.drop_last();
        let r = recs.last();
        assert(recs =~= init + seq![r]);
        lemma_replay_cat(st, init, seq![r]);
        assert(seq![r].skip(1) =~= Seq::empty());
        reveal_with_fuel(replay, 2);
        lemma_pending_is_unfinished(st, init);
        let mid = replay(st, init)->Fine_0;
        if let RecordKind::Write { page_no, page } = r.kind {
            let more = mid.pending.insert(page_no, page);
            assert(more.contains_key(page_no));
            assert(!more.is_empty());
        }
    }
}

/// Without its unfinished transaction a log leads to the same head and the same manifests, and
/// leaves nothing pending.
pub proof fn an_unfinished_transaction_can_be_dropped(st: Replay, recs: Seq<Record>)
    requires
        st.pending.is_empty(),
        replay(st, recs) is Fine,
    ensures
        ({
            let end = replay(st, recs)->Fine_0;
            replay(st, recs.take(settled(st.captured, recs) as int)) matches Outcome::Fine(mid)
                && mid.ms == end.ms && mid.held == end.held && mid.head == end.head && mid.captured
                == end.captured && mid.txns == end.txns && mid.durable == end.durable
                && mid.pending.is_empty() && mid.next_lsn <= end.next_lsn
        }),
    decreases recs.len(),
{
    lemma_pending_is_unfinished(st, recs);
    if unfinished(st.captured, recs) {
        let init = recs.drop_last();
        let r = recs.last();
        assert(recs =~= init + seq![r]);
        lemma_replay_cat(st, init, seq![r]);
        assert(seq![r].skip(1) =~= Seq::empty());
        reveal_with_fuel(replay, 2);
        lemma_pending_is_unfinished(st, init);
        lemma_settled(st.captured, init);
        an_unfinished_transaction_can_be_dropped(st, init);
        let n = settled(st.captured, init) as int;
        assert(recs.take(n) =~= init.take(n));
    } else {
        assert(recs.take(recs.len() as int) =~= recs);
    }
}

/// Dropping some of the unfinished transaction drops nothing else.
pub proof fn lemma_settled_within(captured: Option<u64>, recs: Seq<Record>, n: int)
    requires
        settled(captured, recs) <= n <= recs.len(),
    ensures
        settled(captured, recs.take(n)) == settled(captured, recs),
    decreases recs.len(),
{
    if n == recs.len() {
        assert(recs.take(n) =~= recs);
    } else {
        let init = recs.drop_last();
        lemma_settled_within(captured, init, n);
        assert(init.take(n) =~= recs.take(n));
    }
}

/// The number that a replay starts with shows in nothing but the number that it ends with.
pub proof fn the_first_number_does_not_matter(st: Replay, n: u64, recs: Seq<Record>)
    ensures
        ({
            let other = replay(Replay { next_lsn: n, ..st }, recs);
            match replay(st, recs) {
                Outcome::Fine(end) => other matches Outcome::Fine(o) && o == (Replay {
                    next_lsn: o.next_lsn,
                    ..end
                }),
                o => other == o,
            }
        }),
    decreases recs.len(),
{
    if recs.len() > 0 {
        if let Outcome::Fine(next) = replay_one(st, recs[0]) {
            let m = replay_one(Replay { next_lsn: n, ..st }, recs[0])->Fine_0.next_lsn;
            the_first_number_does_not_matter(next, m, recs.skip(1));
        }
    }
}

// ---------------------------------------------------------------------------------------------
// Histories.
// ---------------------------------------------------------------------------------------------

/// A transaction: its writes and its time.
pub type Deed = (Writes, u64);

/// The manifests and the head after transactions were committed in turn.
pub open spec fn play(ms: Manifests, head: ManifestId, deeds: Seq<Deed>) -> (Manifests, ManifestId)
    decreases deeds.len(),
{
    if deeds.len() == 0 {
        (ms, head)
    } else {
        let (ps, h) = play(ms, head, deeds.drop_last());
        let (w, t) = deeds.last();
        if changes_something(ps, h, w) {
            let m = derived(ps, h, w, t);
            (ps.insert(m.id(), m), m.id())
        } else {
            (ps, h)
        }
    }
}

/// The log of those transactions: one that changes nothing is not logged.
pub open spec fn log_of(ms: Manifests, head: ManifestId, deeds: Seq<Deed>, lsns: Seq<u64>) -> Seq<
    Record,
>
    decreases deeds.len(),
{
    if deeds.len() == 0 {
        Seq::empty()
    } else {
        let before = log_of(ms, head, deeds.drop_last(), lsns);
        let (ps, h) = play(ms, head, deeds.drop_last());
        let (w, t) = deeds.last();
        if changes_something(ps, h, w) {
            before + txn_records(
                lsns[deeds.len() - 1],
                entries_of(w),
                derived(ps, h, w, t).id(),
                t,
            )
        } else {
            before
        }
    }
}

/// The transactions are such as a machine can hold, and no two manifests clash on the way.
pub open spec fn playable(ms: Manifests, head: ManifestId, deeds: Seq<Deed>, lsns: Seq<u64>) -> bool
    decreases deeds.len(),
{
    if deeds.len() == 0 {
        ms.contains_key(head) && sound(ms, ms[head])
    } else {
        let (ps, h) = play(ms, head, deeds.drop_last());
        let (w, t) = deeds.last();
        &&& playable(ms, head, deeds.drop_last(), lsns)
        &&& w.dom().finite()
        &&& lsns[deeds.len() - 1] + w.dom().len() < u64::MAX
        &&& resolved(ps, h) matches Some(pages) && pages.dom().len() + w.dom().len() <= i64::MAX
        &&& no_clash(ps, derived(ps, h, w, t))
    }
}

/// What two sets of manifests both have, they have alike.
pub open spec fn agree(a: Manifests, b: Manifests) -> bool {
    forall|id: ManifestId| #[trigger] a.contains_key(id) && b.contains_key(id) ==> a[id] == b[id]
}

/// The pages of the database after the transactions, as a fold over their writes.
pub open spec fn pages_after(pages: Map<u64, PageId>, deeds: Seq<Deed>) -> Map<u64, PageId>
    decreases deeds.len(),
{
    if deeds.len() == 0 {
        pages
    } else {
        apply_changes(pages_after(pages, deeds.drop_last()), deeds.last().0)
    }
}

/// Committing transactions in turn applies them in turn, and keeps every manifest sound.
pub proof fn playing_applies_every_transaction(
    ms: Manifests,
    head: ManifestId,
    deeds: Seq<Deed>,
    lsns: Seq<u64>,
)
    requires
        playable(ms, head, deeds, lsns),
    ensures
        ({
            let (ps, h) = play(ms, head, deeds);
            &&& extends(ms, ps)
            &&& ps.contains_key(h)
            &&& sound(ps, ps[h])
            &&& resolved(ps, h) == Some(pages_after(resolved(ms, head).unwrap(), deeds))
        }),
    decreases deeds.len(),
{
    if deeds.len() == 0 {
        lemma_sound_resolves(ms, head);
    } else {
        playing_applies_every_transaction(ms, head, deeds.drop_last(), lsns);
        let (ps, h) = play(ms, head, deeds.drop_last());
        let (w, t) = deeds.last();
        lemma_sound_resolves(ps, h);
        if changes_something(ps, h, w) {
            committing_applies_the_changes(ps, h, w, t);
        } else {
            crate::chain::a_transaction_without_effect_leaves_the_pages(ps, h, w);
        }
    }
}

/// The start of a replay from a fixed base.
pub open spec fn start_at(
    ms: Manifests,
    held: Set<ManifestId>,
    head: ManifestId,
    next_lsn: u64,
    captured: Option<u64>,
) -> Replay {
    Replay {
        ms,
        held,
        head,
        pending: Map::empty(),
        next_lsn,
        captured,
        records: 0,
        txns: 0,
        durable: 0,
    }
}

/// The start of a replay from a fixed base, where every manifest can be read.
pub open spec fn start_from(
    ms: Manifests,
    head: ManifestId,
    next_lsn: u64,
    captured: Option<u64>,
) -> Replay {
    start_at(ms, ms.dom(), head, next_lsn, captured)
}

/// Every record of the log comes after the checkpoint.
pub open spec fn past(captured: Option<u64>, lsns: Seq<u64>) -> bool {
    captured matches Some(c) ==> forall|i: int| 0 <= i < lsns.len() ==> c < #[trigger] lsns[i]
}

/// Replaying the log of some transactions gives the head that committing them gave, whatever other
/// manifests the store has by then: no commit is lost, and there is nothing in between.
pub proof fn replay_gives_the_committed_head(
    ms: Manifests,
    head: ManifestId,
    deeds: Seq<Deed>,
    lsns: Seq<u64>,
    now: Manifests,
    next_lsn: u64,
    captured: Option<u64>,
)
    requires
        playable(ms, head, deeds, lsns),
        lsns.len() >= deeds.len(),
        past(captured, lsns),
        extends(ms, now),
        agree(now, play(ms, head, deeds).0),
    ensures
        replay(start_from(now, head, next_lsn, captured), log_of(ms, head, deeds, lsns)) matches Outcome::Fine(
            end,
        ) && end.head == play(ms, head, deeds).1 && end.pending.is_empty() && end.captured
            == captured && extends(play(ms, head, deeds).0, end.ms) && extends(now, end.ms)
            && agree_within(end.ms, now, play(ms, head, deeds).0),
    decreases deeds.len(),
{
    let st = start_from(now, head, next_lsn, captured);
    if deeds.len() > 0 {
        let init = deeds.drop_last();
        let (ps, h) = play(ms, head, init);
        let (qs, g) = play(ms, head, deeds);
        let (w, t) = deeds.last();
        assert(extends(ps, qs));
        assert(agree(now, ps)) by {
            assert forall|id: ManifestId| #[trigger]
                now.contains_key(id) && ps.contains_key(id) implies now[id] == ps[id] by {
                assert(qs[id] == ps[id]);
            }
        }
        replay_gives_the_committed_head(ms, head, init, lsns, now, next_lsn, captured);
        playing_applies_every_transaction(ms, head, init, lsns);
        let log0 = log_of(ms, head, init, lsns);
        let mid = replay(st, log0)->Fine_0;
        lemma_sound_resolves(ps, h);
        lemma_derived_extends(ps, mid.ms, h, w, t);
        if changes_something(ps, h, w) {
            let m = derived(ps, h, w, t);
            let recs = txn_records(lsns[deeds.len() - 1], entries_of(w), m.id(), t);
            crate::chain::a_snapshot_never_changes(ps, mid.ms, h);
            lemma_resolved_is_derivable(mid.ms, h, w);
            assert(no_clash(mid.ms, m)) by {
                if mid.ms.contains_key(m.id()) {
                    assert(qs.contains_key(m.id()));
                }
            }
            lemma_replay_unharmed(st, log0);
            a_logged_transaction_is_replayed(mid, lsns[deeds.len() - 1], w, t);
            lemma_replay_cat(st, log0, recs);
            let end = replay(st, log0 + recs)->Fine_0;
            assert(extends(qs, end.ms));
            assert(extends(now, end.ms)) by {
                assert forall|id: ManifestId| #[trigger] now.contains_key(id) implies end.ms.contains_key(id)
                    && end.ms[id] == now[id] by {
                    if id == m.id() {
                        assert(qs.contains_key(id));
                    }
                }
            }
        }
    }
}

/// `c` has nothing but what `a` or `b` have.
pub open spec fn agree_within(c: Manifests, a: Manifests, b: Manifests) -> bool {
    forall|id: ManifestId| #[trigger]
        c.contains_key(id) ==> (a.contains_key(id) && a[id] == c[id]) || (b.contains_key(id)
            && b[id] == c[id])
}

/// Replaying the same log again, on the manifests that the first replay left, gives the same head
/// and adds nothing: recovery is idempotent.
pub proof fn replaying_again_changes_nothing(
    ms: Manifests,
    head: ManifestId,
    deeds: Seq<Deed>,
    lsns: Seq<u64>,
    now: Manifests,
    next_lsn: u64,
    again_lsn: u64,
    captured: Option<u64>,
)
    requires
        playable(ms, head, deeds, lsns),
        lsns.len() >= deeds.len(),
        past(captured, lsns),
        extends(ms, now),
        agree(now, play(ms, head, deeds).0),
    ensures
        ({
            let log = log_of(ms, head, deeds, lsns);
            let first = replay(start_from(now, head, next_lsn, captured), log)->Fine_0;
            replay(start_from(first.ms, head, again_lsn, captured), log) matches Outcome::Fine(
                second,
            ) && second.head == first.head && second.ms == first.ms
        }),
{
    replay_gives_the_committed_head(ms, head, deeds, lsns, now, next_lsn, captured);
    let log = log_of(ms, head, deeds, lsns);
    let qs = play(ms, head, deeds).0;
    let first = replay(start_from(now, head, next_lsn, captured), log)->Fine_0;
    assert(agree(first.ms, qs));
    assert(extends(ms, first.ms)) by {
        playing_applies_every_transaction(ms, head, deeds, lsns);
    }
    replay_gives_the_committed_head(ms, head, deeds, lsns, first.ms, again_lsn, captured);
    let second = replay(start_from(first.ms, head, again_lsn, captured), log)->Fine_0;
    assert(second.ms =~= first.ms);
}

/// A crash while the log of one more transaction was being appended, at any byte: what is replayed
/// is every transaction before it and, only where every byte was written, that one too.
pub proof fn a_crash_at_any_byte_leaves_whole_transactions(
    ms: Manifests,
    head: ManifestId,
    deeds: Seq<Deed>,
    lsns: Seq<u64>,
    bytes: Seq<u8>,
    cut: int,
    now: Manifests,
    next_lsn: u64,
    captured: Option<u64>,
)
    requires
        deeds.len() > 0,
        playable(ms, head, deeds, lsns),
        lsns.len() >= deeds.len(),
        past(captured, lsns),
        extends(ms, now),
        agree(now, play(ms, head, deeds).0),
        whole(bytes),
        records_of(bytes) == log_of(ms, head, deeds.drop_last(), lsns),
        ({
            let (ps, h) = play(ms, head, deeds.drop_last());
            changes_something(ps, h, deeds.last().0)
        }),
        0 <= cut <= last_frames(ms, head, deeds, lsns).len(),
    ensures
        ({
            let got = records_of(bytes + last_frames(ms, head, deeds, lsns).take(cut));
            replay(start_from(now, head, next_lsn, captured), got) matches Outcome::Fine(end)
                && end.head == (if cut == last_frames(ms, head, deeds, lsns).len() {
                play(ms, head, deeds).1
            } else {
                play(ms, head, deeds.drop_last()).1
            })
        }),
{
    let init = deeds.drop_last();
    let (ps, h) = play(ms, head, init);
    let (w, t) = deeds.last();
    let m = derived(ps, h, w, t);
    let recs = txn_records(lsns[deeds.len() - 1], entries_of(w), m.id(), t);
    let f = frames(recs);
    let st = start_from(now, head, next_lsn, captured);
    let log0 = log_of(ms, head, init, lsns);
    lemma_append_to_whole(bytes, f.take(cut));
    lemma_entries_exist(w);
    if cut == f.len() {
        assert(f.take(cut) =~= f);
        framed_records_read_back(recs);
        replay_gives_the_committed_head(ms, head, deeds, lsns, now, next_lsn, captured);
    } else {
        let n = a_cut_loses_the_last_record(recs, cut);
        let qs = play(ms, head, deeds).0;
        assert(agree(now, ps)) by {
            assert forall|id: ManifestId| #[trigger]
                now.contains_key(id) && ps.contains_key(id) implies now[id] == ps[id] by {
                assert(qs[id] == ps[id]);
            }
        }
        replay_gives_the_committed_head(ms, head, init, lsns, now, next_lsn, captured);
        let mid = replay(st, log0)->Fine_0;
        an_unfinished_transaction_did_not_happen(
            mid,
            lsns[deeds.len() - 1],
            entries_of(w),
            m.id(),
            t,
            n,
        );
        lemma_replay_cat(st, log0, recs.take(n));
    }
}

/// The bytes that logging the last transaction appends.
pub open spec fn last_frames(
    ms: Manifests,
    head: ManifestId,
    deeds: Seq<Deed>,
    lsns: Seq<u64>,
) -> Seq<u8> {
    let (ps, h) = play(ms, head, deeds.drop_last());
    let (w, t) = deeds.last();
    frames(
        txn_records(lsns[deeds.len() - 1], entries_of(w), derived(ps, h, w, t).id(), t),
    )
}

/// Starting from a checkpoint gives the head that replaying everything gives: the log before it
/// is skipped, and the log after it is replayed on the head that the checkpoint remembers.
pub proof fn a_checkpoint_does_not_change_the_answer(
    ms: Manifests,
    head: ManifestId,
    before: Seq<Deed>,
    later: Seq<Deed>,
    lsns_before: Seq<u64>,
    lsns_later: Seq<u64>,
    checkpoint_lsn: u64,
    old_log: Seq<Record>,
    now: Manifests,
    next_lsn: u64,
)
    requires
        playable(ms, head, before, lsns_before),
        ({
            let (ps, h) = play(ms, head, before);
            &&& playable(ps, h, later, lsns_later)
            &&& extends(ps, now)
            &&& agree(now, play(ps, h, later).0)
        }),
        lsns_later.len() >= later.len(),
        forall|i: int| 0 <= i < lsns_later.len() ==> checkpoint_lsn < #[trigger] lsns_later[i],
        forall|i: int| 0 <= i < old_log.len() ==> (#[trigger] old_log[i]).lsn <= checkpoint_lsn,
    ensures
        ({
            let (ps, h) = play(ms, head, before);
            replay(
                start_from(now, h, next_lsn, Some(checkpoint_lsn)),
                old_log + log_of(ps, h, later, lsns_later),
            ) matches Outcome::Fine(end) && end.head == play(ps, h, later).1
        }),
{
    let (ps, h) = play(ms, head, before);
    let st = start_from(now, h, next_lsn, Some(checkpoint_lsn));
    lemma_captured_is_skipped(st, old_log, checkpoint_lsn);
    lemma_replay_cat(st, old_log, log_of(ps, h, later, lsns_later));
    let mid = replay(st, old_log)->Fine_0;
    assert(mid =~= start_from(now, h, mid.next_lsn, Some(checkpoint_lsn)));
    replay_gives_the_committed_head(
        ps,
        h,
        later,
        lsns_later,
        now,
        mid.next_lsn,
        Some(checkpoint_lsn),
    );
}

/// Records that the checkpoint has already are passed over.
pub proof fn lemma_captured_is_skipped(st: Replay, recs: Seq<Record>, lsn: u64)
    requires
        st.captured == Some(lsn),
        forall|i: int| 0 <= i < recs.len() ==> (#[trigger] recs[i]).lsn <= lsn,
    ensures
        replay(st, recs) matches Outcome::Fine(end) && end == (Replay {
            next_lsn: end.next_lsn,
            ..st
        }),
    decreases recs.len(),
{
    if recs.len() > 0 {
        let next = replay_one(st, recs[0])->Fine_0;
        assert forall|i: int| 0 <= i < recs.skip(1).len() implies (#[trigger] recs.skip(1)[i]).lsn
            <= lsn by {
            assert(recs.skip(1)[i] == recs[i + 1]);
        }
        lemma_captured_is_skipped(next, recs.skip(1), lsn);
    }
}

// ---------------------------------------------------------------------------------------------
// What a record is for.
// ---------------------------------------------------------------------------------------------

/// A transaction is logged as its writes, one record each in the order of the list, and then one record
/// that commits them. The numbers go up by one.
pub proof fn a_transaction_is_logged_as_its_writes_and_a_commit(
    lsn: u64,
    list: Seq<(u64, Option<PageId>)>,
    manifest: ManifestId,
    created_at_ms: u64,
    i: int,
)
    requires
        lsn + list.len() <= u64::MAX,
        0 <= i <= list.len(),
    ensures
        ({
            let recs = txn_records(lsn, list, manifest, created_at_ms);
            &&& recs.len() == list.len() + 1
            &&& recs[i].lsn == lsn + i
            &&& i < list.len() ==> recs[i].kind == (RecordKind::Write {
                page_no: list[i].0,
                page: list[i].1,
            })
            &&& recs.last().kind == (RecordKind::Commit { manifest, created_at_ms })
        }),
{
}

/// What one more record does to a replay. One that the checkpoint has already does nothing but take its
/// number. A write is kept for the commit; the last one for a page counts. A checkpoint goes to its
/// manifest and forgets what was not committed. A commit is the other law's. Every number that was
/// seen is used up.
pub proof fn one_more_record_does_what_it_says(st: Replay, recs: Seq<Record>, r: Record, k: u64)
    requires
        replay(st, recs) is Fine,
        replay(st, recs.push(r)) is Fine,
    ensures
        ({
            let (mid, end) = (replay(st, recs)->Fine_0, replay(st, recs.push(r))->Fine_0);
            let had = mid.captured is Some && r.lsn <= mid.captured.unwrap();
            &&& end.captured == mid.captured
            &&& r.lsn < u64::MAX ==> r.lsn < end.next_lsn
            &&& mid.next_lsn <= end.next_lsn
            &&& end.next_lsn == mid.next_lsn || end.next_lsn == r.lsn + 1 || r.lsn == u64::MAX
            &&& end.records == mid.records + (if had {
                0int
            } else {
                1
            })
            &&& had ==> end.head == mid.head && end.pending == mid.pending && end.ms == mid.ms
                && end.txns == mid.txns && end.durable == mid.durable
            &&& !had && r.kind is Write ==> {
                &&& end.pending.get(k) == (if k == r.kind->page_no {
                    Some(r.kind->page)
                } else {
                    mid.pending.get(k)
                })
                &&& end.head == mid.head && end.ms == mid.ms && end.txns == mid.txns && end.durable
                    == mid.durable
            }
            &&& !had && r.kind is Checkpoint ==> end.head == r.kind->Checkpoint_manifest
                && end.pending == Map::<u64, Option<PageId>>::empty() && end.durable == r.lsn
                && end.txns == mid.txns && end.ms == mid.ms
            &&& !had && r.kind is Commit ==> end.pending == Map::<u64, Option<PageId>>::empty()
                && end.durable == r.lsn
        }),
{
    let mid = replay(st, recs)->Fine_0;
    assert(recs.push(r) =~= recs + seq![r]);
    lemma_replay_cat(st, recs, seq![r]);
    assert(seq![r].skip(1) =~= Seq::empty());
    assert(replay(mid, seq![r]) == replay_one(mid, r)) by {
        if let Outcome::Fine(next) = replay_one(mid, r) {
            assert(replay(next, Seq::empty()) == Outcome::Fine(next));
        }
    }
}

/// A commit record applies the writes before it: a page that they set is what they set it to, one that
/// they remove is gone, and every other page is what it was. Where that changes something, the head
/// is the manifest that the record names, and it counts as a transaction; otherwise the head stays.
pub proof fn a_commit_record_applies_the_writes_before_it(
    st: Replay,
    recs: Seq<Record>,
    r: Record,
    k: u64,
)
    requires
        replay(st, recs) is Fine,
        replay(st, recs.push(r)) is Fine,
        ({
            let mid = replay(st, recs)->Fine_0;
            &&& r.kind is Commit
            &&& mid.captured is Some ==> r.lsn > mid.captured.unwrap()
            &&& mid.ms.contains_key(mid.head)
            &&& sound(mid.ms, mid.ms[mid.head])
            &&& mid.pending.dom().finite()
            &&& resolved(mid.ms, mid.head).unwrap().dom().len() + mid.pending.dom().len()
                <= i64::MAX
            &&& installable(
                mid.ms,
                mid.held,
                derived(mid.ms, mid.head, mid.pending, r.kind->created_at_ms),
            )
        }),
    ensures
        ({
            let (mid, end) = (replay(st, recs)->Fine_0, replay(st, recs.push(r))->Fine_0);
            let (was, now) = (resolved(mid.ms, mid.head), resolved(end.ms, end.head));
            let differs = exists|j: u64| #[trigger]
                mid.pending.contains_key(j) && was.unwrap().get(j) != mid.pending[j];
            &&& was is Some && now is Some
            &&& now.unwrap().get(k) == (if mid.pending.contains_key(k) {
                mid.pending[k]
            } else {
                was.unwrap().get(k)
            })
            &&& differs ==> end.head == r.kind->Commit_manifest && end.txns == mid.txns + 1
            &&& !differs ==> end.head == mid.head && end.txns == mid.txns
        }),
{
    let mid = replay(st, recs)->Fine_0;
    assert(recs.push(r) =~= recs + seq![r]);
    lemma_replay_cat(st, recs, seq![r]);
    assert(seq![r].skip(1) =~= Seq::empty());
    assert(replay(mid, seq![r]) == replay_one(mid, r)) by {
        if let Outcome::Fine(next) = replay_one(mid, r) {
            assert(replay(next, Seq::empty()) == Outcome::Fine(next));
        }
    }
    let end = replay(st, recs.push(r))->Fine_0;
    let m = derived(mid.ms, mid.head, mid.pending, r.kind->created_at_ms);
    lemma_sound_resolves(mid.ms, mid.head);
    let was = resolved(mid.ms, mid.head).unwrap();
    assert forall|j: u64| looked_up(mid.ms, mid.head, j) == Some(#[trigger] was.get(j)) by {
        crate::chain::looking_up_agrees_with_resolving(mid.ms, mid.head, j);
    }
    if changes_something(mid.ms, mid.head, mid.pending) {
        let j = choose|j: u64| #[trigger]
            mid.pending.contains_key(j) && looked_up(mid.ms, mid.head, j) != Some(mid.pending[j]);
        assert(was.get(j) != mid.pending[j]);
        committing_applies_the_changes(mid.ms, mid.head, mid.pending, r.kind->created_at_ms);
        assert(end.ms =~= mid.ms.insert(m.id(), m));
    } else {
        assert forall|j: u64| #[trigger] mid.pending.contains_key(j) implies was.get(j)
            == mid.pending[j] by {
            assert(looked_up(mid.ms, mid.head, j) == Some(was.get(j)));
        }
        crate::chain::a_transaction_without_effect_leaves_the_pages(
            mid.ms,
            mid.head,
            mid.pending,
        );
    }
}

/// What is settled of a log without a checkpoint is everything up to its last commit or checkpoint:
/// behind that there are only writes.
pub proof fn a_log_is_settled_up_to_its_last_commit(recs: Seq<Record>)
    ensures
        ({
            let n = settled(None, recs) as int;
            &&& 0 <= n <= recs.len()
            &&& n > 0 ==> !(recs[n - 1].kind is Write)
            &&& forall|i: int| n <= i < recs.len() ==> (#[trigger] recs[i]).kind is Write
        }),
    decreases recs.len(),
{
    if unfinished(None, recs) {
        let init = recs.drop_last();
        a_log_is_settled_up_to_its_last_commit(init);
        let n = settled(None, init) as int;
        if n > 0 {
            assert(init[n - 1] == recs[n - 1]);
        }
        assert forall|i: int| n <= i < recs.len() implies (#[trigger] recs[i]).kind is Write by {
            if i < init.len() {
                assert(init[i] == recs[i]);
            }
        }
    }
}

/// Where a replay stops at a record, that record is to blame: a commit that names another manifest than
/// its writes give, a commit that cannot be derived from the head, or a checkpoint of a manifest that
/// is not there; and nothing before it is to blame.
pub proof fn a_replay_stops_at_what_it_cannot_follow(st: Replay, recs: Seq<Record>, r: Record)
    requires
        replay(st, recs) is Fine,
        replay(st, recs.push(r)) !is Fine,
    ensures
        ({
            let mid = replay(st, recs)->Fine_0;
            &&& mid.captured is Some ==> r.lsn > mid.captured.unwrap()
            &&& match replay(st, recs.push(r)) {
                Outcome::Diverged { lsn, expected, actual } => lsn == r.lsn && r.kind is Commit
                    && expected == r.kind->Commit_manifest && actual != expected && actual
                    == derived(mid.ms, mid.head, mid.pending, r.kind->created_at_ms).id(),
                Outcome::Stuck { stage, missing } => match r.kind {
                    RecordKind::Commit { .. } => stage == (Stage::Commit { lsn: r.lsn }) && missing
                        is None && !derivable(mid.ms, mid.head, mid.pending),
                    RecordKind::Checkpoint { manifest } => stage == (Stage::Checkpoint {
                        lsn: r.lsn,
                    }) && missing == Some(manifest) && !mid.held.contains(manifest),
                    RecordKind::Write { .. } => false,
                },
                Outcome::Fine(_) => false,
            }
        }),
{
    let mid = replay(st, recs)->Fine_0;
    assert(recs.push(r) =~= recs + seq![r]);
    lemma_replay_cat(st, recs, seq![r]);
    assert(seq![r].skip(1) =~= Seq::empty());
    assert(replay(mid, seq![r]) == replay_one(mid, r)) by {
        if let Outcome::Fine(next) = replay_one(mid, r) {
            assert(replay(next, Seq::empty()) == Outcome::Fine(next));
        }
    }
}

} // verus!
