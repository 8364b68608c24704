//! Replaying records onto a store, one at a time and a segment at a time.

use crate::cas::{manifest_put, same_but_manifests, Backing};
use crate::chain::derived;
use crate::clock::Clock;
use crate::laws::no_clash;
use crate::log::{
    after, good_len, lemma_len_of_one_more, lemma_replay_cat, lemma_settled, len_of_first,
    records_of, replay, replay_one, settled, stored, unfinished, Outcome, Replay,
};
use crate::error::{Fault, PagerError};
use crate::fsstore::FsStore;
use crate::manifest::{ManifestId, ManifestView};
use crate::pager::{lemma_underivable, underivable, unreadable, Pager};
use crate::record::{
    reading_looks_no_further_than_the_record, tells, Lsn, ReadOutcome, Record, RecordKind, Stage,
    TxnWrites, WalError,
};
use crate::text::hex;
use std::collections::BTreeMap;
use crate::vfs::Vfs;
use vstd::prelude::*;
use vstd::slice::slice_subrange;

verus! {

/// Every manifest that is there reads back.
pub open spec fn intact<B: Backing>(b: B) -> bool {
    b.held_manifests() == b.manifests().dom()
}

/// Recovery failed at this stage, because a manifest that was needed cannot be read: this one is not
/// there, or else one that the commit is built on.
pub open spec fn stuck_at(e: WalError, stage: Stage, missing: Option<ManifestId>) -> bool {
    exists|cause: PagerError|
        unreadable(cause@) && (missing matches Some(id) ==> cause@ == Fault::MissingManifest(
            hex(id.0@),
        )) && #[trigger] tells(e, stage, cause)
}

/// A count, as far as the machine's integers go.
pub open spec fn capped(n: nat) -> u64 {
    if n <= u64::MAX {
        n as u64
    } else {
        u64::MAX
    }
}

pub(crate) fn one_more(n: u64) -> (m: u64)
    ensures
        m == after(n),
        forall|k: nat| n == #[trigger] capped(k) ==> m == capped(k + 1),
{
    if n < u64::MAX {
        n + 1
    } else {
        n
    }
}

/// How an error answers to the way a replay ends.
pub open spec fn fails_as(o: Outcome, e: WalError, steady: bool) -> bool {
    match o {
        Outcome::Fine(_) => !steady && e is Recovery,
        Outcome::Diverged { lsn, expected, actual } => (!steady && e is Recovery) || (
        e matches WalError::ReplayDiverged { lsn: l, expected: x, actual: y } && l == lsn && x@
            == hex(expected.0@) && y@ == hex(actual.0@)),
        Outcome::Stuck { stage, missing } => (!steady && e is Recovery) || stuck_at(
            e,
            stage,
            missing,
        ),
    }
}

/// An error of a replay, and not of the filesystem.
pub open spec fn is_replay_error(e: WalError) -> bool {
    e is Recovery || e is ReplayDiverged
}

/// The store has the manifests that it has after these records.
pub open spec fn reached<B: Backing>(b: B, st: Replay, recs: Seq<Record>) -> bool {
    replay(st, recs) matches Outcome::Fine(mid) && mid.ms == b.manifests() && mid.held
        == b.held_manifests()
}

/// The store has the manifests that it has after some of these records.
pub open spec fn got_into<B: Backing>(b: B, st: Replay, recs: Seq<Record>) -> bool {
    exists|k: int| 0 <= k <= recs.len() && #[trigger] reached(b, st, recs.take(k))
}

/// Whoever got into a list that comes after another got into both.
pub proof fn lemma_got_into_cat<B: Backing>(
    b: B,
    st: Replay,
    before: Seq<Record>,
    recs: Seq<Record>,
    all: Seq<Record>,
)
    requires
        replay(st, before) is Fine,
        got_into(b, replay(st, before)->Fine_0, recs),
        before.len() + recs.len() <= all.len(),
        all.take((before.len() + recs.len()) as int) == before + recs,
    ensures
        got_into(b, st, all),
{
    let mid = replay(st, before)->Fine_0;
    let k = choose|k: int| 0 <= k <= recs.len() && #[trigger] reached(b, mid, recs.take(k));
    lemma_replay_cat(st, before, recs.take(k));
    let both = all.take((before.len() + recs.len()) as int);
    assert(all.take(before.len() + k) =~= both.take(before.len() + k));
    assert(all.take(before.len() + k) =~= before + recs.take(k));
    assert(reached(b, st, all.take(before.len() + k)));
}

/// A replay in progress, on the machine.
pub struct Replaying {
    /// The manifest that the next commit is on top of.
    pub head: ManifestId,
    /// The writes since the last commit.
    pub pending: TxnWrites,
    /// The sequence number after the greatest that was seen.
    pub next_lsn: Lsn,
    /// Records up to this number are in the checkpoint already.
    pub captured: Option<Lsn>,
    /// How many records were replayed.
    pub records: u64,
    /// How many transactions were installed.
    pub txns: u64,
    /// The number of the last commit or checkpoint.
    pub durable: Lsn,
}

impl Replaying {
    /// The machine is where the replay is.
    pub open spec fn tracks<B: Backing>(&self, b: B, st: Replay) -> bool {
        &&& st.ms == b.manifests()
        &&& st.held == b.held_manifests()
        &&& st.head == self.head
        &&& st.pending == self.pending@
        &&& st.next_lsn == self.next_lsn
        &&& st.captured == self.captured
        &&& self.records == capped(st.records)
        &&& self.txns == capped(st.txns)
        &&& st.durable == self.durable
    }

    /// The machine and the replay are both at the end of the records, or have both failed.
    pub open spec fn answers<B: Backing>(
        &self,
        b: B,
        o: Outcome,
        failure: Option<WalError>,
    ) -> bool {
        match failure {
            None => o matches Outcome::Fine(end) && self.tracks(b, end),
            Some(e) => fails_as(o, e, b.steady()),
        }
    }

    /// Replays one record.
    pub(crate) fn replay_record<V: Vfs, C: Clock>(
        &mut self,
        pager: &mut Pager<FsStore<V>, C>,
        record: &Record,
        Ghost(st): Ghost<Replay>,
    ) -> (r: Result<(), WalError>)
        requires
            old(pager).wf(),
            old(pager).backing().held_manifests().contains(old(self).head),
        ensures
            final(pager).wf(),
            final(pager).pin_counts() == old(pager).pin_counts(),
            final(pager).spec_config() == old(pager).spec_config(),
            final(pager).spec_clock() == old(pager).spec_clock(),
            same_but_manifests(old(pager).backing(), final(pager).backing()),
            r is Ok ==> final(pager).backing().held_manifests().contains(final(self).head),
            r is Err ==> is_replay_error(r->Err_0),
            r is Ok ==> final(self).captured == old(self).captured && final(
                self).pending@.is_empty() == (if old(self).captured matches Some(c) && record.lsn
                <= c {
                old(self).pending@.is_empty()
            } else {
                record.kind !is Write
            }),
            old(self).tracks(old(pager).backing(), st) ==> final(self).answers(
                final(pager).backing(),
                replay_one(st, *record),
                r.err(),
            ),
            old(self).tracks(old(pager).backing(), st) && r is Err ==> got_into(
                final(pager).backing(),
                st,
                seq![*record],
            ),
    {
        proof {
            pager.lemma_wf();
            pager.backing().contents_are_what_their_ids_say();
            assert(seq![*record].take(0) =~= Seq::empty());
            assert(seq![*record].take(1) =~= seq![*record]);
            assert(seq![*record].skip(1) =~= Seq::empty());
            reveal_with_fuel(replay, 2);
            assert(self.tracks(pager.backing(), st) ==> reached(
                pager.backing(),
                st,
                seq![*record].take(0),
            ));
        }
        broadcast use vstd::std_specs::btree::group_btree_axioms;

        let next = one_more(record.lsn);
        if self.next_lsn < next {
            self.next_lsn = next;
        }
        if let Some(captured) = self.captured {
            if record.lsn <= captured {
                return Ok(());
            }
        }
        self.records = one_more(self.records);
        match record.kind {
            RecordKind::Write { page_no, page } => {
                self.pending.insert(page_no, page);
                assert(self.pending@.contains_key(page_no));
            },
            RecordKind::Commit { manifest, created_at_ms } => {
                let derived = match pager.derive_next(self.head, &self.pending, created_at_ms) {
                    Ok(d) => d,
                    Err(e) => {
                        proof {
                            let b = old(pager).backing();
                            if underivable(b, self.head, self.pending@, e@) {
                                lemma_underivable(b, self.head, self.pending@, e@);
                            }
                        }
                        return Err(WalError::recovery(Stage::Commit { lsn: record.lsn }, &e));
                    },
                };
                match derived {
                    Some((next, id)) => {
                        if id != manifest {
                            return Err(
                                WalError::ReplayDiverged {
                                    lsn: record.lsn,
                                    expected: manifest.to_hex(),
                                    actual: id.to_hex(),
                                },
                            );
                        }
                        let ghost before = pager.backing();
                        match pager.install(&next) {
                            Ok(_) => {},
                            Err(e) => {
                                proof {
                                    let now = pager.backing();
                                    if manifest_put(before, now, next@) {
                                        lemma_installed(before, now, next@);
                                        assert(old(self).tracks(old(pager).backing(), st)
                                            ==> reached(now, st, seq![*record].take(1)));
                                    }
                                    assert(now.manifests() == before.manifests()
                                        && now.held_manifests() == before.held_manifests()
                                        && old(self).tracks(old(pager).backing(), st) ==> reached(
                                        now,
                                        st,
                                        seq![*record].take(0),
                                    ));
                                }
                                return Err(
                                    WalError::recovery(Stage::Install { lsn: record.lsn }, &e),
                                );
                            },
                        }
                        proof {
                            lemma_installed(before, pager.backing(), next@);
                        }
                        self.head = id;
                        self.txns = one_more(self.txns);
                        self.durable = record.lsn;
                    },
                    None => {
                        self.durable = record.lsn;
                    },
                }
                self.pending = BTreeMap::new();
            },
            RecordKind::Checkpoint { manifest } => {
                match pager.set_head_to(manifest) {
                    Ok(()) => {},
                    Err(e) => {
                        return Err(WalError::recovery(Stage::Checkpoint { lsn: record.lsn }, &e));
                    },
                }
                self.head = manifest;
                self.durable = record.lsn;
                self.pending = BTreeMap::new();
            },
        }
        Ok(())
    }

    /// Replays the records of one segment, up to the first that is torn, and says how many bytes
    /// they take; and how many those up to the last place where no transaction is unfinished, if
    /// there is such a place behind one of them.
    pub(crate) fn replay_segment<V: Vfs, C: Clock>(
        &mut self,
        pager: &mut Pager<FsStore<V>, C>,
        bytes: &Vec<u8>,
        Ghost(st): Ghost<Replay>,
        Ghost(before): Ghost<Seq<Record>>,
    ) -> (r: Result<(usize, Option<usize>), WalError>)
        requires
            old(pager).wf(),
            old(pager).backing().held_manifests().contains(old(self).head),
            old(self).pending@.is_empty() == !unfinished(old(self).captured, before),
        ensures
            final(pager).wf(),
            final(pager).pin_counts() == old(pager).pin_counts(),
            final(pager).spec_config() == old(pager).spec_config(),
            final(pager).spec_clock() == old(pager).spec_clock(),
            same_but_manifests(old(pager).backing(), final(pager).backing()),
            r is Ok ==> final(pager).backing().held_manifests().contains(final(self).head),
            r is Err ==> is_replay_error(r->Err_0),
            r matches Ok((end, mark)) ==> {
                let all = before + records_of(bytes@);
                let n = settled(old(self).captured, all) - before.len();
                &&& end == good_len(bytes@)
                &&& final(self).captured == old(self).captured
                &&& final(self).pending@.is_empty() == !unfinished(old(self).captured, all)
                &&& mark is Some <==> n > 0
                &&& mark is Some ==> mark->Some_0 == len_of_first(bytes@, n)
                &&& n <= 0 ==> settled(old(self).captured, all) == settled(
                    old(self).captured,
                    before,
                )
            },
            old(self).tracks(old(pager).backing(), st) ==> final(self).answers(
                final(pager).backing(),
                replay(st, records_of(bytes@)),
                r.err(),
            ),
            old(self).tracks(old(pager).backing(), st) && r is Err ==> got_into(
                final(pager).backing(),
                st,
                records_of(bytes@),
            ),
    {
        let ghost fits = self.tracks(pager.backing(), st);
        let ghost captured = self.captured;
        let ghost mut done: Seq<Record> = Seq::empty();
        let mut offset: usize = 0;
        let mut mark: Option<usize> = None;
        proof {
            assert(bytes@.skip(0) =~= bytes@);
            assert(done + records_of(bytes@) =~= records_of(bytes@));
            assert(replay(st, done) == Outcome::Fine(st));
            assert(before + done =~= before);
            lemma_settled(captured, before);
        }
        loop
            invariant
                offset <= bytes@.len(),
                fits == old(self).tracks(old(pager).backing(), st),
                captured == old(self).captured,
                self.captured == captured,
                self.pending@.is_empty() == !unfinished(captured, before + done),
                records_of(bytes@) == done + records_of(bytes@.skip(offset as int)),
                good_len(bytes@) == offset + good_len(bytes@.skip(offset as int)),
                offset == len_of_first(bytes@, done.len() as int),
                ({
                    let n = settled(captured, before + done) - before.len();
                    &&& mark is Some <==> n > 0
                    &&& mark is Some ==> mark->Some_0 == len_of_first(bytes@, n)
                    &&& n <= 0 ==> settled(captured, before + done) == settled(captured, before)
                }),
                pager.wf(),
                pager.pin_counts() == old(pager).pin_counts(),
                pager.spec_config() == old(pager).spec_config(),
                pager.spec_clock() == old(pager).spec_clock(),
                same_but_manifests(old(pager).backing(), pager.backing()),
                pager.backing().held_manifests().contains(self.head),
                fits ==> self.answers(pager.backing(), replay(st, done), None),
            decreases bytes@.len() - offset,
        {
            let ghost rest = bytes@.skip(offset as int);
            let tail = slice_subrange(bytes.as_slice(), offset, bytes.len());
            assert(tail@ =~= rest);
            match Record::decode(tail) {
                ReadOutcome::Torn => {
                    proof {
                        assert(done + records_of(rest) =~= done);
                    }
                    return Ok((offset, mark));
                },
                ReadOutcome::Record { record, consumed } => {
                    let ghost more = rest.skip(consumed as int);
                    let ghost cur = replay(st, done)->Fine_0;
                    proof {
                        reading_looks_no_further_than_the_record(rest, Seq::empty());
                        assert(bytes@.skip(offset + consumed) =~= more);
                        assert(done + records_of(rest) =~= done.push(record) + records_of(more));
                        lemma_replay_cat(st, done, seq![record]);
                        assert(done.push(record) =~= done + seq![record]);
                        assert(seq![record].skip(1) =~= Seq::empty());
                        reveal_with_fuel(replay, 2);
                        lemma_replay_cat(st, done.push(record), records_of(more));
                        lemma_len_of_one_more(bytes@, done.len() as int);
                        assert((before + done.push(record)).drop_last() =~= before + done);
                        assert((before + done.push(record)).last() == record);
                    }
                    offset = offset + consumed;
                    match self.replay_record(pager, &record, Ghost(cur)) {
                        Ok(()) => {},
                        Err(e) => {
                            proof {
                                let all = records_of(bytes@);
                                assert(all.take((done.len() + 1) as int) =~= done + seq![record]);
                                if fits {
                                    lemma_got_into_cat(
                                        pager.backing(),
                                        st,
                                        done,
                                        seq![record],
                                        all,
                                    );
                                }
                            }
                            return Err(e);
                        },
                    }
                    if self.pending.is_empty() {
                        mark = Some(offset);
                    }
                    proof {
                        done = done.push(record);
                    }
                },
            }
        }
    }
}

/// A manifest that is installed is stored, and what was there stays.
pub proof fn lemma_installed<B: Backing>(a: B, b: B, m: ManifestView)
    requires
        B::keeps_manifests(),
        a.manifests().dom().subset_of(a.held_manifests()),
        manifest_put(a, b, m),
    ensures
        b.held_manifests() == a.held_manifests().insert(m.id()),
        b.manifests() == stored(a.manifests(), a.held_manifests(), m),
{
    assert(a.manifests().contains_key(m.id()) ==> a.manifests().dom().contains(m.id()));
}

/// A store that is intact stays so when a manifest that clashes with none is put.
pub proof fn lemma_put_intact<B: Backing>(a: B, b: B, m: ManifestView)
    requires
        intact(a),
        no_clash(a.manifests(), m),
        manifest_put(a, b, m),
    ensures
        intact(b),
        b.manifests() == a.manifests().insert(m.id(), m),
{
    if b.manifests() != a.manifests().insert(m.id(), m) {
        assert(a.manifests().dom().contains(m.id()));
        assert(a.manifests().insert(m.id(), m) =~= a.manifests());
    }
    assert(b.held_manifests() =~= b.manifests().dom());
}

/// A count is exact as long as the machine's integers hold it, and one more is one more.
pub proof fn a_count_is_exact_while_it_fits(n: nat, m: u64)
    ensures
        n <= u64::MAX ==> capped(n) == n,
        n >= u64::MAX ==> capped(n) == u64::MAX,
        m < u64::MAX ==> after(m) == m + 1,
        after(u64::MAX) == u64::MAX,
{
}

} // verus!
