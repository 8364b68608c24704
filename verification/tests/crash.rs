//! Log records, and crashes at any byte: no torn state, no lost commit.

use std::cell::RefCell;
use std::collections::BTreeMap;
use std::rc::Rc;
use substrate::clock::ManualClock;
use substrate::durable::DurableStore;
use substrate::error::{IoError, PagerError};
use substrate::manifest::ManifestId;
use substrate::page::{LogicalPageNo, PageId, MIN_PAGE_SIZE};
use substrate::pager::{PageStore, StoreConfig};
use substrate::path::VPath;
use substrate::record::{ReadOutcome, Record, RecordKind, Stage, WalError, FRAME_HEADER_BYTES};
use substrate::testing::{crashing_mem_vfs, reboot, CrashVfs, MemVfs, Rng, CRASH_REPORT};
use substrate::vfs::Vfs;
use substrate::wal::Recovery;

const PAGE_SIZE: usize = MIN_PAGE_SIZE;
const MAX_PAGE_NO: LogicalPageNo = 6;

/// A disk in memory that outlives the store on it.
#[derive(Clone)]
struct Disk(Rc<RefCell<MemVfs>>);

impl Disk {
    fn new() -> Disk {
        Disk(Rc::new(RefCell::new(MemVfs::new())))
    }
}

impl Vfs for Disk {
    fn files_are_in_directories(&self) {}
    fn create_dir_all(&mut self, path: &VPath) -> Result<(), IoError> {
        self.0.borrow_mut().create_dir_all(path)
    }
    fn atomic_write(&mut self, path: &VPath, bytes: &[u8]) -> Result<(), IoError> {
        self.0.borrow_mut().atomic_write(path, bytes)
    }
    fn append(&mut self, path: &VPath, bytes: &[u8]) -> Result<(), IoError> {
        self.0.borrow_mut().append(path, bytes)
    }
    fn read(&self, path: &VPath) -> Result<Vec<u8>, IoError> {
        self.0.borrow().read(path)
    }
    fn truncate(&mut self, path: &VPath, len: u64) -> Result<(), IoError> {
        self.0.borrow_mut().truncate(path, len)
    }
    fn has_file(&self, path: &VPath) -> bool {
        self.0.borrow().has_file(path)
    }
    fn remove_file(&mut self, path: &VPath) -> Result<(), IoError> {
        self.0.borrow_mut().remove_file(path)
    }
    fn read_dir(&self, path: &VPath) -> Result<Vec<VPath>, IoError> {
        self.0.borrow().read_dir(path)
    }
}

fn root() -> VPath {
    VPath::new().join("db")
}

fn config() -> StoreConfig {
    StoreConfig { page_size: PAGE_SIZE, ..Default::default() }
}

fn clock() -> ManualClock {
    ManualClock::new(1_700_000_000_000)
}

fn content_of(byte: u8) -> Vec<u8> {
    vec![byte; 1 + (byte as usize % 32)]
}

fn open<V: Vfs>(vfs: V) -> Result<DurableStore<V, ManualClock>, WalError> {
    DurableStore::open_with_clock(vfs, &root(), config(), clock())
}

type ExpectedState = BTreeMap<LogicalPageNo, Vec<u8>>;

/// Runs a workload until the disk dies: the states that the store went through, and how many
/// commits were acknowledged.
fn run_until_crash<V: Vfs>(vfs: V, rng: &mut Rng, txns: u64) -> (Vec<ExpectedState>, usize) {
    let mut db = match open(vfs) {
        Ok(db) => db,
        Err(_) => return (vec![ExpectedState::new()], 0),
    };

    let mut states: Vec<ExpectedState> = vec![ExpectedState::new()];
    let mut current = ExpectedState::new();
    let mut acknowledged = 0usize;

    'outer: for _ in 0..txns {
        let Ok(mut txn) = db.begin() else { break };

        let writes = 1 + rng.below(3);
        let mut staged = current.clone();

        for _ in 0..writes {
            let page_no = rng.below(MAX_PAGE_NO);
            let bytes = content_of(rng.byte());
            if db.write(&mut txn, page_no, bytes.clone()).is_err() {
                break 'outer;
            }
            staged.insert(page_no, bytes);
        }

        match db.commit(txn) {
            Ok(_) => {
                current = staged;
                states.push(current.clone());
                acknowledged = states.len() - 1;
            }
            Err(_) => {
                states.push(staged);
                break;
            }
        }
    }

    (states, acknowledged)
}

fn recover_and_check(disk: Disk, states: &[ExpectedState], acknowledged: usize, scenario: &str) {
    let mut db = open(disk)
        .unwrap_or_else(|e| panic!("{scenario}: could not reopen a crashed store: {e:?}"));

    let recovery =
        db.recover().unwrap_or_else(|e| panic!("{scenario}: recovery failed: {e:?}"));

    let head = db.head();
    let pages = db
        .pager_mut()
        .resolve(&head)
        .unwrap_or_else(|e| panic!("{scenario}: recovered head is unreadable: {e:?}"));

    let mut actual = ExpectedState::new();
    for page_no in pages.keys() {
        let page = db.read(&head, *page_no).unwrap_or_else(|e| {
            panic!("{scenario}: page {page_no} of the recovered head is unreadable: {e:?}")
        });
        actual.insert(*page_no, page.into_bytes());
    }

    let matched = states.iter().rposition(|s| *s == actual).unwrap_or_else(|| {
        panic!(
            "{scenario}: TORN STATE.\n  recovered: {actual:?}\n  legal states: {states:?}\n  \
             recovery: {recovery:?}"
        )
    });

    assert!(
        matched >= acknowledged,
        "{scenario}: LOST COMMIT. Recovery landed on state {matched}, but {acknowledged} \
         transactions were acknowledged as committed.\n  recovery: {recovery:?}"
    );

    let again =
        db.recover().unwrap_or_else(|e| panic!("{scenario}: second recovery failed: {e:?}"));
    assert_eq!(
        db.head(),
        head,
        "{scenario}: recovery is not idempotent — running it twice moved the head. {again:?}"
    );
}

fn crash_runs(seeds: std::ops::Range<u64>) {
    for seed in seeds {
        let mut rng = Rng::new(seed.wrapping_mul(0x9E37_79B9_7F4A_7C15).wrapping_add(1));

        let budget = rng.below(6_000) as i64;
        let txns = 1 + rng.below(8);

        let disk = Disk::new();
        let vfs = CrashVfs::with_budget(disk.clone(), budget);
        let (states, acknowledged) = run_until_crash(vfs, &mut rng, txns);

        recover_and_check(
            disk,
            &states,
            acknowledged,
            &format!("seed={seed} budget={budget} txns={txns}"),
        );
    }
}

#[test]
fn ten_thousand_crashes_never_produce_a_torn_or_lost_commit() {
    crash_runs(0..10_000);
}

#[test]
fn the_same_log_always_replays_to_the_same_bytes() -> Result<(), WalError> {
    let disk = Disk::new();

    let mut expected_head = None;
    {
        let mut db = open(disk.clone())?;
        let mut rng = Rng::new(0xDEAD_BEEF);
        for _ in 0..24 {
            let mut txn = db.begin()?;
            for _ in 0..3 {
                db.write(&mut txn, rng.below(MAX_PAGE_NO), content_of(rng.byte()))?;
            }
            expected_head = Some(db.commit(txn)?);
        }
    }

    let mut heads = Vec::new();
    for _ in 0..8 {
        let mut db = open(disk.clone())?;
        let recovery = db.recover()?;
        assert!(recovery.committed_txns > 0, "the log should have replayed");
        heads.push(db.head());
    }

    for head in &heads {
        assert_eq!(
            Some(*head),
            expected_head,
            "replaying the same log produced a different database"
        );
    }
    Ok(())
}

#[test]
fn checkpointing_shortens_the_log_without_changing_the_answer() -> Result<(), WalError> {
    let disk = Disk::new();

    let head_before = {
        let mut db = open(disk.clone())?;
        let mut rng = Rng::new(7);

        for _ in 0..10 {
            let mut txn = db.begin()?;
            db.write(&mut txn, rng.below(MAX_PAGE_NO), content_of(rng.byte()))?;
            db.commit(txn)?;
        }
        db.checkpoint()?;

        for _ in 0..5 {
            let mut txn = db.begin()?;
            db.write(&mut txn, rng.below(MAX_PAGE_NO), content_of(rng.byte()))?;
            db.commit(txn)?;
        }
        db.head()
    };

    let mut db = open(disk)?;
    db.recover()?;
    assert_eq!(db.head(), head_before, "recovery after a checkpoint landed somewhere else");
    Ok(())
}

#[test]
fn a_transaction_that_never_committed_did_not_happen() -> Result<(), WalError> {
    let disk = Disk::new();

    {
        let mut db = open(disk.clone())?;

        let mut txn = db.begin()?;
        db.write(&mut txn, 0, b"committed".to_vec())?;
        db.commit(txn)?;

        let mut orphan = db.begin()?;
        db.write(&mut orphan, 0, b"NEVER COMMITTED".to_vec())?;
        db.write(&mut orphan, 1, b"NEVER COMMITTED".to_vec())?;
        std::mem::forget(orphan);
    }

    let mut db = open(disk)?;
    let recovery = db.recover()?;

    assert_eq!(recovery.committed_txns, 1);
    assert_eq!(db.read_head(0)?.as_bytes(), b"committed");
    assert!(
        db.read_head(1).is_err(),
        "a page from an uncommitted transaction appeared in the database"
    );
    Ok(())
}

#[test]
fn a_crashed_disk_refuses_everything_until_it_is_rebooted() {
    let mut vfs = crashing_mem_vfs(3);
    let path = root().join("log");
    assert!(vfs.append(&path, b"ab").is_ok());
    assert_eq!(vfs.remaining(), 1);
    assert!(vfs.append(&path, b"cd").is_err());
    assert!(vfs.has_crashed());
    assert!(vfs.append(&path, b"e").is_err());
    let disk = reboot(vfs);
    assert_eq!(disk.read(&path).ok(), Some(b"abc".to_vec()));
}

// ---- records ----

fn record() -> Record {
    Record {
        lsn: 42,
        kind: RecordKind::Commit {
            manifest: ManifestId::from_bytes([7; 32]),
            created_at_ms: 1_700_000_000_000,
        },
    }
}

#[test]
fn record_round_trips() -> Result<(), WalError> {
    let original = record();
    let frame = original.encode()?;
    match Record::decode(&frame) {
        ReadOutcome::Record { record, consumed } => {
            assert_eq!(record, original);
            assert_eq!(consumed, frame.len());
        }
        ReadOutcome::Torn => panic!("a record we just wrote must decode"),
    }
    Ok(())
}

#[test]
fn record_encoding_is_deterministic() -> Result<(), WalError> {
    let r = record();
    let first = r.encode()?;
    for _ in 0..64 {
        assert_eq!(r.encode()?, first);
    }
    Ok(())
}

#[test]
fn a_frame_is_length_checksum_and_body() -> Result<(), WalError> {
    let frame = record().encode()?;
    let body = &frame[FRAME_HEADER_BYTES..];
    assert_eq!(frame[0..4], (body.len() as u32).to_le_bytes());
    assert_eq!(frame[4..8], crc32c::crc32c(body).to_le_bytes());
    assert_eq!(body.len(), 8 + 4 + 32 + 8);
    Ok(())
}

#[test]
fn a_record_cut_off_anywhere_is_torn_not_a_panic() -> Result<(), WalError> {
    let frame = record().encode()?;
    for cut in 0..frame.len() {
        assert!(
            matches!(Record::decode(&frame[..cut]), ReadOutcome::Torn),
            "a record cut at byte {cut} must read as torn"
        );
    }
    Ok(())
}

#[test]
fn a_single_flipped_bit_is_caught_by_the_crc() -> Result<(), WalError> {
    let frame = record().encode()?;
    for byte in FRAME_HEADER_BYTES..frame.len() {
        for bit in 0..8 {
            let mut corrupted = frame.clone();
            corrupted[byte] ^= 1 << bit;
            assert!(
                matches!(Record::decode(&corrupted), ReadOutcome::Torn),
                "a bit flip at byte {byte} bit {bit} slipped past the CRC"
            );
        }
    }
    Ok(())
}

#[test]
fn a_hostile_length_prefix_does_not_allocate_the_universe() {
    let mut frame = vec![0u8; FRAME_HEADER_BYTES + 4];
    frame[0..4].copy_from_slice(&u32::MAX.to_le_bytes());
    assert!(matches!(Record::decode(&frame), ReadOutcome::Torn));

    frame[0..4].copy_from_slice(&0u32.to_le_bytes());
    assert!(matches!(Record::decode(&frame), ReadOutcome::Torn));
}

#[test]
fn trailing_bytes_after_a_record_are_left_for_the_next_read() -> Result<(), WalError> {
    let mut buf = record().encode()?;
    let first_len = buf.len();
    buf.extend_from_slice(&record().encode()?);

    match Record::decode(&buf) {
        ReadOutcome::Record { consumed, .. } => assert_eq!(consumed, first_len),
        ReadOutcome::Torn => panic!("the first record is intact"),
    }
    Ok(())
}

#[test]
fn before_the_crash_it_is_the_disk_that_answers_and_after_it_nothing_changes() {
    let dir = VPath::new().join("db");
    let file = dir.join("f");
    let mut vfs = crashing_mem_vfs(4);
    assert!(vfs.create_dir_all(&dir).is_ok());
    assert!(vfs.append(&file, b"abcd").is_ok());
    assert!(vfs.truncate(&file, 2).is_ok());
    assert!(matches!(vfs.truncate(&dir.join("g"), 0), Err(IoError::NotFound)));
    assert!(vfs.remove_file(&dir.join("g")).is_ok());
    assert_eq!(vfs.read_dir(&dir).expect("listing works").len(), 1);
    assert_eq!(vfs.remaining(), 0);
    assert!(!vfs.has_crashed());

    assert!(vfs.append(&file, b"x").is_err());
    assert!(vfs.has_crashed());
    let gone = |r: Result<(), IoError>| matches!(r, Err(IoError::Other(text)) if text == CRASH_REPORT);
    assert!(gone(vfs.create_dir_all(&dir.join("sub"))));
    assert!(gone(vfs.truncate(&file, 0)));
    assert!(gone(vfs.remove_file(&file)));
    assert_eq!(vfs.read_dir(&dir).expect("what is there can be read").len(), 1);
    assert_eq!(vfs.read(&file).expect("what is there can be read"), b"ab".to_vec());
}

#[test]
fn a_torn_append_leaves_as_much_as_the_budget_allowed() {
    let mut vfs = crashing_mem_vfs(3);
    let path = root().join("log");
    assert!(vfs.append(&path, &[1, 2, 3, 4, 5]).is_err());
    assert!(vfs.append(&path, &[6]).is_err());
    let disk = reboot(vfs);
    assert_eq!(disk.total_bytes(), Some(3));
    assert_eq!(disk.read(&path).ok(), Some(vec![1, 2, 3]));
}

#[test]
fn without_a_budget_nothing_is_ever_written() {
    let mut vfs = crashing_mem_vfs(0);
    let path = root().join("file");
    assert!(vfs.append(&path, &[1]).is_err());
    assert!(vfs.atomic_write(&path, &[]).is_err());
    assert!(vfs.has_crashed());
    assert!(!vfs.has_file(&path));
    assert_eq!(reboot(vfs).total_bytes(), Some(0));
}

#[test]
fn two_transactions_begun_on_one_head_are_both_recovered() -> Result<(), WalError> {
    let disk = Disk::new();
    let head = {
        let mut db = open(disk.clone())?;
        let mut first = db.begin()?;
        let mut second = db.begin()?;
        db.write(&mut first, 1, b"first".to_vec())?;
        db.write(&mut second, 2, b"second".to_vec())?;
        db.commit(first)?;
        let head = db.commit(second)?;
        assert_eq!(db.head(), head);
        assert_eq!(db.read_head(1)?.as_bytes(), b"first");
        assert_eq!(db.read_head(2)?.as_bytes(), b"second");
        head
    };

    let mut db = open(disk)?;
    let recovery = db.recover()?;
    assert_eq!(recovery.committed_txns, 2);
    assert_eq!(db.head(), head);
    assert_eq!(db.read_head(1)?.as_bytes(), b"first");
    assert_eq!(db.read_head(2)?.as_bytes(), b"second");
    Ok(())
}

#[test]
fn the_log_goes_on_behind_writes_that_never_committed() -> Result<(), WalError> {
    let mut discarded = 0;
    for budget in 0..1200i64 {
        let disk = Disk::new();
        {
            let mut db = open(disk.clone())?;
            let mut txn = db.begin()?;
            db.write(&mut txn, 0, b"kept".to_vec())?;
            db.commit(txn)?;
        }
        let mut acknowledged = false;
        if let Ok(mut db) = open(CrashVfs::with_budget(disk.clone(), budget)) {
            if db.recover().is_ok() {
                let mut txn = db.begin()?;
                if db.write(&mut txn, 1, vec![1; 40]).is_ok()
                    && db.write(&mut txn, 2, vec![2; 40]).is_ok()
                {
                    acknowledged = db.commit(txn).is_ok();
                }
            }
        }

        let mut db = open(disk.clone())?;
        let recovery = db.recover()?;
        discarded += recovery.uncommitted_writes_discarded;
        let after_crash = db.read_head(1).is_ok();
        assert_eq!(after_crash, db.read_head(2).is_ok(), "budget {budget}: a torn transaction");
        assert!(after_crash || !acknowledged, "budget {budget}: a lost transaction");
        for page_no in [3, 4] {
            let mut txn = db.begin()?;
            db.write(&mut txn, page_no, b"later".to_vec())?;
            db.commit(txn)?;
        }
        let head = db.head();

        let mut db = open(disk)?;
        let recovery = db.recover()?;
        assert_eq!(recovery.uncommitted_writes_discarded, 0, "budget {budget}");
        assert_eq!(db.head(), head, "budget {budget}: recovery lost what came after a recovery");
        assert_eq!(db.read_head(0)?.as_bytes(), b"kept");
        assert_eq!(db.read_head(1).is_ok(), after_crash);
        assert_eq!(db.read_head(3)?.as_bytes(), b"later");
        assert_eq!(db.read_head(4)?.as_bytes(), b"later");
    }
    assert!(discarded > 0, "no budget stopped between a write and its commit");
    Ok(())
}

#[test]
fn a_failed_recovery_says_where_and_why() -> Result<(), WalError> {
    let mut disk = Disk::new();
    let head = {
        let mut db = open(disk.clone())?;
        let mut txn = db.begin()?;
        db.write(&mut txn, 0, b"gone".to_vec())?;
        let head = db.commit(txn)?;
        db.checkpoint()?;
        head
    };
    let hex = head.to_hex();
    let file = root().join("manifests").join(&hex[0..2]).join(&hex);
    assert!(disk.has_file(&file));
    disk.remove_file(&file).expect("remove the manifest");

    let mut db = open(disk)?;
    match db.recover() {
        Err(WalError::Recovery(text)) => assert_eq!(
            text,
            format!("checkpoint manifest unusable: manifest {hex} does not exist")
        ),
        other => panic!("expected a failed recovery, got {other:?}"),
    }

    let cause = PagerError::backend("no disk");
    for (stage, words) in [
        (Stage::Root, "root manifest unusable: "),
        (Stage::Commit { lsn: 7 }, "replaying commit at lsn 7: "),
        (Stage::Install { lsn: 8 }, "installing manifest at lsn 8: "),
        (Stage::Checkpoint { lsn: 9 }, "checkpoint at lsn 9 unusable: "),
        (Stage::Head, "final head unusable: "),
    ] {
        match WalError::recovery(stage, &cause) {
            WalError::Recovery(text) => {
                assert_eq!(text, format!("{words}storage backend failed: no disk"))
            }
            other => panic!("not a recovery error: {other:?}"),
        }
    }
    Ok(())
}

#[test]
fn a_crash_during_recovery_loses_nothing() -> Result<(), WalError> {
    for crash in [700i64, 760, 800, 840, 880, 920] {
        let wrecked = || -> Result<Disk, WalError> {
            let disk = Disk::new();
            let mut db = open(disk.clone())?;
            let mut txn = db.begin()?;
            db.write(&mut txn, 0, b"kept".to_vec())?;
            db.commit(txn)?;
            let mut db = open(CrashVfs::with_budget(disk.clone(), crash))?;
            if db.recover().is_ok() {
                let mut txn = db.begin()?;
                let staged = db.write(&mut txn, 1, vec![1; 40]).is_ok()
                    && db.write(&mut txn, 2, vec![2; 40]).is_ok();
                if staged {
                    let _ = db.commit(txn);
                }
            }
            Ok(disk)
        };
        let expected = {
            let mut db = open(wrecked()?)?;
            db.recover()?;
            db.head()
        };
        for budget in 0..400i64 {
            let disk = wrecked()?;
            if let Ok(mut db) = open(CrashVfs::with_budget(disk.clone(), budget)) {
                let _ = db.recover();
            }
            let mut db = open(disk)?;
            db.recover()?;
            assert_eq!(db.head(), expected, "crash {crash}, budget {budget}");
            assert_eq!(db.read_head(0)?.as_bytes(), b"kept");
        }
    }
    Ok(())
}

/// A disk that now and then fails once, and goes on.
#[derive(Clone)]
struct Flaky {
    disk: Disk,
    /// Of the next append only so many bytes are written, and it fails.
    tear: Rc<RefCell<Option<usize>>>,
    /// The next manifest is not written.
    refuse: Rc<RefCell<bool>>,
}

impl Flaky {
    fn new() -> Flaky {
        Flaky {
            disk: Disk::new(),
            tear: Rc::new(RefCell::new(None)),
            refuse: Rc::new(RefCell::new(false)),
        }
    }
}

fn hiccup() -> IoError {
    IoError::Other("a hiccup".to_string())
}

impl Vfs for Flaky {
    fn files_are_in_directories(&self) {}
    fn create_dir_all(&mut self, path: &VPath) -> Result<(), IoError> {
        self.disk.create_dir_all(path)
    }
    fn atomic_write(&mut self, path: &VPath, bytes: &[u8]) -> Result<(), IoError> {
        if path.to_text().contains("manifests") && self.refuse.replace(false) {
            return Err(hiccup());
        }
        self.disk.atomic_write(path, bytes)
    }
    fn append(&mut self, path: &VPath, bytes: &[u8]) -> Result<(), IoError> {
        match self.tear.take() {
            Some(n) => {
                self.disk.append(path, &bytes[..n.min(bytes.len())])?;
                Err(hiccup())
            }
            None => self.disk.append(path, bytes),
        }
    }
    fn read(&self, path: &VPath) -> Result<Vec<u8>, IoError> {
        self.disk.read(path)
    }
    fn truncate(&mut self, path: &VPath, len: u64) -> Result<(), IoError> {
        self.disk.truncate(path, len)
    }
    fn has_file(&self, path: &VPath) -> bool {
        self.disk.has_file(path)
    }
    fn remove_file(&mut self, path: &VPath) -> Result<(), IoError> {
        self.disk.remove_file(path)
    }
    fn read_dir(&self, path: &VPath) -> Result<Vec<VPath>, IoError> {
        self.disk.read_dir(path)
    }
}

fn put<V: Vfs>(
    db: &mut DurableStore<V, ManualClock>,
    page_no: LogicalPageNo,
    bytes: &[u8],
) -> Result<ManifestId, WalError> {
    let mut txn = db.begin()?;
    db.write(&mut txn, page_no, bytes.to_vec())?;
    db.commit(txn)
}

#[test]
fn a_commit_after_a_failed_one_is_not_lost() -> Result<(), WalError> {
    for torn in 0..260 {
        for checkpoint in [false, true] {
            let vfs = Flaky::new();
            let mut db = open(vfs.clone())?;
            put(&mut db, 0, b"before")?;
            *vfs.tear.borrow_mut() = Some(torn);
            if checkpoint {
                assert!(matches!(db.checkpoint(), Err(WalError::Io { .. })));
            } else {
                assert!(matches!(put(&mut db, 1, b"failed"), Err(WalError::Io { .. })));
            }
            let head = put(&mut db, 2, b"after")?;

            let mut db = open(vfs.disk)?;
            db.recover()?;
            assert_eq!(db.head(), head, "torn at {torn}");
            assert_eq!(db.read_head(0)?.as_bytes(), b"before");
            assert!(db.read_head(1).is_err());
            assert_eq!(db.read_head(2)?.as_bytes(), b"after");
        }
    }
    Ok(())
}

#[test]
fn a_commit_that_could_not_be_installed_is_taken_back() -> Result<(), WalError> {
    let vfs = Flaky::new();
    let mut db = open(vfs.clone())?;
    let before = put(&mut db, 0, b"before")?;
    *vfs.refuse.borrow_mut() = true;
    assert!(matches!(put(&mut db, 1, b"failed"), Err(WalError::Pager(_))));
    assert_eq!(db.head(), before);

    let head = put(&mut db, 2, b"after")?;
    let mut db = open(vfs.disk)?;
    let recovery = db.recover()?;
    assert_eq!(recovery.committed_txns, 2);
    assert_eq!(db.head(), head);
    assert!(db.read_head(1).is_err());
    assert_eq!(db.read_head(2)?.as_bytes(), b"after");
    Ok(())
}

#[test]
fn a_checkpoint_keeps_the_head_that_the_store_was_moved_to() -> Result<(), WalError> {
    let disk = Disk::new();
    let older = {
        let mut db = open(disk.clone())?;
        let older = put(&mut db, 0, b"older")?;
        put(&mut db, 0, b"newer")?;
        db.pager_mut().rewind(&older).map_err(WalError::Pager)?;
        db.checkpoint()?;
        older
    };
    let mut db = open(disk.clone())?;
    db.recover()?;
    assert_eq!(db.head(), older);
    assert_eq!(db.read_head(0)?.as_bytes(), b"older");

    let head = put(&mut db, 1, b"on top")?;
    let mut db = open(disk)?;
    db.recover()?;
    assert_eq!(db.head(), head);
    Ok(())
}

#[test]
fn three_commits_and_a_checkpoint_are_there_after_reopening() -> Result<(), WalError> {
    let disk = Disk::new();
    let head = {
        let mut db = open(disk.clone())?;
        put(&mut db, 0, b"a")?;
        put(&mut db, 0, b"b")?;
        db.checkpoint()?;
        put(&mut db, 0, b"c")?
    };
    let mut db = open(disk)?;
    let recovery = db.recover()?;
    assert_eq!(
        recovery,
        Recovery {
            committed_txns: 1,
            records_replayed: 2,
            torn_tail: false,
            uncommitted_writes_discarded: 0,
            durable_lsn: 6,
        }
    );
    assert_eq!(db.head(), head);
    assert_eq!(db.read_head(0)?.as_bytes(), b"c");
    Ok(())
}

#[test]
fn a_fresh_store_recovers_to_its_empty_root() -> Result<(), WalError> {
    let disk = Disk::new();
    let root_id = open(disk.clone())?.head();
    let mut db = open(disk)?;
    assert_eq!(db.recover()?, Recovery::default());
    assert_eq!(db.head(), root_id);
    Ok(())
}

#[test]
fn a_commit_on_a_head_that_was_moved_is_recovered() -> Result<(), WalError> {
    let disk = Disk::new();
    let head = {
        let mut db = open(disk.clone())?;
        let older = put(&mut db, 0, b"older")?;
        put(&mut db, 0, b"newer")?;
        db.pager_mut().rewind(&older).map_err(WalError::Pager)?;
        put(&mut db, 1, b"on top of the older one")?
    };
    let mut db = open(disk)?;
    db.recover()?;
    assert_eq!(db.head(), head);
    assert_eq!(db.read_head(0)?.as_bytes(), b"older");
    assert_eq!(db.read_head(1)?.as_bytes(), b"on top of the older one");
    Ok(())
}

#[test]
fn a_commit_that_changes_nothing_still_makes_a_moved_head_durable() -> Result<(), WalError> {
    let disk = Disk::new();
    let older = {
        let mut db = open(disk.clone())?;
        let older = put(&mut db, 0, b"older")?;
        put(&mut db, 0, b"newer")?;
        db.pager_mut().rewind(&older).map_err(WalError::Pager)?;
        assert_eq!(put(&mut db, 0, b"older")?, older);
        older
    };
    let mut db = open(disk)?;
    db.recover()?;
    assert_eq!(db.head(), older);
    assert_eq!(db.read_head(0)?.as_bytes(), b"older");
    Ok(())
}

#[test]
fn a_moved_head_survives_a_crash_at_any_byte_of_the_next_commit() -> Result<(), WalError> {
    for budget in 0..900i64 {
        let disk = Disk::new();
        let (older, newer) = {
            let mut db = open(disk.clone())?;
            (put(&mut db, 0, b"older")?, put(&mut db, 0, b"newer")?)
        };
        let mut acknowledged = None;
        if let Ok(mut db) = open(CrashVfs::with_budget(disk.clone(), budget)) {
            if db.recover().is_ok() && db.pager_mut().rewind(&older).is_ok() {
                acknowledged = put(&mut db, 1, b"on top").ok();
            }
        }
        let mut db = open(disk)?;
        db.recover()?;
        match acknowledged {
            Some(head) => assert_eq!(db.head(), head, "budget {budget}"),
            None => {
                let page = db.read_head(0)?.as_bytes().to_vec();
                assert!(page == b"older" || page == b"newer", "budget {budget}");
                assert!(page == b"older" || db.head() == newer, "budget {budget}");
            }
        }
    }
    Ok(())
}

#[test]
fn a_misnamed_segment_is_an_error() -> Result<(), WalError> {
    let mut disk = Disk::new();
    {
        let mut db = open(disk.clone())?;
        put(&mut db, 0, b"kept")?;
    }
    let stray = root().join("wal").join("7.wal");
    disk.atomic_write(&stray, b"").expect("a stray file");

    let mut db = open(disk.clone())?;
    match db.recover() {
        Err(WalError::Io { path, source: IoError::NotFound }) => {
            assert_eq!(path.to_text(), root().join("wal").join("000000000007.wal").to_text())
        }
        other => panic!("expected a missing segment, got {other:?}"),
    }

    disk.remove_file(&stray).expect("remove the stray file");
    let mut db = open(disk)?;
    db.recover()?;
    assert_eq!(db.read_head(0)?.as_bytes(), b"kept");
    Ok(())
}

#[test]
fn recovery_leaves_a_damaged_manifest_as_it_is() -> Result<(), WalError> {
    let mut disk = Disk::new();
    let head = {
        let mut db = open(disk.clone())?;
        put(&mut db, 0, b"content")?
    };
    let hex = head.to_hex();
    let file = root().join("manifests").join(&hex[0..2]).join(&hex);
    disk.atomic_write(&file, b"damaged").expect("damage the manifest");

    let mut db = open(disk.clone())?;
    assert_eq!(db.recover()?.committed_txns, 1);
    assert_eq!(db.head(), head);
    assert_eq!(disk.read(&file).expect("read"), b"damaged");
    assert!(matches!(
        db.read_head(0),
        Err(WalError::Pager(PagerError::Codec { op: "decode", .. }))
    ));
    Ok(())
}

#[test]
fn a_transaction_begun_before_a_rewind_keeps_its_base_and_is_recovered() -> Result<(), WalError> {
    let disk = Disk::new();
    let head = {
        let mut db = open(disk.clone())?;
        let older = put(&mut db, 0, b"older")?;
        put(&mut db, 0, b"newer")?;
        let mut txn = db.begin()?;
        db.write(&mut txn, 1, b"late".to_vec())?;
        db.pager_mut().rewind(&older).map_err(WalError::Pager)?;
        let head = db.commit(txn)?;
        assert_eq!(db.head(), head);
        assert_eq!(db.read_head(0)?.as_bytes(), b"newer");
        assert_eq!(db.read_head(1)?.as_bytes(), b"late");
        head
    };
    let mut db = open(disk)?;
    db.recover()?;
    assert_eq!(db.head(), head);
    assert_eq!(db.read_head(0)?.as_bytes(), b"newer");
    assert_eq!(db.read_head(1)?.as_bytes(), b"late");
    Ok(())
}

#[test]
fn a_segment_with_two_names_is_replayed_twice() -> Result<(), WalError> {
    let mut disk = Disk::new();
    let head = {
        let mut db = open(disk.clone())?;
        put(&mut db, 0, b"once")?
    };
    let once = open(disk.clone())?.recover()?;
    assert_eq!(once.committed_txns, 1);

    let twin = root().join("wal").join("0.wal");
    disk.atomic_write(&twin, b"never read").expect("a second name");
    let mut db = open(disk.clone())?;
    let twice = db.recover()?;
    assert_eq!(db.head(), head);
    assert_eq!(twice.committed_txns, 1, "the second time it changes nothing");
    assert_eq!(twice.records_replayed, 2 * once.records_replayed);
    assert_eq!(twice.durable_lsn, once.durable_lsn);
    assert_eq!(disk.read(&twin).expect("read"), b"never read");
    Ok(())
}

#[test]
fn a_second_replay_of_an_older_state_diverges() -> Result<(), WalError> {
    let mut disk = Disk::new();
    let (first, second) = {
        let mut db = open(disk.clone())?;
        (put(&mut db, 0, b"first")?, put(&mut db, 0, b"second")?)
    };
    let twin = root().join("wal").join("0.wal");
    disk.atomic_write(&twin, b"").expect("a second name");
    match open(disk.clone())?.recover() {
        Err(WalError::ReplayDiverged { expected, actual, .. }) => {
            assert_eq!(expected, first.to_hex());
            assert_ne!(actual, expected);
        }
        other => panic!("expected a divergence, got {other:?}"),
    }

    disk.remove_file(&twin).expect("remove the second name");
    let mut db = open(disk)?;
    db.recover()?;
    assert_eq!(db.head(), second);
    Ok(())
}

#[test]
fn unfinished_writes_are_cut_off_of_a_segment_with_two_names() -> Result<(), WalError> {
    let mut disk = Disk::new();
    let head = {
        let mut db = open(disk.clone())?;
        put(&mut db, 0, b"kept")?
    };
    let log = root().join("wal").join("000000000000.wal");
    let whole = disk.read(&log).expect("read");
    let never = Some(PageId::of(b"never"));
    let write = Record { lsn: 77, kind: RecordKind::Write { page_no: 0, page: never } };
    disk.append(&log, &write.encode()?).expect("a write");
    disk.append(&log, b"torn").expect("a torn tail");
    let twin = root().join("wal").join("0.wal");
    disk.atomic_write(&twin, b"").expect("a second name");

    let mut db = open(disk.clone())?;
    let recovery = db.recover()?;
    assert!(recovery.torn_tail);
    assert_eq!(recovery.uncommitted_writes_discarded, 1);
    assert_eq!(db.head(), head);
    assert_eq!(disk.read(&log).expect("read"), whole);
    assert!(db.checkpoint()? > 77, "no number is given out twice");
    Ok(())
}
