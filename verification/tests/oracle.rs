//! The store against the naive model, and what garbage collection may and must sweep.

use substrate::cas::MemStore;
use substrate::clock::ManualClock;
use substrate::error::PagerError;
use substrate::lockstep::{content_of as lockstep_content, Op, World};
use substrate::manifest::ManifestId;
use substrate::model::{ModelSnapshots, ModelStore};
use substrate::page::{LogicalPageNo, MIN_PAGE_SIZE};
use substrate::pager::{Fork, PageStore, Pager, StoreConfig};
use substrate::testing::Rng;

const PAGE_SIZE: usize = MIN_PAGE_SIZE;
const MAX_PAGE_NO: LogicalPageNo = 8;

type Db = Pager<MemStore, ManualClock>;

fn open() -> Result<Db, PagerError> {
    let config = StoreConfig { page_size: PAGE_SIZE, ..Default::default() };
    Pager::in_memory_with_clock(config, ManualClock::new(1_700_000_000_000))
}

fn content_of(byte: u8) -> Vec<u8> {
    vec![byte; 1 + (byte as usize % 64)]
}

fn write_fork(
    db: &mut Db,
    fork: &mut Fork,
    page_no: LogicalPageNo,
    bytes: Vec<u8>,
) -> Result<ManifestId, PagerError> {
    let mut txn = fork.begin();
    db.write(&mut txn, page_no, bytes)?;
    fork.commit(db, txn)
}

fn any_op(rng: &mut Rng) -> Op {
    let (x, y, z) = (rng.byte(), rng.byte(), rng.byte());
    match rng.below(13) {
        0..=3 => Op::Write { store: x, page_no: y, content: z },
        4 => Op::Remove { store: x, page_no: y },
        5 => Op::DeepWrite { store: x, page_no: y, rounds: z },
        6..=7 => Op::Snapshot { store: x },
        8..=9 => Op::Fork { snapshot: x },
        10 => Op::Rewind { store: x, snapshot: y },
        11 => Op::MergeBase { a: x, b: y },
        _ => Op::Gc,
    }
}

#[test]
fn engine_agrees_with_model_under_random_sessions() -> Result<(), PagerError> {
    for seed in 1..=48u64 {
        let mut rng = Rng::new(seed);
        let mut world = World::new(ManualClock::new(1_700_000_000_000))?;
        for _ in 0..(1 + rng.below(59)) {
            let op = any_op(&mut rng);
            assert!(world.apply(&op)?, "{op:?} found something out of place");
            assert!(world.check_agreement()?, "the store and the model disagree after {op:?}");
            assert!(world.check_snapshots()?, "a snapshot changed after {op:?}");
        }
    }
    Ok(())
}

#[test]
fn a_session_of_every_operation() -> Result<(), PagerError> {
    let mut world = World::new(ManualClock::new(7))?;
    let session = [
        Op::Fork { snapshot: 0 },
        Op::Rewind { store: 0, snapshot: 0 },
        Op::MergeBase { a: 0, b: 0 },
        Op::Write { store: 0, page_no: 3, content: 9 },
        Op::Snapshot { store: 0 },
        Op::Fork { snapshot: 0 },
        Op::DeepWrite { store: 1, page_no: 3, rounds: 17 },
        Op::Snapshot { store: 1 },
        Op::MergeBase { a: 0, b: 1 },
        Op::Remove { store: 0, page_no: 3 },
        Op::Rewind { store: 0, snapshot: 1 },
        Op::Gc,
    ];
    for op in &session {
        assert!(world.apply(op)?, "{op:?}");
        assert!(world.check_agreement()?, "{op:?}");
        assert!(world.check_snapshots()?, "{op:?}");
    }
    Ok(())
}

#[test]
fn content_is_a_byte_repeated() {
    assert_eq!(lockstep_content(0), vec![0; 1]);
    assert_eq!(lockstep_content(63), vec![63; 64]);
    assert_eq!(lockstep_content(64), vec![64; 1]);
    assert_eq!(lockstep_content(200), content_of(200));
}

#[test]
fn a_fork_can_never_be_seen_by_its_base() -> Result<(), PagerError> {
    for seed in 1..=64u64 {
        let mut rng = Rng::new(seed);
        let mut base = open()?;
        let mut txn = base.begin()?;
        for page_no in 0..MAX_PAGE_NO {
            base.write(&mut txn, page_no, b"BASE".to_vec())?;
        }
        let v1 = base.commit(txn)?;
        let mut fork = base.fork(&v1)?;
        for _ in 0..(1 + rng.below(23)) {
            let page_no = rng.below(MAX_PAGE_NO);
            let bytes = content_of(rng.byte());
            write_fork(&mut base, &mut fork, page_no, bytes)?;
        }
        for page_no in 0..MAX_PAGE_NO {
            assert_eq!(base.read_head(page_no)?.as_bytes(), b"BASE");
            assert_eq!(base.read(&v1, page_no)?.as_bytes(), b"BASE");
        }
    }
    Ok(())
}

#[test]
fn diff_names_exactly_the_pages_that_changed() -> Result<(), PagerError> {
    for seed in 1..=64u64 {
        let mut rng = Rng::new(seed);
        let mut db = open()?;
        let mut model = ModelStore::new();
        let mut snaps = ModelSnapshots::new();
        let mut ids = Vec::new();
        let mut handles = Vec::new();
        for _ in 0..2 {
            let mut txn = db.begin()?;
            for _ in 0..rng.below(12) {
                let page_no = rng.below(MAX_PAGE_NO);
                let bytes = content_of(rng.byte());
                db.write(&mut txn, page_no, bytes.clone())?;
                model.write(page_no, bytes);
            }
            ids.push(db.commit(txn)?);
            handles.push(snaps.take(model.head()));
        }
        let real: Vec<LogicalPageNo> =
            db.diff(&ids[0], &ids[1])?.changes.iter().map(|(no, _)| *no).collect();
        assert_eq!(real, snaps.diff(handles[0], handles[1]), "diff disagreed with the model");
    }
    Ok(())
}

#[test]
fn gc_never_collects_a_page_that_something_still_points_at() -> Result<(), PagerError> {
    let mut db = open()?;

    let mut snapshots = Vec::new();
    for round in 0..3u8 {
        let mut txn = db.begin()?;
        for page_no in 0..MAX_PAGE_NO {
            db.write(&mut txn, page_no, content_of(round * 10 + page_no as u8))?;
        }
        snapshots.push(db.commit(txn)?);
    }

    let mut fork = db.fork(&snapshots[1])?;
    let fork_head = write_fork(&mut db, &mut fork, 0, b"only on the fork".to_vec())?;

    db.rewind(&snapshots[0])?;

    let live = [snapshots[0], snapshots[1], snapshots[2], fork_head];
    let stats = db.gc(&live)?;

    for manifest_id in &live {
        let pages = db.resolve(manifest_id)?;
        for page_no in pages.keys() {
            if let Err(e) = db.read(manifest_id, *page_no) {
                panic!("GC collected a live page {page_no} of {manifest_id:?}: {e:?}");
            }
        }
    }
    assert_eq!(stats.pages_swept, 0, "nothing was garbage: {}", stats.describe());

    let live = [snapshots[0]];
    let stats = db.gc(&live)?;
    assert!(
        stats.pages_swept > 0,
        "the abandoned branch should have been swept: {}",
        stats.describe()
    );
    assert!(
        stats.manifests_swept > 0,
        "abandoned manifests should have been swept: {}",
        stats.describe()
    );

    let pages = db.resolve(&snapshots[0])?;
    for page_no in pages.keys() {
        db.read(&snapshots[0], *page_no)?;
    }
    Ok(())
}

#[test]
fn gc_does_not_collect_pages_staged_by_an_open_transaction() -> Result<(), PagerError> {
    let mut db = open()?;

    let mut txn = db.begin()?;
    db.write(&mut txn, 0, b"staged, not yet committed".to_vec())?;

    let head = db.head();
    let stats = db.gc(&[head])?;
    assert_eq!(
        stats.pages_swept,
        0,
        "an in-flight transaction's pages were collected: {}",
        stats.describe()
    );

    let committed = db.commit(txn)?;
    assert_eq!(db.read(&committed, 0)?.as_bytes(), b"staged, not yet committed");
    Ok(())
}

#[test]
fn gc_collects_pages_from_an_abandoned_transaction() -> Result<(), PagerError> {
    let mut db = open()?;

    let mut txn = db.begin()?;
    db.write(&mut txn, 0, b"this will be thrown away".to_vec())?;
    db.abandon(txn);

    let head = db.head();
    let stats = db.gc(&[head])?;
    assert_eq!(
        stats.pages_swept,
        1,
        "an abandoned write must not leak disk forever: {}",
        stats.describe()
    );
    Ok(())
}

#[test]
fn a_snapshot_does_not_change_when_the_database_does() -> Result<(), PagerError> {
    let mut db = open()?;

    let mut txn = db.begin()?;
    db.write(&mut txn, 0, b"as it was".to_vec())?;
    let past = db.commit(txn)?;

    for round in 0..32u8 {
        let mut txn = db.begin()?;
        db.write(&mut txn, 0, content_of(round))?;
        db.commit(txn)?;

        assert_eq!(
            db.read(&past, 0)?.as_bytes(),
            b"as it was",
            "the past changed after write {round}"
        );
    }
    Ok(())
}

#[test]
fn rewriting_identical_content_is_a_no_op() -> Result<(), PagerError> {
    let mut db = open()?;

    let mut txn = db.begin()?;
    db.write(&mut txn, 0, b"same".to_vec())?;
    let first = db.commit(txn)?;

    let mut txn = db.begin()?;
    db.write(&mut txn, 0, b"same".to_vec())?;
    let second = db.commit(txn)?;

    assert_eq!(first, second, "identical content must produce an identical manifest id");
    Ok(())
}

#[test]
fn a_second_collection_sweeps_nothing() -> Result<(), PagerError> {
    let mut db = open()?;
    for round in 0..5u8 {
        let mut txn = db.begin()?;
        db.write(&mut txn, 0, content_of(round))?;
        db.commit(txn)?;
    }
    let first = db.head();
    db.gc(&[first])?;
    let again = db.gc(&[first])?;
    assert!(again.is_clean());
    assert_eq!(again.swept(), 0);
    assert_eq!(again.pages_retained, 5);
    Ok(())
}

#[test]
fn the_model_compares_by_content() {
    let mut store = ModelStore::new();
    let mut snaps = ModelSnapshots::new();
    store.write(3, vec![1]);
    store.write(5, vec![2]);
    let a = snaps.take(store.head());
    store.write(3, vec![1]);
    store.write(5, vec![9]);
    store.write(7, vec![4]);
    let b = snaps.take(store.head());
    assert_eq!(snaps.diff(a, b), vec![5, 7]);
    assert_eq!(snaps.diff(a, a), Vec::<u64>::new());
    assert_eq!(snaps.diff(a, 99), Vec::<u64>::new());
    assert_eq!(snaps.read_at(b, 7), Some(&[4u8][..]));
    assert_eq!(snaps.read_at(a, 7), None);
    assert_eq!(store.read(5), Some(&[9u8][..]));
}
