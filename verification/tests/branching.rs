//! Branch trees at depth: overlay chains, collapse, merge bases, deep forks, keyed stores.

use std::collections::BTreeMap;
use substrate::cas::MemStore;
use substrate::clock::ManualClock;
use substrate::diff::PageClass;
use substrate::error::PagerError;
use substrate::manifest::{Manifest, ManifestId, MAX_OVERLAY_DEPTH};
use substrate::page::{LogicalPageNo, PageHasher, PageId, MIN_PAGE_SIZE};
use substrate::pager::{Fork, IdentityPolicy, PageStore, Pager, StoreConfig};

type Db = Pager<MemStore, ManualClock>;

fn clock() -> ManualClock {
    ManualClock::new(1_700_000_000_000)
}

fn config() -> StoreConfig {
    StoreConfig { page_size: MIN_PAGE_SIZE, ..Default::default() }
}

fn open() -> Result<Db, PagerError> {
    Pager::in_memory_with_clock(config(), clock())
}

fn write(db: &mut Db, page_no: LogicalPageNo, bytes: &[u8]) -> Result<(), PagerError> {
    let mut txn = db.begin()?;
    db.write(&mut txn, page_no, bytes.to_vec())?;
    db.commit(txn)?;
    Ok(())
}

fn write_fork(
    db: &mut Db,
    fork: &mut Fork,
    page_no: LogicalPageNo,
    bytes: &[u8],
) -> Result<ManifestId, PagerError> {
    let mut txn = fork.begin();
    db.write(&mut txn, page_no, bytes.to_vec())?;
    fork.commit(db, txn)
}

#[test]
fn overlay_chains_stay_correct_and_collapse_at_the_limit() -> Result<(), PagerError> {
    let mut db = open()?;

    let mut txn = db.begin()?;
    for page_no in 0..20u64 {
        db.write(&mut txn, page_no, format!("base-{page_no}").into_bytes())?;
    }
    db.commit(txn)?;
    assert!(db.manifest(&db.head())?.is_flat() || db.manifest(&db.head())?.depth() == 1);

    let mut expected: BTreeMap<LogicalPageNo, Vec<u8>> =
        (0..20u64).map(|n| (n, format!("base-{n}").into_bytes())).collect();

    let mut depths = Vec::new();

    for round in 0..(MAX_OVERLAY_DEPTH * 3) {
        let page_no = (round as u64) % 20;
        let bytes = format!("round-{round}").into_bytes();
        write(&mut db, page_no, &bytes)?;
        expected.insert(page_no, bytes);

        let manifest = db.manifest(&db.head())?;
        depths.push(manifest.depth());

        assert!(
            manifest.depth() <= MAX_OVERLAY_DEPTH,
            "the overlay chain grew to depth {}",
            manifest.depth()
        );

        let head = db.head();
        let resolved = db.resolve(&head)?;
        assert_eq!(resolved.len(), expected.len(), "page count drifted at round {round}");
        for (page_no, want) in &expected {
            assert_eq!(
                db.read_head(*page_no)?.as_bytes(),
                want.as_slice(),
                "page {page_no} read back wrong at round {round} (depth {})",
                manifest.depth()
            );
        }
    }

    let collapses = depths.windows(2).filter(|w| w[1] < w[0]).count();
    assert!(collapses >= 2, "the chain never collapsed; depths were {depths:?}");
    Ok(())
}

#[test]
fn a_deleted_page_stays_deleted_through_a_deep_chain() -> Result<(), PagerError> {
    let mut db = open()?;

    write(&mut db, 0, b"alive")?;
    write(&mut db, 1, b"also alive")?;

    let mut txn = db.begin()?;
    db.remove(&mut txn, 0)?;
    db.commit(txn)?;

    for round in 0..(MAX_OVERLAY_DEPTH * 2) {
        write(&mut db, 1, format!("round-{round}").into_bytes().as_slice())?;

        assert!(
            db.read_head(0).is_err(),
            "page 0 was resurrected from under its own tombstone at round {round}"
        );
        let head = db.head();
        assert!(!db.resolve(&head)?.contains_key(&0));
    }
    Ok(())
}

#[test]
fn gc_never_collects_an_overlay_base() -> Result<(), PagerError> {
    let mut db = open()?;

    let mut txn = db.begin()?;
    for page_no in 0..10u64 {
        db.write(&mut txn, page_no, format!("v0-{page_no}").into_bytes())?;
    }
    db.commit(txn)?;

    for round in 0..(MAX_OVERLAY_DEPTH - 1) {
        write(&mut db, round as u64, format!("v1-{round}").into_bytes().as_slice())?;
    }

    let head = db.head();
    let manifest = db.manifest(&head)?;
    assert!(!manifest.is_flat(), "we want an overlay head for this test");
    assert!(manifest.depth() > 1, "and a chain worth collecting");

    let stats = db.gc(&[head])?;

    let pages = db.resolve(&head)?;
    assert_eq!(pages.len(), 10);
    for page_no in pages.keys() {
        if let Err(e) = db.read(&head, *page_no) {
            panic!(
                "GC collected an overlay base: page {page_no} of the head is gone ({e:?}). {}",
                stats.describe()
            );
        }
    }
    Ok(())
}

#[test]
fn merge_base_finds_the_fork_point() -> Result<(), PagerError> {
    let mut db = open()?;

    write(&mut db, 0, b"common history")?;
    write(&mut db, 1, b"still common")?;
    let fork_point = db.head();

    write(&mut db, 2, b"only on A")?;
    write(&mut db, 3, b"also only on A")?;
    let a = db.head();

    let mut branch_b = db.fork(&fork_point)?;
    write_fork(&mut db, &mut branch_b, 2, b"only on B")?;
    let b = branch_b.head();

    assert_eq!(
        db.merge_base(&a, &b)?,
        Some(fork_point),
        "the merge base must be the last manifest both branches share"
    );
    assert_eq!(db.merge_base(&b, &a)?, Some(fork_point));
    assert_eq!(db.merge_base(&a, &a)?, Some(a));
    assert_eq!(db.merge_base(&fork_point, &a)?, Some(fork_point));
    Ok(())
}

#[test]
fn three_way_diff_over_a_real_fork() -> Result<(), PagerError> {
    let mut db = open()?;

    let mut txn = db.begin()?;
    for page_no in 0..4u64 {
        db.write(&mut txn, page_no, b"base".to_vec())?;
    }
    let base = db.commit(txn)?;

    write(&mut db, 1, b"A")?;
    write(&mut db, 3, b"conflicting-A")?;
    let a = db.head();

    let mut branch_b = db.fork(&base)?;
    write_fork(&mut db, &mut branch_b, 2, b"B")?;
    write_fork(&mut db, &mut branch_b, 3, b"conflicting-B")?;
    let b = branch_b.head();

    let merge_base =
        db.merge_base(&a, &b)?.ok_or(PagerError::MalformedId("no merge base".into()))?;
    assert_eq!(merge_base, base);

    let diff = db.diff3(&merge_base, &a, &b)?;
    let classes: BTreeMap<LogicalPageNo, PageClass> = diff.entries.iter().copied().collect();

    assert!(!classes.contains_key(&0), "an untouched page must not appear");
    assert_eq!(classes[&1], PageClass::AOnly);
    assert_eq!(classes[&2], PageClass::BOnly);
    assert!(matches!(classes[&3], PageClass::Conflict { .. }));
    assert_eq!(diff.conflicts().len(), 1);
    Ok(())
}

#[test]
fn deep_fork_trees_stay_isolated() -> Result<(), PagerError> {
    let mut db = open()?;
    write(&mut db, 0, b"root")?;

    let mut stores: Vec<Fork> = Vec::new();
    let mut current = db.head();

    for level in 0..12u64 {
        let mut fork = db.fork(&current)?;
        write_fork(
            &mut db,
            &mut fork,
            level + 1,
            format!("level-{level}").into_bytes().as_slice(),
        )?;
        current = fork.head();
        stores.push(fork);
    }

    for (level, store) in stores.iter().enumerate() {
        for below in 0..=level {
            assert_eq!(
                store.read_head(&mut db, below as u64 + 1)?.as_bytes(),
                format!("level-{below}").as_bytes(),
                "level {level} lost the marker from level {below}"
            );
        }
        for above in (level + 1)..12 {
            assert!(
                store.read_head(&mut db, above as u64 + 1).is_err(),
                "level {level} can see level {above}'s write — a fork leaked backwards"
            );
        }
    }

    let head = db.head();
    assert_eq!(db.resolve(&head)?.len(), 1);
    Ok(())
}

#[test]
fn rewind_abandons_without_destroying() -> Result<(), PagerError> {
    let mut db = open()?;

    write(&mut db, 0, b"v1")?;
    let v1 = db.head();
    write(&mut db, 0, b"v2")?;
    let v2 = db.head();
    write(&mut db, 0, b"v3")?;
    let v3 = db.head();

    db.rewind(&v1)?;
    assert_eq!(db.read_head(0)?.as_bytes(), b"v1");

    assert_eq!(db.read(&v2, 0)?.as_bytes(), b"v2");
    assert_eq!(db.read(&v3, 0)?.as_bytes(), b"v3");

    let stats = db.gc(&[v1])?;
    assert!(
        stats.manifests_swept > 0,
        "the abandoned suffix should be collectable: {}",
        stats.describe()
    );
    assert!(db.manifest(&v3).is_err(), "v3 should be gone");
    assert_eq!(db.read_head(0)?.as_bytes(), b"v1", "and v1 is untouched");
    Ok(())
}

// ---- keyed stores ----

fn cui_config(pool_key: [u8; 32]) -> StoreConfig {
    StoreConfig {
        hasher: PageHasher::Keyed(pool_key),
        pool: "cui-secret".to_string(),
        policy: IdentityPolicy::KeyedOnly,
        ..Default::default()
    }
}

#[test]
fn an_unkeyed_store_cannot_be_created_in_this_build() {
    let config = StoreConfig { policy: IdentityPolicy::KeyedOnly, ..Default::default() };
    let err = Pager::<MemStore, ManualClock>::in_memory_with_clock(config, clock());
    assert!(
        matches!(err, Err(PagerError::UnkeyedStoreInKeyedBuild)),
        "plaintext-confirmable page identity must be refused outright, not merely discouraged"
    );
}

#[test]
fn a_keyed_store_works_exactly_like_a_normal_one() -> Result<(), PagerError> {
    let mut db = Pager::in_memory_with_clock(cui_config([7; 32]), clock())?;

    let mut txn = db.begin()?;
    db.write(&mut txn, 0, b"classified".to_vec())?;
    let v1 = db.commit(txn)?;

    assert_eq!(db.read_head(0)?.as_bytes(), b"classified");

    let mut fork = db.fork(&v1)?;
    write_fork(&mut db, &mut fork, 0, b"a different classification")?;

    assert_eq!(db.read_head(0)?.as_bytes(), b"classified");
    Ok(())
}

#[test]
fn the_same_plaintext_in_two_pools_is_not_the_same_page() -> Result<(), PagerError> {
    let mut alpha = Pager::in_memory_with_clock(cui_config([1; 32]), clock())?;
    let mut bravo = Pager::in_memory_with_clock(cui_config([2; 32]), clock())?;

    let secret = b"TROOP MOVEMENT 0400 GRID 12345".to_vec();

    let mut txn = alpha.begin()?;
    let in_alpha = alpha.write(&mut txn, 0, secret.clone())?;
    alpha.commit(txn)?;

    let mut txn = bravo.begin()?;
    let in_bravo = bravo.write(&mut txn, 0, secret.clone())?;
    bravo.commit(txn)?;

    assert_ne!(
        in_alpha, in_bravo,
        "identical plaintext in two pools produced the same page id — cross-pool membership leak"
    );
    assert_ne!(in_alpha, PageId::of(&secret));
    assert_ne!(in_bravo, PageId::of(&secret));
    Ok(())
}

// ---- refusals ----

#[test]
fn opening_with_a_bad_page_size_is_refused() {
    let config = StoreConfig { page_size: 5000, ..Default::default() };
    assert!(matches!(
        Pager::<MemStore, ManualClock>::in_memory_with_clock(config, clock()),
        Err(PagerError::InvalidPageSize(5000))
    ));
}

#[test]
fn an_oversized_write_leaves_the_transaction_empty() -> Result<(), PagerError> {
    let mut db = open()?;
    let mut txn = db.begin()?;
    match db.write(&mut txn, 0, vec![1; MIN_PAGE_SIZE + 1]) {
        Err(PagerError::PageTooLarge { actual, page_size }) => {
            assert_eq!((actual, page_size), (MIN_PAGE_SIZE + 1, MIN_PAGE_SIZE));
        }
        other => panic!("{other:?}"),
    }
    assert!(txn.is_empty());
    let head = db.head();
    assert_eq!(db.commit(txn)?, head);
    Ok(())
}

#[test]
fn unknown_manifests_and_pages_are_named_in_the_error() -> Result<(), PagerError> {
    let mut db = open()?;
    let ghost = ManifestId::from_bytes([9; 32]);
    match db.rewind(&ghost) {
        Err(PagerError::MissingManifest(hex)) => assert_eq!(hex, ghost.to_hex()),
        other => panic!("{other:?}"),
    }
    assert!(db.fork(&ghost).is_err());
    let head = db.head();
    match db.read_head(17) {
        Err(PagerError::PageNotFound { page_no, manifest }) => {
            assert_eq!(page_no, 17);
            assert_eq!(manifest, head.to_hex());
        }
        other => panic!("{other:?}"),
    }
    Ok(())
}

#[test]
fn a_collection_that_cannot_read_its_roots_takes_nothing() -> Result<(), PagerError> {
    let mut db = open()?;
    write(&mut db, 0, b"one")?;
    let older = db.head();
    write(&mut db, 0, b"two")?;
    let newer = db.head();

    let unknown = ManifestId::from_bytes([7; 32]);
    assert!(matches!(db.gc(&[newer, unknown]), Err(PagerError::MissingManifest(_))));
    assert_eq!(db.read(&older, 0)?.as_bytes(), b"one");
    assert_eq!(db.read(&newer, 0)?.as_bytes(), b"two");

    let stats = db.gc(&[newer])?;
    assert!(db.read(&newer, 0).is_ok());
    let again = db.gc(&[newer])?;
    assert!(again.is_clean());
    assert_eq!(again.swept(), 0);
    assert_eq!(again.pages_retained, stats.pages_retained);
    assert_eq!(again.manifests_retained, stats.manifests_retained);
    Ok(())
}

#[test]
fn a_committed_manifest_is_read_back_as_it_was_derived() -> Result<(), PagerError> {
    let mut db = open()?;
    let root = db.manifest(&db.head())?;
    assert!(root.is_flat() && root.is_empty());
    assert_eq!((root.depth(), root.parent), (0, None));

    for depth in 1..=MAX_OVERLAY_DEPTH {
        let base = db.head();
        write(&mut db, depth as u64, b"x")?;
        let m = db.manifest(&db.head())?;
        assert_eq!(m.parent, Some(base));
        assert_eq!(m.overlay_base(), Some(base));
        assert_eq!(m.depth(), depth);
        assert_eq!(m.len(), depth as usize);
        let changes = m.changes().expect("an overlay has changes");
        assert_eq!(changes.keys().copied().collect::<Vec<u64>>(), vec![depth as u64]);
    }

    let base = db.head();
    let before = db.manifest(&base)?;
    let mut txn = db.begin()?;
    db.remove(&mut txn, 1)?;
    db.write(&mut txn, 50, b"new".to_vec())?;
    db.commit(txn)?;
    let flat = db.manifest(&db.head())?;
    assert_eq!(flat.parent, Some(base));
    assert_eq!((flat.depth(), flat.overlay_base()), (0, None));
    let pages = flat.flat_pages().expect("flat at the limit");
    assert_eq!(pages.keys().copied().collect::<Vec<u64>>(), vec![2, 3, 4, 5, 6, 7, 8, 50]);
    assert_eq!(db.manifest(&base)?.id()?, before.id()?);
    assert_eq!(db.resolve(&base)?.len(), 8);
    Ok(())
}

#[test]
fn rewriting_a_page_or_removing_an_absent_one_keeps_the_count() -> Result<(), PagerError> {
    let mut db = open()?;
    write(&mut db, 0, b"a")?;
    write(&mut db, 1, b"b")?;
    let mut txn = db.begin()?;
    db.write(&mut txn, 0, b"changed".to_vec())?;
    db.remove(&mut txn, 9)?;
    db.commit(txn)?;
    assert_eq!(db.manifest(&db.head())?.len(), 2);

    let mut txn = db.begin()?;
    db.remove(&mut txn, 0)?;
    db.remove(&mut txn, 1)?;
    db.commit(txn)?;
    let m = db.manifest(&db.head())?;
    assert_eq!(m.len(), 0);
    assert!(m.is_empty());
    Ok(())
}

#[test]
fn every_read_of_a_missing_manifest_names_it() -> Result<(), PagerError> {
    let mut db = open()?;
    write(&mut db, 0, b"one")?;
    let head = db.head();
    let ghost = ManifestId::from_bytes([9; 32]);
    let errors = [
        db.manifest(&ghost).err(),
        db.resolve(&ghost).err(),
        db.lookup(&ghost, 0).err(),
        db.read(&ghost, 0).err(),
        db.diff(&ghost, &head).err(),
        db.diff(&head, &ghost).err(),
        db.diff3(&head, &ghost, &head).err(),
        db.merge_base(&head, &ghost).err(),
        db.gc(&[head, ghost]).err(),
        db.derive_next(ghost, &BTreeMap::new(), 0).err(),
    ];
    for (n, e) in errors.into_iter().enumerate() {
        match e {
            Some(PagerError::MissingManifest(hex)) => assert_eq!(hex, ghost.to_hex(), "read {n}"),
            other => panic!("read {n}: {other:?}"),
        }
    }
    assert_eq!(db.read(&head, 0)?.as_bytes(), b"one");
    Ok(())
}

#[test]
fn a_lost_base_is_the_manifest_that_is_missed() -> Result<(), PagerError> {
    let mut db = open()?;
    write(&mut db, 0, b"one")?;
    let base = db.head();
    write(&mut db, 1, b"two")?;
    let head = db.head();
    assert_eq!(db.manifest(&head)?.overlay_base(), Some(base));
    let bytes = db.manifest(&head)?.encode()?;

    let mut elsewhere = open()?;
    let copy = Manifest::decode(&bytes)?;
    elsewhere.install(&copy)?;
    for e in [elsewhere.resolve(&head).err(), elsewhere.read(&head, 0).err()] {
        match e {
            Some(PagerError::MissingManifest(hex)) => assert_eq!(hex, base.to_hex()),
            other => panic!("{other:?}"),
        }
    }
    Ok(())
}
