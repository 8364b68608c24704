//! Pages, page ids, page stores, manifests, diffs and scrubbing.

use std::collections::BTreeMap;
use substrate::cas::{Cas, ManifestStore, MemCas, MemManifestStore, MemStore, Parts};
use substrate::diff::{PageChange, PageClass, PageDiff, ThreeWayDiff};
use substrate::error::{IoError, PagerError};
use substrate::fsstore::FsStore;
use substrate::manifest::{
    Manifest, ManifestBody, ManifestId, PageChanges, PageMap, MAX_OVERLAY_DEPTH,
};
use substrate::metrics::NoMetrics;
use substrate::page::{
    validate_page_size, LogicalPageNo, Page, PageHasher, PageId, PageIdSet, DEFAULT_PAGE_SIZE,
    MIN_PAGE_SIZE,
};
use substrate::pager::PinRegistry;
use substrate::path::VPath;
use substrate::scrub::Scrubber;
use substrate::testing::MemVfs;
use substrate::vfs::Vfs;

fn root() -> VPath {
    VPath::new().join("db")
}

fn page(bytes: &[u8]) -> Page {
    Page::new(&PageHasher::Unkeyed, bytes.to_vec(), DEFAULT_PAGE_SIZE).expect("valid page")
}

fn fs() -> FsStore<MemVfs> {
    FsStore::open(MemVfs::new(), &root(), PageHasher::Unkeyed).expect("open fs store")
}

fn page_path(id: PageId) -> VPath {
    let hex = id.to_hex();
    root().join("pages").join(&hex[0..2]).join(&hex[2..4]).join(&hex)
}

fn round_trip<C: Cas>(name: &str, mut cas: C) {
    let p = page(b"the quick brown fox");
    cas.put(&p).unwrap_or_else(|e| panic!("{name}: put: {e:?}"));
    let got = cas.get(p.id()).unwrap_or_else(|e| panic!("{name}: get: {e:?}"));
    assert_eq!(got.as_bytes(), p.as_bytes(), "{name}");
    assert!(cas.contains(p.id()).expect("contains"), "{name}");
}

#[test]
fn round_trips_bytes() {
    round_trip("fs", fs());
    round_trip("mem", MemCas::new(PageHasher::Unkeyed));
}

fn put_twice<C: Cas>(name: &str, mut cas: C) {
    let p = page(b"same bytes");
    cas.put(&p).expect("put");
    cas.put(&p).expect("put again");
    assert_eq!(cas.list().expect("list").len(), 1, "{name}: deduplicated");
}

#[test]
fn cas_put_is_idempotent() {
    put_twice("fs", fs());
    put_twice("mem", MemCas::new(PageHasher::Unkeyed));
}

fn look_for_absent<C: Cas>(cas: C) {
    let absent = PageId::of(b"never stored");
    assert!(matches!(cas.get(absent), Err(PagerError::MissingPage(_))));
    assert!(!cas.contains(absent).expect("contains"));
}

#[test]
fn missing_page_is_an_error_not_a_panic() {
    look_for_absent(fs());
    look_for_absent(MemCas::new(PageHasher::Unkeyed));
}

fn remove_twice<C: Cas>(mut cas: C) {
    let p = page(b"transient");
    cas.put(&p).expect("put");
    cas.remove(p.id()).expect("remove");
    cas.remove(p.id()).expect("remove again is not an error");
    assert!(!cas.contains(p.id()).expect("contains"));
}

#[test]
fn remove_is_idempotent_because_gc_can_be_interrupted() {
    remove_twice(fs());
    remove_twice(MemCas::new(PageHasher::Unkeyed));
}

#[test]
fn corruption_on_disk_is_detected_on_read() {
    let mut cas = fs();
    let p = page(b"honest bytes");
    Cas::put(&mut cas, &p).expect("put");

    cas.vfs_mut().atomic_write(&page_path(p.id()), b"tampered with").expect("corrupt the page");

    let err = Cas::get(&cas, p.id());
    assert!(
        matches!(err, Err(PagerError::CorruptPage { .. })),
        "silent corruption must never be served, got {err:?}"
    );
    assert!(err.expect_err("is err").is_corruption());
}

#[test]
fn temp_files_are_not_mistaken_for_pages() {
    let mut cas = fs();
    let p = page(b"real");
    Cas::put(&mut cas, &p).expect("put");

    let hex = p.id().to_hex();
    let shard = root().join("pages").join(&hex[0..2]).join(&hex[2..4]);
    cas.vfs_mut().atomic_write(&shard.join(".tmp.deadbeef"), b"garbage").expect("write temp");

    assert_eq!(
        Cas::list(&cas).expect("list"),
        vec![p.id()],
        "a crashed write must not look like a page"
    );
}

#[test]
fn pins_keep_uncommitted_pages_alive() {
    let mut pins = PinRegistry::new();
    let id = PageId::of(b"staged but not yet committed");

    assert!(pins.pinned().is_empty());
    pins.pin(id);
    assert!(pins.pinned().contains(&id), "GC must see this as a root");

    pins.pin(id);
    pins.unpin(id);
    assert!(pins.pinned().contains(&id), "still held by the second txn");

    pins.unpin(id);
    assert!(pins.pinned().is_empty(), "now collectable");
}

// ---- diffs ----

fn m(pages: &[(LogicalPageNo, &[u8])]) -> PageMap {
    pages.iter().map(|(no, bytes)| (*no, PageId::of(bytes))).collect()
}

fn ids() -> (ManifestId, ManifestId, ManifestId) {
    (
        ManifestId::from_bytes([0; 32]),
        ManifestId::from_bytes([1; 32]),
        ManifestId::from_bytes([2; 32]),
    )
}

#[test]
fn diff_reports_add_modify_remove() {
    let from = m(&[(0, b"a"), (1, b"b")]);
    let to = m(&[(0, b"a"), (1, b"b-changed"), (2, b"c")]);
    let diff = PageDiff::between(&from, &to);

    assert_eq!(diff.len(), 2, "page 0 is unchanged and must not appear");
    assert_eq!(
        diff.changes[0],
        (1, PageChange::Modified { from: PageId::of(b"b"), to: PageId::of(b"b-changed") })
    );
    assert_eq!(diff.changes[1], (2, PageChange::Added(PageId::of(b"c"))));

    let back = PageDiff::between(&to, &from);
    assert_eq!(back.changes[1], (2, PageChange::Removed(PageId::of(b"c"))));
}

#[test]
fn identical_manifests_diff_to_nothing() {
    let a = m(&[(0, b"x"), (4, b"y")]);
    assert!(PageDiff::between(&a, &a.clone()).is_empty());
}

#[test]
fn ranges_coalesce_contiguous_pages() {
    let from = m(&[]);
    let to = m(&[(1, b"a"), (2, b"b"), (3, b"c"), (10, b"d"), (11, b"e")]);
    assert_eq!(PageDiff::between(&from, &to).ranges(), vec![(1, 3), (10, 11)]);
}

#[test]
fn three_way_classifies_every_case() {
    let (bi, ai, b_i) = ids();
    let base = m(&[(0, b"same"), (1, b"base"), (2, b"base"), (3, b"base")]);
    let a = m(&[
        (0, b"same"),
        (1, b"a-edit"),
        (2, b"base"),
        (3, b"conflict-a"),
        (4, b"convergent"),
    ]);
    let b = m(&[
        (0, b"same"),
        (1, b"base"),
        (2, b"b-edit"),
        (3, b"conflict-b"),
        (4, b"convergent"),
    ]);

    let diff = ThreeWayDiff::compute(bi, ai, b_i, &base, &a, &b);
    let classes: BTreeMap<LogicalPageNo, PageClass> = diff.entries.iter().copied().collect();

    assert!(!classes.contains_key(&0), "unchanged pages must be omitted");
    assert_eq!(classes[&1], PageClass::AOnly);
    assert_eq!(classes[&2], PageClass::BOnly);
    assert!(matches!(classes[&3], PageClass::Conflict { .. }));
    assert_eq!(
        classes[&4],
        PageClass::BothSame,
        "two agents deriving the same fact is convergence, not conflict"
    );

    assert!(!diff.is_clean());
    assert_eq!(diff.conflicts().len(), 1);
}

#[test]
fn a_merge_where_only_one_side_moved_is_clean() {
    let (bi, ai, b_i) = ids();
    let base = m(&[(0, b"base")]);
    let a = m(&[(0, b"a-edit")]);
    let b = base.clone();

    let diff = ThreeWayDiff::compute(bi, ai, b_i, &base, &a, &b);
    assert!(diff.is_clean());
    assert_eq!(diff.entries, vec![(0, PageClass::AOnly)]);
}

#[test]
fn delete_versus_modify_is_a_conflict_we_refuse_to_guess() {
    let (bi, ai, b_i) = ids();
    let base = m(&[(0, b"base")]);
    let a = m(&[]);
    let b = m(&[(0, b"b-edit")]);

    let diff = ThreeWayDiff::compute(bi, ai, b_i, &base, &a, &b);
    assert_eq!(diff.conflicts().len(), 1);
}

#[test]
fn a_huge_database_with_a_tiny_change_produces_a_tiny_diff() {
    let pages: Vec<(LogicalPageNo, &[u8])> = (0..10_000).map(|i| (i, b"cold" as &[u8])).collect();
    let base = m(&pages);
    let mut a = base.clone();
    a.insert(4_242, PageId::of(b"one hot page"));
    let b = base.clone();

    let (bi, ai, b_i) = ids();
    let diff = ThreeWayDiff::compute(bi, ai, b_i, &base, &a, &b);
    assert_eq!(diff.len(), 1);
    assert_eq!(diff.entries[0].0, 4_242);
}

// ---- manifests ----

fn flat(pages: &[(LogicalPageNo, &[u8])]) -> Manifest {
    let mut m = Manifest::empty(DEFAULT_PAGE_SIZE);
    let map: PageMap = pages.iter().map(|(no, bytes)| (*no, PageId::of(bytes))).collect();
    m.page_count = map.len() as u64;
    m.body = ManifestBody::Flat(map);
    m
}

#[test]
fn identical_manifests_have_identical_ids() -> Result<(), PagerError> {
    let a = flat(&[(0, b"x"), (1, b"y")]);
    let b = flat(&[(1, b"y"), (0, b"x")]);
    assert_eq!(
        a.id()?,
        b.id()?,
        "insertion order must not affect identity — BTreeMap, not HashMap"
    );
    Ok(())
}

#[test]
fn manifest_encoding_is_deterministic() -> Result<(), PagerError> {
    let m = flat(&[(7, b"seven"), (2, b"two"), (99, b"ninety-nine")]);
    let first = m.encode()?;
    for _ in 0..64 {
        assert_eq!(m.encode()?, first);
    }
    Ok(())
}

#[test]
fn manifest_round_trips_through_bytes() -> Result<(), PagerError> {
    let m = flat(&[(0, b"a"), (5, b"b")]);
    let decoded = Manifest::decode(&m.encode()?)?;
    assert_eq!(decoded, m);
    assert_eq!(decoded.id()?, m.id()?);
    Ok(())
}

#[test]
fn a_shallow_commit_produces_an_overlay_not_a_copy() -> Result<(), PagerError> {
    let base = flat(&[(0, b"a"), (1, b"b")]);
    let base_id = base.id()?;

    let mut changes = PageChanges::new();
    changes.insert(1, Some(PageId::of(b"b-prime")));
    changes.insert(2, Some(PageId::of(b"c")));
    changes.insert(0, None);

    let child = Manifest::overlay_on(base_id, &base, &changes, 2, 1);

    assert!(!child.is_flat(), "a shallow chain should stay an overlay");
    assert_eq!(child.depth(), 1);
    assert_eq!(child.overlay_base(), Some(base_id));
    assert_eq!(child.parent, Some(base_id));
    assert_eq!(child.len(), 2, "2 pages, minus page 0, plus page 2");
    assert_eq!(child.changes().map(|c| c.len()), Some(3));
    assert_eq!(base.len(), 2);
    Ok(())
}

#[test]
fn a_chain_at_the_depth_limit_collapses_to_flat() -> Result<(), PagerError> {
    let mut base = flat(&[(0, b"a")]);
    base.depth = MAX_OVERLAY_DEPTH;
    let base_id = base.id()?;
    let resolved: PageMap = [(0, PageId::of(b"a"))].into_iter().collect();

    let mut changes = PageChanges::new();
    changes.insert(1, Some(PageId::of(b"b")));

    assert!(base.must_flatten(), "depth 8 must trigger a collapse");
    let child = Manifest::flatten_onto(base_id, &base, &resolved, &changes, 1);

    assert!(child.is_flat(), "the chain must collapse at the depth limit");
    assert_eq!(child.depth(), 0, "and the depth resets");
    assert_eq!(child.overlay_base(), None);
    assert_eq!(child.parent, Some(base_id));
    assert_eq!(
        child.flat_pages().map(|p| p.len()),
        Some(2),
        "flattening must materialise the base's pages, not just the change"
    );
    Ok(())
}

#[test]
fn a_removal_stops_the_walk_instead_of_falling_through_to_the_base() -> Result<(), PagerError> {
    let base = flat(&[(0, b"a")]);
    let base_id = base.id()?;

    let mut changes = PageChanges::new();
    changes.insert(0, None);
    let child = Manifest::overlay_on(base_id, &base, &changes, 0, 1);

    assert_eq!(
        child.local_lookup(0),
        Some(None),
        "a tombstone must be reported as a definite removal"
    );
    assert_eq!(child.local_lookup(1), None, "an untouched page must fall through to the base");
    Ok(())
}

fn store_manifest<M: ManifestStore>(mut store: M) -> Result<(), PagerError> {
    let m = flat(&[(0, b"a"), (1, b"b")]);
    let id = store.put(&m)?;
    assert_eq!(id, m.id()?);
    assert_eq!(store.get(id)?, m);
    assert!(store.contains(id)?);
    assert_eq!(store.list()?, vec![id]);
    store.remove(id)?;
    assert!(!store.contains(id)?);
    store.remove(id)?;
    Ok(())
}

#[test]
fn stores_round_trip_and_verify() -> Result<(), PagerError> {
    store_manifest(fs())?;
    store_manifest(MemManifestStore::new())
}

#[test]
fn a_corrupt_manifest_on_disk_is_never_trusted() -> Result<(), PagerError> {
    let mut store = fs();
    let m = flat(&[(0, b"a")]);
    let id = ManifestStore::put(&mut store, &m)?;

    let other = flat(&[(0, b"attacker's page")]);
    let name = id.to_hex();
    let path = root().join("manifests").join(&name[0..2]).join(&name);
    assert!(store.vfs().has_file(&path));
    let bytes = other.encode()?;
    store.vfs_mut().atomic_write(&path, &bytes).expect("tamper");

    assert!(
        matches!(ManifestStore::get(&store, id), Err(PagerError::MissingManifest(_))),
        "a manifest whose bytes do not hash to its id must be refused"
    );
    Ok(())
}

// ---- page identity ----

#[test]
fn identical_content_is_the_same_page() {
    assert_eq!(PageId::of(b"abc"), PageId::of(b"abc"));
    assert_ne!(PageId::of(b"abc"), PageId::of(b"abd"));
}

#[test]
fn a_page_id_is_the_blake3_hash_of_the_bytes() {
    assert_eq!(
        PageId::of(b"").to_hex(),
        "af1349b9f5f9a1a6a0404dea36dcc9499bcb25c9adc112b7cc9a93cae41f3262"
    );
    assert_eq!(PageId::of(b"abc").as_bytes(), blake3::hash(b"abc").as_bytes());
    let key = [7u8; 32];
    assert_eq!(
        PageId::of_keyed(&key, b"abc").as_bytes(),
        blake3::keyed_hash(&key, b"abc").as_bytes()
    );
}

#[test]
fn hex_round_trips() -> Result<(), PagerError> {
    let id = PageId::of(b"round trip");
    assert_eq!(PageId::from_hex(&id.to_hex())?, id);
    Ok(())
}

#[test]
fn malformed_hex_is_rejected_not_panicked() {
    assert!(PageId::from_hex("nope").is_err());
    assert!(PageId::from_hex(&"z".repeat(64)).is_err());
}

#[test]
fn oversized_pages_are_rejected() {
    let err = Page::new(&PageHasher::Unkeyed, vec![0u8; MIN_PAGE_SIZE + 1], MIN_PAGE_SIZE);
    assert!(matches!(err, Err(PagerError::PageTooLarge { .. })));
}

#[test]
fn verify_catches_corruption() {
    let h = PageHasher::Unkeyed;
    let page = Page::new(&h, b"honest bytes".to_vec(), DEFAULT_PAGE_SIZE).expect("valid page");
    let err = Page::verify(&h, page.id(), b"tampered!!!!".to_vec());
    assert!(matches!(err, Err(PagerError::CorruptPage { .. })));
}

#[test]
fn keyed_hashing_defeats_membership_confirmation() {
    let pool_a = PageHasher::Keyed([7u8; 32]);
    let pool_b = PageHasher::Keyed([9u8; 32]);
    let guess = b"the salary of employee 4471 is 220000";

    assert_ne!(pool_a.hash(guess), PageId::of(guess));
    assert_ne!(pool_a.hash(guess), pool_b.hash(guess));
    assert_eq!(pool_a.hash(guess), pool_a.hash(guess));
}

#[test]
fn pool_keys_are_never_printed() {
    let redacted = PageHasher::Keyed([0xAB; 32]).redacted();
    assert!(!redacted.contains("171") && !redacted.contains("ab"));
    assert!(redacted.contains("redacted"));
}

#[test]
fn page_sizes_are_validated() {
    assert!(validate_page_size(DEFAULT_PAGE_SIZE).is_ok());
    assert!(validate_page_size(3).is_err());
    assert!(validate_page_size(96 * 1024).is_err());
    assert!(validate_page_size(usize::MAX).is_err());
}

// ---- scrubbing ----

fn set_of(ids: &[PageId]) -> PageIdSet {
    let mut set = PageIdSet::new();
    for id in ids {
        set.insert(*id, ());
    }
    set
}

fn mem() -> MemStore {
    Parts { cas: MemCas::new(PageHasher::Unkeyed), manifests: MemManifestStore::new() }
}

#[test]
fn a_healthy_store_reports_healthy() -> Result<(), PagerError> {
    let mut store = mem();
    let page = page(b"good bytes");
    Cas::put(&mut store, &page)?;

    let metrics = NoMetrics;
    let report = Scrubber::new(&store, &metrics).scrub(&[], &vec![set_of(&[page.id()])])?;

    assert!(report.is_healthy());
    assert_eq!(report.healthy, 1);
    assert_eq!(report.unreferenced, 0);
    Ok(())
}

#[test]
fn rot_on_disk_is_found_even_though_nobody_read_the_page() -> Result<(), PagerError> {
    let mut store = fs();
    let page = page(b"honest bytes");
    Cas::put(&mut store, &page)?;

    store.vfs_mut().atomic_write(&page_path(page.id()), b"tampered!!!!").expect("corrupt the page");

    let metrics = NoMetrics;
    let report = Scrubber::new(&store, &metrics).scrub(&[], &vec![set_of(&[page.id()])])?;

    assert!(!report.is_healthy());
    assert_eq!(report.corrupt, vec![page.id()]);
    assert_eq!(report.healthy, 0);
    assert!(report.describe().contains("DAMAGED"));
    Ok(())
}

#[test]
fn a_referenced_page_that_is_simply_gone_is_reported_as_missing_not_corrupt(
) -> Result<(), PagerError> {
    let store = mem();
    let metrics = NoMetrics;
    let absent = PageId::of(b"never stored");
    let report = Scrubber::new(&store, &metrics).scrub(&[], &vec![set_of(&[absent])])?;

    assert_eq!(report.missing, vec![absent]);
    assert!(report.corrupt.is_empty());
    Ok(())
}

#[test]
fn garbage_is_counted_not_verified() -> Result<(), PagerError> {
    let mut store = mem();
    let live = page(b"live");
    let junk = page(b"junk");
    Cas::put(&mut store, &live)?;
    Cas::put(&mut store, &junk)?;

    let metrics = NoMetrics;
    let report = Scrubber::new(&store, &metrics).scrub(&[], &vec![set_of(&[live.id()])])?;

    assert!(report.is_healthy());
    assert_eq!(report.healthy, 1);
    assert_eq!(report.unreferenced, 1, "the junk page is garbage, not damage");
    Ok(())
}

#[test]
fn bad_manifests_are_reported_in_order_and_as_often_as_they_were_named() -> Result<(), PagerError> {
    let mut store = mem();
    let stored = ManifestStore::put(&mut store, &flat(&[(0, b"x")]))?;
    let (a, b) = (ManifestId::from_bytes([9; 32]), ManifestId::from_bytes([1; 32]));

    let metrics = NoMetrics;
    let scrubber = Scrubber::new(&store, &metrics);
    let report = scrubber.scrub(&[a, stored, b, a], &vec![])?;
    assert_eq!(report.bad_manifests, vec![a, b, a]);
    assert!(!report.is_healthy());
    assert_eq!(report.damaged(), 3);
    assert_eq!(report.clone().bad_manifests, report.bad_manifests);

    assert!(scrubber.scrub(&[stored, stored], &vec![])?.is_healthy());
    Ok(())
}

#[test]
fn errors_name_pages_by_their_first_digits() {
    let id = PageId::of(b"somewhere");
    let short = &id.to_hex()[..12];
    assert_eq!(
        PagerError::MissingPage(id).describe(),
        format!("page {short} is missing from the content-addressed store")
    );
    assert_eq!(
        PagerError::CorruptPage { expected: id, actual: id, len: 3 }.describe(),
        format!("integrity failure: page {short} hashed to {short} on read (3 bytes)")
    );
    assert_eq!(
        PagerError::NoSuchRef { kind: "branch", name: "a\"b".to_string() }.describe(),
        "no such branch: \"a\\\"b\""
    );
}

#[test]
fn a_store_without_a_cipher_takes_a_page_of_any_size() {
    let size: usize = 17 * 1024 * 1024;
    let big = Page::new(&PageHasher::Unkeyed, vec![7u8; size], size).expect("a large page");
    let mut cas = MemCas::new(PageHasher::Unkeyed);
    cas.put(&big).expect("put");
    assert_eq!(cas.get(big.id()).expect("get").as_bytes().len(), size);
}

#[test]
fn a_build_with_keyed_identity_says_what_it_wants() {
    assert_eq!(
        PagerError::UnkeyedStoreInKeyedBuild.describe(),
        "this build requires keyed page identity (feature `keyed-hash`): \
         construct StoreConfig with PageHasher::Keyed(pool_key), not PageHasher::Unkeyed"
    );
}

#[test]
fn a_missing_file_says_so() {
    assert_eq!(IoError::NotFound.describe(), "no such file");
    assert_eq!(IoError::Other("disk full".to_string()).describe(), "disk full");
}
