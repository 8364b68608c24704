//! Local stores in front of object storage: batches, eviction, sleeping, waking and repairing.

use std::cell::RefCell;
use std::collections::BTreeMap;
use std::rc::Rc;
use substrate::cas::{Backing, Cas, ManifestStore, MemCas, MemManifestStore};
use substrate::clock::ManualClock;
use substrate::error::PagerError;
use substrate::fsstore::FsStore;
use substrate::hotset::{HotSet, HotSetSnapshot};
use substrate::lifecycle::{Sleep, SleepStep};
use substrate::manifest::{Manifest, ManifestId};
use substrate::page::{Page, PageHasher, PageId, MIN_PAGE_SIZE};
use substrate::pager::{PageStore, Pager, StoreConfig};
use substrate::path::VPath;
use substrate::remote::{RemoteTier, StoreError};
use substrate::scrub::CorruptionReport;
use substrate::testing::{MemVfs, Rng};
use substrate::tier::{Lookup, TierStats, TieredCas};
use substrate::tiered::{
    damaged_pages, repair_page, ManifestLookup, RepairReport, TieredManifestStore, WakeToken,
    HOT_SET_CAP,
};
use substrate::vfs::Vfs;

const PAGE_SIZE: usize = MIN_PAGE_SIZE;
const N_SEED: usize = 64;

type Objects = Rc<RefCell<BTreeMap<String, Vec<u8>>>>;

fn objects() -> Objects {
    Rc::new(RefCell::new(BTreeMap::new()))
}

fn fetch(store: &Objects, key: &str) -> Option<Vec<u8>> {
    store.borrow().get(key).cloned()
}

fn content(seed: u8, len: usize) -> Vec<u8> {
    (0..len).map(|i| seed.wrapping_add(i as u8)).collect()
}

// ---- the warm set ----

fn pid(n: u8) -> PageId {
    PageId::of(&[n; 16])
}

#[test]
fn records_deduped_and_ordered() {
    let mut hs = HotSet::new(64);
    hs.record_page(pid(3));
    hs.record_page(pid(1));
    hs.record_page(pid(3));
    let snap = hs.snapshot();
    assert_eq!(snap.pages, vec![pid(3), pid(1)]);
    assert!(!hs.saturated());
}

#[test]
fn bounded_at_cap_and_reports_saturation() {
    let mut hs = HotSet::new(2);
    hs.record_page(pid(1));
    hs.record_page(pid(2));
    hs.record_page(pid(3));
    assert_eq!(hs.snapshot().pages.len(), 2);
    assert!(hs.saturated());
}

#[test]
fn only_a_new_id_overflows_a_full_warm_set() {
    let mut hs = HotSet::new(2);
    hs.record_page(pid(1));
    hs.record_page(pid(2));
    hs.record_page(pid(1));
    assert!(!hs.saturated(), "an id that is already there needs no room");
    hs.record_page(pid(3));
    assert!(hs.saturated());
    assert_eq!(hs.snapshot().pages, vec![pid(1), pid(2)]);

    let (a, b) = (ManifestId::from_bytes([1; 32]), ManifestId::from_bytes([2; 32]));
    let mut hs = HotSet::new(1);
    hs.record_manifest(a);
    hs.record_manifest(a);
    assert!(!hs.saturated());
    hs.record_manifest(b);
    assert!(hs.saturated());
    assert_eq!(hs.snapshot().manifests, vec![a]);
}

#[test]
fn a_cloned_token_and_a_cloned_report_say_the_same() {
    let mut hs = HotSet::new(2);
    hs.record_page(pid(1));
    let token = WakeToken::of("p", ManifestId::from_bytes([3; 32]), MIN_PAGE_SIZE, hs.snapshot());
    assert_eq!(token.clone(), token);
    let report = RepairReport {
        repaired: vec!["a".to_string()],
        unrepairable: vec!["b".to_string(), "c".to_string()],
    };
    assert_eq!(report.clone(), report);
    let mut rng = Rng::new(5);
    let mut twin = rng.clone();
    assert_eq!(rng.next_u64(), twin.next_u64());
}

#[test]
fn snapshot_of_empty_is_empty() {
    assert!(HotSet::new(8).snapshot().is_empty());
}

// ---- keys and pools ----

#[test]
fn pools_cannot_collide_even_on_identical_content() {
    let secret = PageId::of(b"TROOP MOVEMENT 0400");
    let cui = RemoteTier::new("cui-secret");
    let public = RemoteTier::new("public");

    assert_ne!(cui.page_key(secret), public.page_key(secret));
    assert!(cui.page_key(secret).starts_with("cui-secret/"));
    assert!(public.page_key(secret).starts_with("public/"));
}

#[test]
fn crossing_a_pool_boundary_is_loud() {
    let cui = RemoteTier::new("cui-secret");
    assert!(cui.guard_pool("cui-secret").is_ok());
    assert!(matches!(cui.guard_pool("public"), Err(StoreError::PoolBoundary { .. })));
}

#[test]
fn keys_name_the_pool_the_kind_and_the_object() {
    let tier = RemoteTier::new("acme");
    let page = PageId::of(b"abc");
    let hex = page.to_hex();
    assert_eq!(tier.page_key(page), format!("acme/pages/{}/{}/{}", &hex[0..2], &hex[2..4], hex));
    let manifest = ManifestId::from_bytes([0xAB; 32]);
    assert_eq!(tier.manifest_key(manifest), format!("acme/manifests/{}", manifest.to_hex()));
    assert_eq!(tier.segment_key(7), "acme/wal/000000000007.wal");
}

#[test]
fn a_pool_name_with_odd_characters_is_escaped_as_the_object_store_does() {
    let tier = RemoteTier::new("a b//c?");
    let raw = format!("a b//c?/manifests/{}", "00".repeat(32));
    let expected = object_store::path::Path::from(raw).to_string();
    assert_eq!(tier.manifest_key(ManifestId::from_bytes([0; 32])), expected);
}

#[test]
fn remote_round_trips() {
    let tier = RemoteTier::new("default");
    let store = objects();
    let key = tier.page_key(PageId::of(b"hello"));
    assert_eq!(fetch(&store, &key), None);
    store.borrow_mut().insert(key.clone(), b"hello".to_vec());
    assert_eq!(fetch(&store, &key), Some(b"hello".to_vec()));
}

// ---- batches ----

fn page_content(seed: usize) -> Vec<u8> {
    (0..PAGE_SIZE).map(|i| seed.wrapping_mul(31).wrapping_add(i) as u8).collect()
}

fn seed(store: &Objects, remote: &RemoteTier) -> (Vec<PageId>, Vec<Vec<u8>>) {
    let mut ids = Vec::new();
    let mut contents = Vec::new();
    for s in 0..N_SEED {
        let bytes = page_content(s);
        let id = PageId::of(&bytes);
        store.borrow_mut().insert(remote.page_key(id), bytes.clone());
        ids.push(id);
        contents.push(bytes);
    }
    (ids, contents)
}

fn cold_tier(remote: &RemoteTier) -> TieredCas<MemCas> {
    TieredCas::new(MemCas::new(PageHasher::Unkeyed), remote.clone(), PageHasher::Unkeyed)
}

fn get(
    tier: &mut TieredCas<MemCas>,
    store: &Objects,
    id: PageId,
) -> Result<Page, PagerError> {
    match tier.begin_get(id)? {
        Lookup::Hit(page) => Ok(page),
        Lookup::Fetch(key) => tier.finish_get(id, fetch(store, &key)),
    }
}

fn get_batch(
    tier: &mut TieredCas<MemCas>,
    store: &Objects,
    remote: &RemoteTier,
    ids: &[PageId],
) -> Result<Vec<Page>, PagerError> {
    let batch = tier.begin_batch(ids)?;
    let fetched: Vec<Option<Vec<u8>>> =
        batch.to_fetch().iter().map(|id| fetch(store, &remote.page_key(*id))).collect();
    tier.finish_batch(batch, fetched)
}

#[test]
fn get_batch_is_byte_identical_to_n_serial_gets_for_any_set() {
    let remote = RemoteTier::new("oracle");
    let store = objects();
    let (ids, contents) = seed(&store, &remote);

    let mut rng = Rng::new(0x0B0BCA75);
    for case in 0..100u64 {
        let len = rng.below(2 * N_SEED as u64 + 1);
        let set_idx: Vec<usize> = (0..len).map(|_| rng.below(N_SEED as u64) as usize).collect();
        let set: Vec<PageId> = set_idx.iter().map(|&i| ids[i]).collect();

        let mut serial_tier = cold_tier(&remote);
        let serial: Vec<Page> = set
            .iter()
            .map(|&id| get(&mut serial_tier, &store, id).expect("serial get"))
            .collect();

        let mut batch_tier = cold_tier(&remote);
        let batch = get_batch(&mut batch_tier, &store, &remote, &set).expect("get_batch");

        assert_eq!(batch.len(), set.len(), "case {case}: wrong page count");
        for (j, &idx) in set_idx.iter().enumerate() {
            assert_eq!(
                batch[j].as_bytes(),
                contents[idx].as_slice(),
                "case {case} pos {j}: batch bytes != seed truth"
            );
            assert_eq!(
                batch[j].as_bytes(),
                serial[j].as_bytes(),
                "case {case} pos {j}: batch != N serial gets"
            );
            assert_eq!(batch[j].id(), serial[j].id(), "case {case} pos {j}: id mismatch");
        }
    }
}

#[test]
fn get_batch_mixes_local_hits_and_remote_fetches() {
    let remote = RemoteTier::new("oracle");
    let store = objects();
    let (ids, contents) = seed(&store, &remote);

    let mut tier = cold_tier(&remote);
    get(&mut tier, &store, ids[3]).expect("warm 3");
    get(&mut tier, &store, ids[7]).expect("warm 7");

    let idx = [7usize, 0, 3, 7, 10, 3, 0];
    let set: Vec<PageId> = idx.iter().map(|&i| ids[i]).collect();
    let got = get_batch(&mut tier, &store, &remote, &set).expect("get_batch");
    assert_eq!(got.len(), set.len());
    for (j, &i) in idx.iter().enumerate() {
        assert_eq!(got[j].as_bytes(), contents[i].as_slice(), "pos {j}");
    }
}

#[test]
fn a_missing_object_fails_the_whole_batch() {
    let remote = RemoteTier::new("oracle");
    let store = objects();
    let (ids, _) = seed(&store, &remote);

    let ghost = PageId::of(&vec![0xAB; PAGE_SIZE]);
    let mut tier = cold_tier(&remote);
    let set = vec![ids[0], ids[1], ghost, ids[2]];
    match get_batch(&mut tier, &store, &remote, &set) {
        Err(PagerError::MissingPage(m)) => assert_eq!(m, ghost),
        other => panic!("a missing object must fail the whole batch, got {other:?}"),
    }
}

#[test]
fn a_corrupt_object_fails_the_whole_batch_and_never_a_partial_set() {
    let remote = RemoteTier::new("oracle");
    let store = objects();
    let (ids, _) = seed(&store, &remote);

    store.borrow_mut().insert(remote.page_key(ids[1]), b"tampered".to_vec());
    let mut tier = cold_tier(&remote);
    let set = vec![ids[0], ids[1], ids[2]];
    match get_batch(&mut tier, &store, &remote, &set) {
        Err(PagerError::CorruptPage { expected, .. }) => assert_eq!(expected, ids[1]),
        other => panic!("a corrupt object must fail the whole batch, got {other:?}"),
    }
}

// ---- a database over the tiers ----

struct Tiers {
    cas: RefCell<TieredCas<MemCas>>,
    manifests: RefCell<TieredManifestStore<MemManifestStore>>,
    store: Objects,
}

/// Both tiers as the store under a pager.
#[derive(Clone)]
struct Shared(Rc<Tiers>);

impl Backing for Shared {
    fn contents_are_what_their_ids_say(&self) {}
}

impl Cas for Shared {
    fn raw_is_what_is_held(&self) {}
    fn put(&mut self, page: &Page) -> Result<(), PagerError> {
        self.0.cas.borrow_mut().put(page)
    }
    fn get(&self, id: PageId) -> Result<Page, PagerError> {
        get(&mut self.0.cas.borrow_mut(), &self.0.store, id)
    }
    fn contains(&self, id: PageId) -> Result<bool, PagerError> {
        self.0.cas.borrow().contains(id)
    }
    fn remove(&mut self, id: PageId) -> Result<(), PagerError> {
        self.0.cas.borrow_mut().remove(id)
    }
    fn list(&self) -> Result<Vec<PageId>, PagerError> {
        self.0.cas.borrow().list()
    }
    fn put_raw(&mut self, _id: PageId, _bytes: &[u8]) -> Result<(), PagerError> {
        Err(PagerError::Backend("raw bytes".to_string()))
    }
    fn get_raw(&self, _id: PageId) -> Result<Vec<u8>, PagerError> {
        Err(PagerError::Backend("raw bytes".to_string()))
    }
}

impl ManifestStore for Shared {
    fn put(&mut self, manifest: &Manifest) -> Result<ManifestId, PagerError> {
        self.0.manifests.borrow_mut().put(manifest)
    }
    fn get(&self, id: ManifestId) -> Result<Manifest, PagerError> {
        let step = self.0.manifests.borrow().begin_get(id)?;
        match step {
            ManifestLookup::Hit(m) => Ok(m),
            ManifestLookup::Fetch(key) => {
                let fetched = fetch(&self.0.store, &key);
                self.0.manifests.borrow_mut().finish_get(id, fetched)
            }
        }
    }
    fn contains(&self, id: ManifestId) -> Result<bool, PagerError> {
        self.0.manifests.borrow().contains(id)
    }
    fn remove(&mut self, id: ManifestId) -> Result<(), PagerError> {
        self.0.manifests.borrow_mut().remove(id)
    }
    fn list(&self) -> Result<Vec<ManifestId>, PagerError> {
        self.0.manifests.borrow().list()
    }
}

struct Database {
    pager: Pager<Shared, ManualClock>,
    tiers: Shared,
    remote: RemoteTier,
}

fn config(pool: &str) -> StoreConfig {
    StoreConfig { page_size: PAGE_SIZE, pool: pool.to_string(), ..Default::default() }
}

impl Database {
    fn open(store: Objects, remote: RemoteTier, config: StoreConfig) -> Result<Self, StoreError> {
        remote.guard_pool(&config.pool)?;
        let hasher = config.hasher.clone();
        let tiers = Shared(Rc::new(Tiers {
            cas: RefCell::new(TieredCas::with_hot_set(
                MemCas::new(hasher.clone()),
                remote.clone(),
                hasher,
                HotSet::new(HOT_SET_CAP),
            )),
            manifests: RefCell::new(TieredManifestStore::with_hot_set(
                MemManifestStore::new(),
                remote.clone(),
                HotSet::new(HOT_SET_CAP),
            )),
            store,
        }));
        let clock = ManualClock::new(1_700_000_000_000);
        let pager =
            Pager::from_parts(tiers.clone(), config, clock).map_err(StoreError::Pager)?;
        Ok(Database { pager, tiers, remote })
    }

    fn stats(&self) -> TierStats {
        self.tiers.0.cas.borrow().stats()
    }

    fn flush(&self) {
        let pending = self.tiers.0.cas.borrow().pending_uploads();
        for id in pending {
            let (key, bytes) = self.tiers.0.cas.borrow().upload_of(id).expect("pending page");
            self.tiers.0.store.borrow_mut().insert(key, bytes);
            self.tiers.0.cas.borrow_mut().uploaded(id);
        }
    }

    fn sleep(&mut self) -> Result<WakeToken, StoreError> {
        let tiers = &self.tiers.0;
        let mut sleep =
            Sleep::plan(&tiers.cas.borrow(), &tiers.manifests.borrow(), self.pager.head())?;
        let mut manifests_began = false;
        loop {
            let step = sleep.next(&tiers.cas.borrow(), &tiers.manifests.borrow())?;
            match step {
                SleepStep::Page { key, bytes } => {
                    assert!(!manifests_began, "a manifest went before a page");
                    tiers.store.borrow_mut().insert(key, bytes);
                }
                SleepStep::Manifest { key, bytes } => {
                    manifests_began = true;
                    tiers.store.borrow_mut().insert(key, bytes);
                }
                SleepStep::Drop => break,
            }
            sleep.done(&mut tiers.cas.borrow_mut(), &mut tiers.manifests.borrow_mut());
        }
        let warm = HotSetSnapshot {
            pages: tiers.cas.borrow().warm_set().pages,
            manifests: tiers.manifests.borrow().warm_set().manifests,
        };
        let page_size = self.pager.page_size();
        let done = sleep.finish(&mut tiers.cas.borrow_mut(), page_size, warm);
        done
    }

    fn wake(store: Objects, remote: RemoteTier, token: &WakeToken) -> Result<Self, StoreError> {
        let config = token.config_for(&remote)?;
        let head = token.head_from(fetch(&store, &remote.manifest_key(token.manifest)))?;
        let mut db = Database::open(store, remote, config)?;
        token.bring_up(&mut db.pager, &head).map_err(StoreError::Pager)?;
        Ok(db)
    }

    fn write(&mut self, page_no: u64, bytes: Vec<u8>) -> Result<ManifestId, PagerError> {
        let mut txn = self.pager.begin()?;
        self.pager.write(&mut txn, page_no, bytes)?;
        self.pager.commit(txn)
    }
}

#[test]
fn write_sleep_wipe_wake_read() -> Result<(), StoreError> {
    let store = objects();
    let remote = RemoteTier::new("acme");
    let expected: Vec<(u64, Vec<u8>)> =
        (0..32u64).map(|i| (i, content(i as u8, 100 + i as usize))).collect();

    let token = {
        let mut db = Database::open(store.clone(), remote.clone(), config("acme"))?;
        let mut txn = db.pager.begin().map_err(StoreError::Pager)?;
        for (page_no, bytes) in &expected {
            db.pager.write(&mut txn, *page_no, bytes.clone()).map_err(StoreError::Pager)?;
        }
        db.pager.commit(txn).map_err(StoreError::Pager)?;

        let token = db.sleep()?;
        assert_eq!(token.pool, "acme");
        assert_eq!(token.page_size, PAGE_SIZE);
        token
    };

    let mut db = Database::wake(store, remote, &token)?;
    assert_eq!(
        db.pager.read_head(0).map_err(StoreError::Pager)?.as_bytes(),
        expected[0].1.as_slice()
    );
    assert_eq!(db.stats().misses, 1, "waking is lazy: one read, one fetch");

    for (page_no, bytes) in &expected {
        assert_eq!(
            db.pager.read_head(*page_no).map_err(StoreError::Pager)?.as_bytes(),
            bytes.as_slice(),
            "page {page_no} did not survive sleep and wake"
        );
    }
    assert!(db.stats().misses <= expected.len() as u64);
    Ok(())
}

#[test]
fn eviction_can_never_lose_a_page() -> Result<(), StoreError> {
    let store = objects();
    let mut db = Database::open(store, RemoteTier::new("acme"), config("acme"))?;
    let mut written: Vec<(u64, Vec<u8>)> = Vec::new();

    for i in 0..32u64 {
        let bytes = content(i as u8, 200);
        db.write(i, bytes.clone()).map_err(StoreError::Pager)?;
        written.push((i, bytes));

        assert!(db.stats().pending_upload > 0);
        db.tiers.0.cas.borrow_mut().evict_to(0)?;

        for (page_no, expected) in &written {
            assert_eq!(
                db.pager.read_head(*page_no).map_err(StoreError::Pager)?.as_bytes(),
                expected.as_slice(),
                "page {page_no} was evicted while it existed NOWHERE ELSE"
            );
        }
    }

    let stats = db.stats();
    assert_eq!(stats.evictions, 0, "something was evicted that could not be: {stats:?}");
    assert!(stats.local_bytes > 0);

    db.flush();
    db.tiers.0.cas.borrow_mut().evict_to(0)?;
    let stats = db.stats();
    assert_eq!(stats.pending_upload, 0);
    assert!(stats.evictions > 0, "nothing was evicted once it was safe to: {stats:?}");

    for (page_no, expected) in &written {
        assert_eq!(
            db.pager.read_head(*page_no).map_err(StoreError::Pager)?.as_bytes(),
            expected.as_slice(),
            "page {page_no} did not survive a full eviction after being uploaded"
        );
    }
    Ok(())
}

#[test]
fn eviction_takes_the_coldest_page_first() -> Result<(), StoreError> {
    let remote = RemoteTier::new("acme");
    let store = objects();
    let mut tier = cold_tier(&remote);
    let pages: Vec<Page> = (0..3u8)
        .map(|i| Page::new(&PageHasher::Unkeyed, vec![i; 100], PAGE_SIZE).expect("page"))
        .collect();
    for p in &pages {
        tier.put(p).map_err(StoreError::Pager)?;
        tier.uploaded(p.id());
    }
    get(&mut tier, &store, pages[0].id()).map_err(StoreError::Pager)?;
    assert_eq!(tier.evict_to(200)?, 100);
    assert!(tier.local().contains(pages[0].id()).map_err(StoreError::Pager)?);
    assert!(!tier.local().contains(pages[1].id()).map_err(StoreError::Pager)?);
    assert!(tier.local().contains(pages[2].id()).map_err(StoreError::Pager)?);
    Ok(())
}

#[test]
fn sleep_refuses_to_drop_local_state_it_has_not_uploaded() -> Result<(), StoreError> {
    let mut db = Database::open(objects(), RemoteTier::new("acme"), config("acme"))?;
    db.write(0, b"the only copy of this is local".to_vec()).map_err(StoreError::Pager)?;

    let refused = db.tiers.0.cas.borrow_mut().drop_local();
    assert!(refused.is_err(), "local state was dropped that had not been uploaded");
    assert_eq!(
        db.pager.read_head(0).map_err(StoreError::Pager)?.as_bytes(),
        b"the only copy of this is local"
    );

    let token = db.sleep()?;
    assert_eq!(db.stats().local_bytes, 0);
    assert_eq!(token.pool, "acme");
    Ok(())
}

#[test]
fn sleep_is_all_or_nothing() -> Result<(), StoreError> {
    let mut db = Database::open(objects(), RemoteTier::new("acme"), config("acme"))?;
    db.write(0, b"important".to_vec()).map_err(StoreError::Pager)?;
    let token = db.sleep()?;
    let stats = db.stats();
    assert_eq!(stats.pending_upload, 0);
    assert_eq!(stats.local_bytes, 0, "sleep did not drop local state");
    assert_eq!(token.pool, "acme");
    Ok(())
}

#[test]
fn pools_never_share_pages_even_with_identical_content() -> Result<(), StoreError> {
    let store = objects();
    let secret = b"TROOP MOVEMENT 0400 GRID 12345".to_vec();
    let cui_remote = RemoteTier::new("cui-secret");
    let pub_remote = RemoteTier::new("public");

    let cui_token = {
        let mut db = Database::open(store.clone(), cui_remote.clone(), config("cui-secret"))?;
        db.write(0, secret.clone()).map_err(StoreError::Pager)?;
        db.sleep()?
    };
    {
        let mut db = Database::open(store.clone(), pub_remote.clone(), config("public"))?;
        db.write(0, secret.clone()).map_err(StoreError::Pager)?;
        db.sleep()?;
    }

    let cui_key = cui_remote.page_key(PageId::of(&secret));
    let pub_key = pub_remote.page_key(PageId::of(&secret));
    assert_ne!(cui_key, pub_key);
    assert!(fetch(&store, &cui_key).is_some());
    assert!(fetch(&store, &pub_key).is_some());

    let err = Database::wake(store, pub_remote, &cui_token);
    assert!(
        matches!(err, Err(StoreError::PoolBoundary { .. })),
        "a public-pool store woke a CUI database"
    );
    Ok(())
}

#[test]
fn a_fork_shares_pages_in_object_storage() -> Result<(), StoreError> {
    let mut db = Database::open(objects(), RemoteTier::new("acme"), config("acme"))?;
    let mut txn = db.pager.begin().map_err(StoreError::Pager)?;
    for i in 0..16u64 {
        db.pager.write(&mut txn, i, content(i as u8, 300)).map_err(StoreError::Pager)?;
    }
    let base = db.pager.commit(txn).map_err(StoreError::Pager)?;
    db.flush();
    let uploads_after_base = db.stats().uploads;

    let mut fork = db.pager.fork(&base).map_err(StoreError::Pager)?;
    let mut txn = fork.begin();
    db.pager
        .write(&mut txn, 3, b"changed on the fork".to_vec())
        .map_err(StoreError::Pager)?;
    fork.commit(&mut db.pager, txn).map_err(StoreError::Pager)?;
    db.flush();

    assert_eq!(db.stats().uploads - uploads_after_base, 1);
    assert_eq!(
        db.pager.read(&base, 3).map_err(StoreError::Pager)?.as_bytes(),
        content(3, 300).as_slice()
    );
    Ok(())
}

#[test]
fn corruption_in_object_storage_is_caught_on_the_way_in() -> Result<(), StoreError> {
    let store = objects();
    let remote = RemoteTier::new("acme");
    let token = {
        let mut db = Database::open(store.clone(), remote.clone(), config("acme"))?;
        db.write(0, b"honest bytes".to_vec()).map_err(StoreError::Pager)?;
        db.sleep()?
    };

    let key = remote.page_key(PageId::of(b"honest bytes"));
    store.borrow_mut().insert(key, b"tampered!!!!".to_vec());

    let mut db = Database::wake(store, remote, &token)?;
    let err = db.pager.read_head(0);
    assert!(
        err.as_ref().is_err_and(|e| e.is_corruption()),
        "corrupted bytes from object storage were served to the caller: {err:?}"
    );
    Ok(())
}

#[test]
fn a_database_whose_head_is_an_overlay_wakes_correctly() -> Result<(), StoreError> {
    let store = objects();
    let remote = RemoteTier::new("acme");

    let token = {
        let mut db = Database::open(store.clone(), remote.clone(), config("acme"))?;
        let mut txn = db.pager.begin().map_err(StoreError::Pager)?;
        for page_no in 0..64u64 {
            db.pager
                .write(&mut txn, page_no, content(page_no as u8, 200))
                .map_err(StoreError::Pager)?;
        }
        db.pager.commit(txn).map_err(StoreError::Pager)?;

        for round in 0..4u64 {
            db.write(round, content(200 + round as u8, 50)).map_err(StoreError::Pager)?;
        }

        let head = db.pager.manifest(&db.pager.head()).map_err(StoreError::Pager)?;
        assert!(!head.is_flat(), "this test is pointless unless the head is an overlay");
        assert!(head.depth() > 1, "and it needs a chain worth losing");

        db.sleep()?
    };

    let mut db = Database::wake(store, remote, &token)?;
    let cold = db.pager.read_head(42).map_err(StoreError::Pager)?;
    assert_eq!(
        cold.as_bytes(),
        content(42, 200).as_slice(),
        "a page not held by the top overlay could not be read after waking"
    );
    for page_no in 4..64u64 {
        assert_eq!(
            db.pager.read_head(page_no).map_err(StoreError::Pager)?.as_bytes(),
            content(page_no as u8, 200).as_slice(),
            "page {page_no} did not survive sleep and wake"
        );
    }
    for round in 0..4u64 {
        assert_eq!(
            db.pager.read_head(round).map_err(StoreError::Pager)?.as_bytes(),
            content(200 + round as u8, 50).as_slice()
        );
    }
    Ok(())
}

#[test]
fn hydrate_makes_the_next_read_warm() -> Result<(), StoreError> {
    let store = objects();
    let remote = RemoteTier::new("hydrate");
    let token = {
        let mut db = Database::open(store.clone(), remote.clone(), config("hydrate"))?;
        for page_no in 0..6u64 {
            db.write(page_no, content(page_no as u8, 64)).map_err(StoreError::Pager)?;
        }
        db.sleep()?
    };
    let learned = {
        let mut db = Database::wake(store.clone(), remote.clone(), &token)?;
        for page_no in 0..6u64 {
            db.pager.read_head(page_no).map_err(StoreError::Pager)?;
        }
        db.sleep()?
    };
    assert!(!learned.hot_set.is_empty());

    let mut db = Database::wake(store.clone(), remote.clone(), &learned)?;
    let pages = learned.hot_set.pages.clone();
    get_batch(&mut db.tiers.0.cas.borrow_mut(), &store, &remote, &pages)
        .map_err(StoreError::Pager)?;
    let fetched = db.stats().misses;
    for page_no in 0..6u64 {
        db.pager.read_head(page_no).map_err(StoreError::Pager)?;
    }
    assert_eq!(db.stats().misses, fetched, "a read after hydrating went to object storage");
    Ok(())
}

// ---- repair ----

#[test]
fn scrub_finds_rot_and_repair_fixes_it_from_object_storage() -> Result<(), PagerError> {
    let hasher = PageHasher::Unkeyed;
    let mut local = MemCas::new(hasher.clone());
    let page = Page::new(&hasher, content(3, 200), PAGE_SIZE)?;
    local.put(&page)?;
    local.remove(page.id())?;
    local.put_raw(page.id(), b"tampered!!!!")?;
    assert!(local.get(page.id()).is_err_and(|e| e.is_corruption()));

    let report = CorruptionReport { corrupt: vec![page.id()], ..Default::default() };
    let mut out = RepairReport::default();
    for id in damaged_pages(&report) {
        let done =
            repair_page(&mut local, PAGE_SIZE, &hasher, id, Some(content(3, 200)), &mut out);
        assert!(done.is_ok());
    }
    assert!(out.is_complete());
    assert_eq!(out.repaired, vec![page.id().to_hex()]);
    assert_eq!(out.describe(), "repaired 1 page(s) from object storage");
    assert_eq!(local.get(page.id())?.as_bytes(), content(3, 200).as_slice());
    Ok(())
}

#[test]
fn a_page_damaged_in_both_tiers_is_reported_lost_not_quietly_installed() -> Result<(), PagerError> {
    let hasher = PageHasher::Unkeyed;
    let mut local = MemCas::new(hasher.clone());
    let id = PageId::of(b"precious");
    local.put_raw(id, b"local rot")?;

    let report = CorruptionReport { corrupt: vec![id], ..Default::default() };
    let mut out = RepairReport::default();
    for id in damaged_pages(&report) {
        let rot = Some(b"remote rot".to_vec());
        assert!(repair_page(&mut local, PAGE_SIZE, &hasher, id, rot, &mut out).is_ok());
    }
    assert!(
        !out.is_complete(),
        "a page damaged in BOTH tiers must not be reported as repaired"
    );
    assert_eq!(out.unrepairable, vec![id.to_hex()]);
    assert!(out.describe().contains("COULD NOT BE REPAIRED"));
    assert!(local.get(id).is_err_and(|e| e.is_corruption()));
    Ok(())
}

#[test]
fn damage_is_corrupt_pages_and_then_missing_ones() {
    let report = CorruptionReport {
        corrupt: vec![pid(1)],
        missing: vec![pid(2), pid(3)],
        ..Default::default()
    };
    assert_eq!(damaged_pages(&report), vec![pid(1), pid(2), pid(3)]);
}

#[test]
fn a_manifest_from_object_storage_is_checked_on_arrival() {
    let remote = RemoteTier::new("acme");
    let mut tier = TieredManifestStore::new(MemManifestStore::new(), remote.clone());
    let manifest = Manifest::empty(PAGE_SIZE);
    let other = Manifest::empty(2 * PAGE_SIZE);
    let id = manifest.id().expect("id");

    match tier.begin_get(id) {
        Ok(ManifestLookup::Fetch(key)) => assert_eq!(key, remote.manifest_key(id)),
        _ => panic!("nothing is held locally"),
    }
    match tier.finish_get(id, None) {
        Err(PagerError::MissingManifest(hex)) => assert_eq!(hex, id.to_hex()),
        other => panic!("{other:?}"),
    }
    match tier.finish_get(id, Some(other.encode().expect("encode"))) {
        Err(PagerError::MissingManifest(text)) => assert_eq!(
            text,
            format!(
                "{} (bytes fetched from object storage hash to something else)",
                id.to_hex()
            )
        ),
        other => panic!("{other:?}"),
    }
    assert!(tier.finish_get(id, Some(vec![1, 2, 3])).is_err());
    assert_eq!(tier.durable_count(), 0);
    let got = tier.finish_get(id, Some(manifest.encode().expect("encode"))).expect("good bytes");
    assert_eq!(got, manifest);
    assert_eq!(tier.durable_count(), 1);
    assert!(tier.local().contains(id).expect("contains"));
}

#[test]
fn a_token_without_its_manifest_is_a_lost_page() {
    let token =
        WakeToken::of("acme", ManifestId::from_bytes([1; 32]), PAGE_SIZE, HotSetSnapshot::default());
    match token.head_from(None) {
        Err(StoreError::PageLost(hex)) => assert_eq!(hex, token.manifest.to_hex()),
        other => panic!("{other:?}"),
    }
}

#[test]
fn a_token_whose_manifest_hashes_to_something_else_wakes_nothing() -> Result<(), StoreError> {
    let store = objects();
    let remote = RemoteTier::new("acme");
    let token = {
        let mut db = Database::open(store.clone(), remote.clone(), config("acme"))?;
        db.write(0, b"x".to_vec()).map_err(StoreError::Pager)?;
        db.sleep()?
    };
    let other = Manifest::empty(PAGE_SIZE).encode().map_err(StoreError::Pager)?;
    store.borrow_mut().insert(remote.manifest_key(token.manifest), other);
    match Database::wake(store, remote, &token) {
        Err(StoreError::Pager(PagerError::MissingManifest(hex))) => {
            assert_eq!(hex, token.manifest.to_hex());
        }
        _ => panic!("a manifest that is not the token's was accepted"),
    }
    Ok(())
}

#[test]
fn a_pool_name_of_plain_characters_is_kept_as_it_is() {
    let tier = RemoteTier::new("acme.prod 1");
    let id = ManifestId::from_bytes([0; 32]);
    assert_eq!(tier.manifest_key(id), format!("acme.prod 1/manifests/{}", id.to_hex()));
}

#[test]
fn pages_that_were_never_confirmed_are_not_dropped() -> Result<(), StoreError> {
    let store = objects();
    let remote = RemoteTier::new("acme");
    let mut local = MemCas::new(PageHasher::Unkeyed);
    let pages: Vec<Page> = [b"one".as_slice(), b"two".as_slice()]
        .iter()
        .map(|b| Page::new(&PageHasher::Unkeyed, b.to_vec(), PAGE_SIZE).expect("page"))
        .collect();
    for page in &pages {
        local.put(page).map_err(StoreError::Pager)?;
    }

    let mut tier = TieredCas::new(local, remote.clone(), PageHasher::Unkeyed);
    assert_eq!(tier.stats().pending_upload, 0);
    match tier.drop_local() {
        Err(StoreError::PageLost(text)) => assert_eq!(
            text,
            "2 page(s) are not yet durable in object storage; dropping local state now would lose them"
        ),
        other => panic!("expected a refusal, got {other:?}"),
    }
    assert_eq!(tier.local().list().map_err(StoreError::Pager)?.len(), 2);

    let unconfirmed = tier.unconfirmed_pages().map_err(StoreError::Pager)?;
    assert_eq!(unconfirmed.len(), 2);
    for id in unconfirmed {
        let (key, bytes) = tier.upload_of(id).map_err(StoreError::Pager)?;
        store.borrow_mut().insert(key, bytes);
        tier.uploaded(id);
    }
    assert!(tier.unconfirmed_pages().map_err(StoreError::Pager)?.is_empty());
    tier.drop_local()?;
    assert!(tier.local().list().map_err(StoreError::Pager)?.is_empty());
    for page in &pages {
        let got = get(&mut tier, &store, page.id()).map_err(StoreError::Pager)?;
        assert_eq!(got.as_bytes(), page.as_bytes());
    }
    Ok(())
}

#[test]
fn falling_asleep_uploads_pages_that_were_never_confirmed() -> Result<(), StoreError> {
    let store = objects();
    let remote = RemoteTier::new("acme");
    let mut local = MemCas::new(PageHasher::Unkeyed);
    let page = Page::new(&PageHasher::Unkeyed, b"left behind".to_vec(), PAGE_SIZE).expect("page");
    local.put(&page).map_err(StoreError::Pager)?;
    let mut cas = TieredCas::new(local, remote.clone(), PageHasher::Unkeyed);
    let mut manifests = TieredManifestStore::new(MemManifestStore::new(), remote.clone());
    let head = manifests.put(&Manifest::empty(PAGE_SIZE)).map_err(StoreError::Pager)?;

    let mut sleep = Sleep::plan(&cas, &manifests, head)?;
    let mut steps = Vec::new();
    loop {
        match sleep.next(&cas, &manifests)? {
            SleepStep::Page { key, bytes } | SleepStep::Manifest { key, bytes } => {
                steps.push(key.clone());
                store.borrow_mut().insert(key, bytes);
            }
            SleepStep::Drop => break,
        }
        sleep.done(&mut cas, &mut manifests);
    }
    assert_eq!(steps, vec![remote.page_key(page.id()), remote.manifest_key(head)]);
    let token = sleep.finish(&mut cas, PAGE_SIZE, HotSetSnapshot::default())?;
    assert_eq!(token.manifest, head);
    assert_eq!(fetch(&store, &remote.page_key(page.id())), Some(b"left behind".to_vec()));
    Ok(())
}

#[test]
fn a_held_manifest_that_does_not_decode_is_no_miss() -> Result<(), PagerError> {
    let remote = RemoteTier::new("acme");
    let root = VPath::new().join("db");
    let manifest = Manifest::empty(PAGE_SIZE);
    let id = manifest.id()?;
    let hex = id.to_hex();

    let mut store = FsStore::open(MemVfs::new(), &root, PageHasher::Unkeyed)?;
    ManifestStore::put(&mut store, &manifest)?;
    let mut vfs = store.into_vfs();
    vfs.atomic_write(&root.join("manifests").join(&hex[0..2]).join(&hex), b"damaged")
        .expect("damage the manifest");
    let store = FsStore::open(vfs, &root, PageHasher::Unkeyed)?;

    let tier = TieredManifestStore::new(store, remote);
    assert!(matches!(tier.begin_get(id), Err(PagerError::Codec { op: "decode", .. })));
    let other = Manifest::empty(2 * PAGE_SIZE).id()?;
    assert!(matches!(tier.begin_get(other), Ok(ManifestLookup::Fetch(_))));
    Ok(())
}
