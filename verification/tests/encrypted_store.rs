//! An encrypted database, end to end: plaintext above the page store, ciphertext below.

use std::cell::RefCell;
use std::rc::Rc;
use substrate::cas::{Backing, Cas, MemCas, MemManifestStore, Parts};
use substrate::clock::ManualClock;
use substrate::crypt::EncryptedCas;
use substrate::error::PagerError;
use substrate::keys::{KeyProvider, PoolMasterKey};
use substrate::page::{Page, PageHasher, PageId, MIN_PAGE_SIZE};
use substrate::pager::{PageStore, Pager, StoreConfig};
use substrate::security::SecurityError;

/// A disk that several databases share.
#[derive(Clone)]
struct Disk(Rc<RefCell<MemCas>>);

impl Disk {
    fn new() -> Disk {
        Disk(Rc::new(RefCell::new(MemCas::new(PageHasher::Unkeyed))))
    }
}

impl Backing for Disk {
    fn contents_are_what_their_ids_say(&self) {}
}

impl Cas for Disk {
    fn raw_is_what_is_held(&self) {}
    fn put(&mut self, page: &Page) -> Result<(), PagerError> {
        self.0.borrow_mut().put(page)
    }
    fn get(&self, id: PageId) -> Result<Page, PagerError> {
        self.0.borrow().get(id)
    }
    fn contains(&self, id: PageId) -> Result<bool, PagerError> {
        self.0.borrow().contains(id)
    }
    fn remove(&mut self, id: PageId) -> Result<(), PagerError> {
        self.0.borrow_mut().remove(id)
    }
    fn list(&self) -> Result<Vec<PageId>, PagerError> {
        self.0.borrow().list()
    }
    fn put_raw(&mut self, id: PageId, bytes: &[u8]) -> Result<(), PagerError> {
        self.0.borrow_mut().put_raw(id, bytes)
    }
    fn get_raw(&self, id: PageId) -> Result<Vec<u8>, PagerError> {
        self.0.borrow().get_raw(id)
    }
}

type Db = Pager<Parts<EncryptedCas<Disk>, MemManifestStore>, ManualClock>;

fn config() -> StoreConfig {
    StoreConfig {
        page_size: MIN_PAGE_SIZE,
        pool: "cui-secret".to_string(),
        ..Default::default()
    }
}

fn encrypted_db(
    disk: Disk,
    master: &PoolMasterKey,
    database: &str,
) -> Result<Db, PagerError> {
    let cas = EncryptedCas::new(disk, master.derive_data_key(database), PageHasher::Unkeyed);
    Pager::from_parts(
        Parts { cas, manifests: MemManifestStore::new() },
        config(),
        ManualClock::new(1_700_000_000_000),
    )
}

#[test]
fn the_engine_works_normally_and_the_disk_holds_only_ciphertext() -> Result<(), PagerError> {
    let disk = Disk::new();
    let master = PoolMasterKey::from_bytes([7; 32]);
    let mut db = encrypted_db(disk.clone(), &master, "acme-prod")?;

    let secret = b"SALARY OF EMPLOYEE 4471 IS 220000".to_vec();

    let mut txn = db.begin()?;
    db.write(&mut txn, 0, secret.clone())?;
    db.write(&mut txn, 1, b"another secret".to_vec())?;
    let v1 = db.commit(txn)?;

    assert_eq!(db.read_head(0)?.as_bytes(), secret.as_slice());

    let stored = disk.get_raw(PageId::of(&secret))?;
    assert_ne!(stored, secret, "the plaintext was written to disk");
    assert!(
        !stored.windows(secret.len()).any(|window| window == secret.as_slice()),
        "the plaintext appears verbatim inside the stored bytes"
    );

    let mut fork = db.fork(&v1)?;
    let mut txn = fork.begin();
    db.write(&mut txn, 0, b"changed on the fork".to_vec())?;
    fork.commit(&mut db, txn)?;
    assert_eq!(
        db.read_head(0)?.as_bytes(),
        secret.as_slice(),
        "the fork leaked into the base"
    );
    assert_eq!(fork.read_head(&mut db, 0)?.as_bytes(), b"changed on the fork");

    assert_eq!(db.read(&v1, 0)?.as_bytes(), secret.as_slice());

    let stats = db.gc(&[v1, fork.head()])?;
    assert_eq!(stats.pages_swept, 0, "nothing here is garbage: {}", stats.describe());
    assert_eq!(db.read_head(0)?.as_bytes(), secret.as_slice());

    Ok(())
}

#[test]
fn identical_pages_still_deduplicate_when_encrypted() -> Result<(), PagerError> {
    let disk = Disk::new();
    let master = PoolMasterKey::from_bytes([7; 32]);
    let mut db = encrypted_db(disk.clone(), &master, "acme-prod")?;

    let repeated = b"the same row, twenty times".to_vec();
    let mut txn = db.begin()?;
    for page_no in 0..20u64 {
        db.write(&mut txn, page_no, repeated.clone())?;
    }
    db.commit(txn)?;

    assert_eq!(
        disk.list()?.len(),
        1,
        "twenty identical pages became {} stored objects",
        disk.list()?.len()
    );
    Ok(())
}

#[test]
fn a_stolen_disk_without_the_key_yields_nothing() -> Result<(), PagerError> {
    let disk = Disk::new();
    let master = PoolMasterKey::from_bytes([7; 32]);

    {
        let mut db = encrypted_db(disk.clone(), &master, "acme-prod")?;
        let mut txn = db.begin()?;
        db.write(&mut txn, 0, b"classified".to_vec())?;
        db.commit(txn)?;
    }

    let attacker_key = PoolMasterKey::from_bytes([0; 32]);
    let mut stolen = encrypted_db(disk.clone(), &attacker_key, "acme-prod")?;

    let page_id = PageId::of(b"classified");
    assert!(disk.contains(page_id)?);

    let head = stolen.head();
    let err = stolen.read(&head, 0);
    assert!(err.is_err(), "a stolen disk was readable without the key");
    assert!(stolen.cas().cas.get(page_id).is_err_and(|e| e.is_corruption()));
    Ok(())
}

#[test]
fn the_key_hierarchy_contains_a_compromise() -> Result<(), PagerError> {
    let disk = Disk::new();
    let master = PoolMasterKey::from_bytes([7; 32]);

    {
        let mut acme = encrypted_db(disk.clone(), &master, "acme-prod")?;
        let mut txn = acme.begin()?;
        acme.write(&mut txn, 0, b"acme's secret".to_vec())?;
        acme.commit(txn)?;
    }

    let globex_key = master.derive_data_key("globex-prod");
    let globex_cas = EncryptedCas::new(disk.clone(), globex_key, PageHasher::Unkeyed);

    let page_id = PageId::of(b"acme's secret");
    assert!(
        globex_cas.get(page_id).is_err(),
        "one database's key decrypted another database's page — the hierarchy is not a hierarchy"
    );
    Ok(())
}

#[test]
fn tampered_ciphertext_reports_as_corruption_so_scrub_and_repair_still_work(
) -> Result<(), PagerError> {
    let disk = Disk::new();
    let master = PoolMasterKey::from_bytes([7; 32]);
    let mut db = encrypted_db(disk.clone(), &master, "acme-prod")?;

    let mut txn = db.begin()?;
    db.write(&mut txn, 0, b"honest bytes".to_vec())?;
    let head = db.commit(txn)?;

    let page_id = PageId::of(b"honest bytes");
    let mut beneath = disk.clone();
    let mut sealed = beneath.get_raw(page_id)?;
    sealed[4] ^= 0x01;
    beneath.remove(page_id)?;
    beneath.put_raw(page_id, &sealed)?;

    let err = db.read(&head, 0);
    assert!(
        err.as_ref().is_err_and(|e| e.is_corruption()),
        "tampered ciphertext must surface as CORRUPTION. Got: {err:?}"
    );

    let report = db.scrub(&[head])?;
    assert!(!report.is_healthy());
    assert_eq!(report.corrupt, vec![page_id]);
    Ok(())
}

struct OnePool;

impl KeyProvider for OnePool {
    fn master_key(&self, pool: &str) -> Result<PoolMasterKey, SecurityError> {
        if pool == "acme" {
            Ok(PoolMasterKey::from_bytes([5; 32]))
        } else {
            Err(SecurityError::NoKeyForPool { pool: pool.to_string() })
        }
    }
}

#[test]
fn a_provider_hands_the_key_over_or_says_why_not() {
    let hasher = PageHasher::Unkeyed;
    let page = Page::new(&hasher, b"x".to_vec(), MIN_PAGE_SIZE).expect("page");
    let mut cas =
        EncryptedCas::from_provider(Disk::new(), &OnePool, "acme", "db", hasher.clone()).ok();
    let cas = cas.as_mut().expect("there is a key");
    cas.put(&page).expect("put");
    assert_eq!(cas.get(page.id()).expect("get").as_bytes(), b"x");
    assert_ne!(cas.inner().get_raw(page.id()).expect("raw"), b"x");
    let none = EncryptedCas::from_provider(Disk::new(), &OnePool, "other", "db", hasher);
    assert!(matches!(none, Err(SecurityError::NoKeyForPool { .. })));
}
