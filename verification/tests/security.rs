//! Keys, ciphertext and licences.

use substrate::crypt::{nonce_for, open, open_as, seal, TAG_BYTES};
use substrate::error::IoError;
use substrate::keys::{
    check_permissions, key_file_name, key_from_file, may_create_key, DataKey, PoolMasterKey,
};
use substrate::license::{
    Enforcement, HighWaterClock, License, LicenseClaims, SigningKey, Status, VerifyingKey, DAY_MS,
};
use substrate::page::{PageHasher, PageId};
use substrate::path::VPath;
use substrate::security::SecurityError;

fn key() -> DataKey {
    PoolMasterKey::from_bytes([7u8; 32]).derive_data_key("acme-prod")
}

#[test]
fn crypt_round_trips() -> Result<(), SecurityError> {
    let key = key();
    let plaintext = b"the quick brown fox".to_vec();
    let id = PageId::of(&plaintext);

    let sealed = seal(&key, id, &plaintext)?;
    assert_ne!(sealed, plaintext, "the stored bytes must be ciphertext");
    assert_eq!(sealed.len(), plaintext.len() + TAG_BYTES);
    assert_eq!(open(&key, id, &sealed)?, plaintext);
    Ok(())
}

#[test]
fn encryption_is_deterministic_so_the_cas_can_deduplicate() -> Result<(), SecurityError> {
    let key = key();
    let plaintext = b"identical content".to_vec();
    let id = PageId::of(&plaintext);

    let first = seal(&key, id, &plaintext)?;
    for _ in 0..16 {
        assert_eq!(seal(&key, id, &plaintext)?, first);
    }
    Ok(())
}

#[test]
fn different_plaintexts_get_different_nonces() {
    let key = key();
    let a = b"plaintext one".to_vec();
    let b = b"plaintext two".to_vec();

    let nonce_a = nonce_for(&key, PageId::of(&a));
    let nonce_b = nonce_for(&key, PageId::of(&b));
    assert_ne!(nonce_a, nonce_b);
}

#[test]
fn the_wrong_key_cannot_decrypt() -> Result<(), SecurityError> {
    let plaintext = b"secret".to_vec();
    let id = PageId::of(&plaintext);
    let sealed = seal(&key(), id, &plaintext)?;

    let wrong = PoolMasterKey::from_bytes([9u8; 32]).derive_data_key("acme-prod");
    assert!(matches!(open(&wrong, id, &sealed), Err(SecurityError::Decrypt { .. })));
    Ok(())
}

#[test]
fn a_different_database_in_the_same_pool_cannot_decrypt() -> Result<(), SecurityError> {
    let master = PoolMasterKey::from_bytes([7u8; 32]);
    let plaintext = b"acme's secret".to_vec();
    let id = PageId::of(&plaintext);

    let sealed = seal(&master.derive_data_key("acme-prod"), id, &plaintext)?;

    let other_db = master.derive_data_key("globex-prod");
    assert!(matches!(open(&other_db, id, &sealed), Err(SecurityError::Decrypt { .. })));
    Ok(())
}

#[test]
fn a_page_cannot_be_relocated_to_another_address() -> Result<(), SecurityError> {
    let key = key();
    let plaintext = b"page A's contents".to_vec();
    let real_id = PageId::of(&plaintext);
    let sealed = seal(&key, real_id, &plaintext)?;

    let other_id = PageId::of(b"page B's contents");
    assert!(
        matches!(open(&key, other_id, &sealed), Err(SecurityError::Decrypt { .. })),
        "ciphertext was accepted at an address it was not written to"
    );
    Ok(())
}

#[test]
fn a_single_flipped_bit_is_caught_by_the_aead_tag() -> Result<(), SecurityError> {
    let key = key();
    let plaintext = b"honest bytes".to_vec();
    let id = PageId::of(&plaintext);
    let sealed = seal(&key, id, &plaintext)?;

    for byte in 0..sealed.len() {
        let mut corrupted = sealed.clone();
        corrupted[byte] ^= 0x01;
        assert!(
            open(&key, id, &corrupted).is_err(),
            "a flipped bit at byte {byte} was not detected"
        );
    }
    Ok(())
}

#[test]
fn plaintext_that_does_not_hash_to_its_id_is_refused() -> Result<(), SecurityError> {
    let key = key();
    let id = PageId::of(b"one thing");
    let sealed = seal(&key, id, b"another thing")?;
    assert!(matches!(open(&key, id, &sealed), Err(SecurityError::PlaintextMismatch { .. })));
    Ok(())
}

#[test]
fn a_keyed_pool_opens_by_its_own_hash() -> Result<(), SecurityError> {
    let key = key();
    let hasher = PageHasher::Keyed([3; 32]);
    let id = hasher.hash(b"keyed");
    let sealed = seal(&key, id, b"keyed")?;
    assert_eq!(open_as(&key, &hasher, id, &sealed)?, b"keyed");
    Ok(())
}

// ---- keys ----

#[test]
fn data_keys_are_distinct_per_database() {
    let master = PoolMasterKey::from_bytes([1u8; 32]);
    let a = master.derive_data_key("acme");
    let b = master.derive_data_key("globex");

    assert_ne!(a.expose(), b.expose());
    assert_eq!(master.derive_data_key("acme").expose(), a.expose());
}

#[test]
fn a_data_key_is_derived_in_its_context() {
    let master = PoolMasterKey::from_bytes([1u8; 32]);
    let mut hasher = blake3::Hasher::new_derive_key("substrate-data-key-v1");
    hasher.update(&[1u8; 32]);
    hasher.update(b"acme");
    assert_eq!(master.derive_data_key("acme").expose(), hasher.finalize().as_bytes());
}

#[test]
fn a_data_key_reveals_nothing_about_the_master() {
    let master = PoolMasterKey::from_bytes([1u8; 32]);
    let derived = master.derive_data_key("acme");
    assert_ne!(derived.expose(), master.expose());
}

#[test]
fn two_pools_derive_different_keys_for_the_same_database_name() {
    let a = PoolMasterKey::from_bytes([1u8; 32]).derive_data_key("prod");
    let b = PoolMasterKey::from_bytes([2u8; 32]).derive_data_key("prod");
    assert_ne!(a.expose(), b.expose());
}

#[test]
fn keys_are_never_printed() {
    let master = PoolMasterKey::from_bytes([0xAB; 32]);
    let debug = format!("{} {}", master.redacted(), master.derive_data_key("acme").redacted());
    assert!(debug.contains("redacted"));
    assert!(!debug.contains("171") && !debug.contains("ab"));
}

#[test]
fn a_zeroized_key_is_all_zeros() {
    let mut master = PoolMasterKey::from_bytes([0xAB; 32]);
    let mut data = master.derive_data_key("acme");
    assert_ne!(data.expose(), &[0u8; 32]);
    master.zeroize();
    data.zeroize();
    assert_eq!(master.expose(), &[0u8; 32]);
    assert_eq!(data.expose(), &[0u8; 32]);
}

#[test]
fn generated_keys_differ() -> Result<(), SecurityError> {
    assert_ne!(PoolMasterKey::generate()?.expose(), PoolMasterKey::generate()?.expose());
    Ok(())
}

fn key_path(pool: &str) -> VPath {
    VPath::new().join("keys").join(&key_file_name(pool))
}

#[test]
fn file_provider_round_trips() -> Result<(), SecurityError> {
    may_create_key("acme", false)?;
    let created = PoolMasterKey::generate()?;
    let loaded =
        key_from_file("acme", &key_path("acme"), Ok(created.expose().to_vec()), Ok(0o100600))?;
    assert_eq!(created.expose(), loaded.expose());
    Ok(())
}

#[test]
fn creating_a_pool_key_twice_is_refused() {
    assert!(may_create_key("acme", false).is_ok());
    assert!(matches!(may_create_key("acme", true), Err(SecurityError::KeyExists { .. })));
}

#[test]
fn a_missing_pool_key_is_a_clear_error_not_a_silent_default() {
    let got = key_from_file(
        "never-created",
        &key_path("never-created"),
        Err(IoError::NotFound),
        Ok(0o600),
    );
    assert!(matches!(got, Err(SecurityError::NoKeyForPool { .. })));
}

#[test]
fn a_world_readable_key_file_is_refused_not_warned_about() {
    let got = key_from_file("acme", &key_path("acme"), Ok(vec![1; 32]), Ok(0o644));
    assert!(
        matches!(got, Err(SecurityError::KeyPermissions { mode: 0o644, .. })),
        "a world-readable master key must be refused; a warning is a warning nobody reads"
    );
    assert!(check_permissions(&key_path("acme"), 0o600).is_ok());
    assert!(check_permissions(&key_path("acme"), 0o640).is_err());
}

#[test]
fn a_key_file_of_another_length_is_malformed() {
    assert_eq!(key_file_name("acme"), "acme.key");
    let got = key_from_file("acme", &key_path("acme"), Ok(vec![1; 31]), Ok(0o600));
    assert!(matches!(got, Err(SecurityError::MalformedKey { .. })));
    let got = key_from_file(
        "acme",
        &key_path("acme"),
        Err(IoError::Other("disk".to_string())),
        Ok(0o600),
    );
    assert!(matches!(got, Err(SecurityError::Io { .. })));
}

// ---- licences ----

const T0: u64 = 1_700_000_000_000;
const YEAR: u64 = 365 * DAY_MS;

fn issuer() -> SigningKey {
    SigningKey::from_bytes(&[42u8; 32])
}

fn engine() -> Enforcement {
    Enforcement::new(issuer().verifying_key(), 0)
}

fn licence(not_before: u64, not_after: u64, grace_days: u64) -> License {
    License::sign(
        LicenseClaims {
            licensee: "ACME Corp".to_string(),
            features: vec!["fleet".to_string(), "airgap".to_string()],
            not_before,
            not_after,
            grace_days,
        },
        &issuer(),
    )
    .expect("sign")
}

#[test]
fn a_valid_licence_is_ok() {
    let l = licence(T0, T0 + YEAR, 30);
    assert_eq!(engine().evaluate(Some(&l), T0 + DAY_MS), Status::Licensed);
}

#[test]
fn an_expiring_licence_warns_but_never_stops() {
    let l = licence(T0, T0 + YEAR, 30);
    let status = engine().evaluate(Some(&l), T0 + YEAR - 5 * DAY_MS);

    match status {
        Status::Warning { days_left, .. } => assert_eq!(days_left, 5),
        other => panic!("expected a warning, got {other:?}"),
    }
}

#[test]
fn an_expired_licence_inside_grace_warns() {
    let l = licence(T0, T0 + YEAR, 30);
    let status = engine().evaluate(Some(&l), T0 + YEAR + 10 * DAY_MS);

    match status {
        Status::Warning { days_left, reason } => {
            assert_eq!(days_left, 20);
            assert!(reason.contains("EXPIRED"));
        }
        other => panic!("expected a grace warning, got {other:?}"),
    }
}

#[test]
fn an_expired_licence_past_grace_degrades_and_says_reads_are_unaffected() {
    let l = licence(T0, T0 + YEAR, 30);
    let status = engine().evaluate(Some(&l), T0 + YEAR + 60 * DAY_MS);

    assert!(status.is_degraded());
    assert!(status.describe().contains("Reads and writes are UNAFFECTED"));
}

#[test]
fn a_missing_licence_degrades_it_does_not_explode() {
    let status = engine().evaluate(None, T0);
    assert!(status.is_degraded());
    assert!(status.describe().contains("Reads and writes are UNAFFECTED"));
}

#[test]
fn a_forged_licence_is_degraded_not_accepted() {
    let attacker = SigningKey::from_bytes(&[99u8; 32]);
    let forged = License::sign(
        LicenseClaims {
            licensee: "ACME Corp".to_string(),
            features: vec!["fleet".to_string()],
            not_before: T0,
            not_after: T0 + 100 * YEAR,
            grace_days: 0,
        },
        &attacker,
    )
    .expect("sign");

    assert!(engine().evaluate(Some(&forged), T0).is_degraded());
}

#[test]
fn tampering_with_the_claims_invalidates_the_signature() {
    let mut l = licence(T0, T0 + DAY_MS, 0);
    l.claims.not_after = T0 + 100 * YEAR;

    assert!(engine().evaluate(Some(&l), T0).is_degraded());
}

#[test]
fn setting_the_clock_back_does_not_un_expire_a_licence() {
    let l = licence(T0, T0 + YEAR, 0);
    let mut engine = engine();

    let expired = engine.evaluate(Some(&l), T0 + YEAR + DAY_MS);
    assert!(expired.is_degraded());

    let after_tampering = engine.evaluate(Some(&l), T0);

    assert!(
        after_tampering.is_degraded(),
        "winding the clock back un-expired the licence — the high-water mark is not working"
    );
}

#[test]
fn a_thirty_day_backwards_drift_is_tolerated_quietly() {
    let l = licence(T0, T0 + YEAR, 30);
    let mut engine = engine();

    engine.evaluate(Some(&l), T0 + 100 * DAY_MS);
    let status = engine.evaluate(Some(&l), T0 + 80 * DAY_MS);

    assert_eq!(status, Status::Licensed, "20 days of drift is within tolerance");
}

#[test]
fn a_large_backwards_jump_warns_but_still_does_not_stop_anything() {
    let l = licence(T0, T0 + YEAR, 30);
    let mut engine = engine();

    engine.evaluate(Some(&l), T0 + 200 * DAY_MS);
    let status = engine.evaluate(Some(&l), T0 + 10 * DAY_MS);

    match &status {
        Status::Warning { reason, .. } => {
            assert!(reason.contains("high-water mark"));
        }
        other => panic!("expected a clock warning, got {other:?}"),
    }
    assert!(!status.is_degraded(), "a clock jump must not degrade a valid licence");
}

#[test]
fn the_high_water_mark_only_ever_ratchets_forward() {
    let mut clock = HighWaterClock::new(0);
    assert_eq!(clock.observe(1_000), 1_000);
    assert_eq!(clock.observe(5_000), 5_000);
    assert_eq!(clock.observe(2_000), 5_000, "time does not go backwards here");
    assert_eq!(clock.observe(0), 5_000);
    assert_eq!(clock.high_water_ms(), 5_000);
}

#[test]
fn a_licence_from_the_future_is_not_valid_yet() {
    let l = licence(T0 + 10 * DAY_MS, T0 + YEAR, 0);
    assert!(engine().evaluate(Some(&l), T0).is_degraded());
}

#[test]
fn features_are_gated_by_the_licence_but_data_never_is() {
    let mut engine = engine();
    let l = licence(T0, T0 + YEAR, 0);

    assert!(engine.has_feature(Some(&l), "fleet", T0));
    assert!(!engine.has_feature(Some(&l), "a-feature-nobody-bought", T0));
    assert!(!engine.has_feature(None, "fleet", T0));
}

#[test]
fn a_licence_signs_the_json_of_its_claims() -> Result<(), SecurityError> {
    let l = licence(1, 2, 3);
    let expected = "{\"licensee\":\"ACME Corp\",\"features\":[\"fleet\",\"airgap\"],\
                    \"not_before\":1,\"not_after\":2,\"grace_days\":3}";
    assert_eq!(l.claims.signing_bytes()?, expected.as_bytes());
    assert!(l.ml_dsa.is_empty());
    assert_eq!(l.ed25519.len(), 64);
    l.verify(&issuer().verifying_key())?;
    let other = SigningKey::from_bytes(&[1; 32]).verifying_key();
    assert!(matches!(l.verify(&other), Err(SecurityError::LicenseSignature)));
    Ok(())
}

#[test]
fn a_signature_is_the_one_of_ed25519() -> Result<(), SecurityError> {
    let l = licence(1, 2, 3);
    let outside = ed25519_dalek::SigningKey::from_bytes(&[42u8; 32]);
    let message = l.claims.signing_bytes()?;
    let signature = ed25519_dalek::Signer::sign(&outside, &message);
    assert_eq!(l.ed25519, signature.to_bytes().to_vec());
    let public = VerifyingKey::from_bytes(&outside.verifying_key().to_bytes());
    l.verify(&public)
}

#[test]
fn text_is_escaped_as_json() -> Result<(), SecurityError> {
    let claims = LicenseClaims {
        licensee: "a\"b\\c\n\u{1}é".to_string(),
        features: Vec::new(),
        not_before: 0,
        not_after: u64::MAX,
        grace_days: 0,
    };
    let expected = "{\"licensee\":\"a\\\"b\\\\c\\n\\u0001é\",\"features\":[],\
                    \"not_before\":0,\"not_after\":18446744073709551615,\"grace_days\":0}";
    assert_eq!(claims.signing_bytes()?, expected.as_bytes());
    Ok(())
}

#[test]
fn each_verdict_has_its_words() {
    assert_eq!(Status::Licensed.describe(), "licensed");
    assert!(Status::Licensed.is_ok());
    let w = Status::Warning { days_left: 12, reason: "soon".to_string() };
    assert_eq!(w.describe(), "LICENCE WARNING (12 days left): soon");
    assert!(!w.is_ok() && !w.is_degraded());
}

#[test]
fn a_key_is_the_bytes_that_were_drawn_and_no_bytes_are_no_key() {
    let key = PoolMasterKey::from_entropy(Some([9u8; 32])).expect("there are bytes");
    assert_eq!(key.expose(), &[9u8; 32]);
    assert!(matches!(PoolMasterKey::from_entropy(None), Err(SecurityError::Entropy)));
}

#[test]
fn a_key_file_that_cannot_be_read_says_why() {
    let broken = || IoError::Other("input/output error".to_string());
    let unread = key_from_file("acme", &key_path("acme"), Err(broken()), Ok(0o600));
    let unlisted = key_from_file("acme", &key_path("acme"), Ok(vec![1; 32]), Err(broken()));
    for got in [unread, unlisted] {
        match got {
            Err(SecurityError::Io { path, source }) => {
                assert_eq!(path.to_text(), key_path("acme").to_text());
                assert_eq!(source.describe(), "input/output error");
            }
            _ => panic!("expected the error of the file"),
        }
    }
}
