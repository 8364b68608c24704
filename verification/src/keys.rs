//! The key hierarchy: a master key for each pool, and from it a key for each database.

use crate::error::IoError;
use crate::hashing::{blake3_derived, derive_key};
use crate::path::VPath;
use crate::security::SecurityError;
use rand_core::RngCore;
use vstd::prelude::*;
use vstd::utf8::encode_utf8;
use zeroize::Zeroize;

verus! {

/// The context in which data keys are derived.
pub const DATA_KEY_CONTEXT: &'static str = "substrate-data-key-v1";

/// A pool's master key. It derives keys and never encrypts a page.
pub struct PoolMasterKey {
    bytes: [u8; 32],
}

/// The key that encrypts one database's pages.
pub struct DataKey {
    bytes: [u8; 32],
}

impl View for PoolMasterKey {
    type V = Seq<u8>;

    closed spec fn view(&self) -> Seq<u8> {
        self.bytes@
    }
}

impl View for DataKey {
    type V = Seq<u8>;

    closed spec fn view(&self) -> Seq<u8> {
        self.bytes@
    }
}

/// The data key of a database in the pool with this master key.
pub open spec fn data_key(master: Seq<u8>, database: Seq<char>) -> Seq<u8> {
    blake3_derived(DATA_KEY_CONTEXT@, master + encode_utf8(database))
}

/// `rand_core::OsRng::try_fill_bytes`: thirty-two bytes of the system's choice, or nothing.
#[verifier::external_body]
fn random_bytes() -> (r: Option<[u8; 32]>) {
    let mut bytes = [0u8; 32];
    match rand_core::OsRng.try_fill_bytes(&mut bytes) {
        Ok(()) => Some(bytes),
        Err(_) => None,
    }
}

/// `zeroize::Zeroize::zeroize`: every byte is zero afterwards.
#[verifier::external_body]
fn wipe(bytes: &mut [u8; 32])
    ensures
        final(bytes)@ == Seq::new(32, |i: int| 0u8),
{
    bytes.zeroize();
}

impl PoolMasterKey {
    /// A key from its bytes.
    pub fn from_bytes(bytes: [u8; 32]) -> (k: PoolMasterKey)
        ensures
            k@ == bytes@,
    {
        PoolMasterKey { bytes }
    }

    /// A fresh key from the system's entropy.
    pub fn generate() -> (r: Result<PoolMasterKey, SecurityError>)
        ensures
            r is Err ==> r->Err_0 is Entropy,
    {
        PoolMasterKey::from_entropy(random_bytes())
    }

    /// The key that the bytes from a source of entropy are, if it gave any.
    pub fn from_entropy(drawn: Option<[u8; 32]>) -> (r: Result<PoolMasterKey, SecurityError>)
        ensures
            match r {
                Ok(k) => drawn is Some && k@ == drawn->Some_0@,
                Err(e) => drawn is None && e is Entropy,
            },
    {
        match drawn {
            Some(bytes) => Ok(PoolMasterKey { bytes }),
            None => Err(SecurityError::Entropy),
        }
    }

    /// The key of one database.
    pub fn derive_data_key(&self, database: &str) -> (k: DataKey)
        ensures
            k@ == data_key(self@, database@),
    {
        DataKey { bytes: derive_key(DATA_KEY_CONTEXT, &self.bytes, database.as_bytes()) }
    }

    /// The bytes, to be kept somewhere safe.
    pub fn expose(&self) -> (b: &[u8; 32])
        ensures
            b@ == self@,
    {
        &self.bytes
    }

    /// What is printed of a key.
    pub fn redacted(&self) -> (s: &'static str)
        ensures
            s@ == "PoolMasterKey(<redacted>)"@,
    {
        "PoolMasterKey(<redacted>)"
    }

    /// Overwrites the key with zeros.
    pub fn zeroize(&mut self)
        ensures
            final(self)@ == Seq::new(32, |i: int| 0u8),
    {
        wipe(&mut self.bytes);
    }
}

impl Clone for PoolMasterKey {
    fn clone(&self) -> (k: PoolMasterKey)
        ensures
            k@ == self@,
    {
        PoolMasterKey { bytes: self.bytes }
    }
}

impl DataKey {
    /// The bytes, for the cipher.
    pub fn expose(&self) -> (b: &[u8; 32])
        ensures
            b@ == self@,
    {
        &self.bytes
    }

    /// What is printed of a key.
    pub fn redacted(&self) -> (s: &'static str)
        ensures
            s@ == "DataKey(<redacted>)"@,
    {
        "DataKey(<redacted>)"
    }

    /// Overwrites the key with zeros.
    pub fn zeroize(&mut self)
        ensures
            final(self)@ == Seq::new(32, |i: int| 0u8),
    {
        wipe(&mut self.bytes);
    }
}

impl Clone for DataKey {
    fn clone(&self) -> (k: DataKey)
        ensures
            k@ == self@,
    {
        DataKey { bytes: self.bytes }
    }
}

/// Where master keys come from.
pub trait KeyProvider {
    /// A pool's master key.
    fn master_key(&self, pool: &str) -> (r: Result<PoolMasterKey, SecurityError>);
}

/// The name of the file with a pool's key.
pub fn key_file_name(pool: &str) -> (s: String)
    ensures
        s@ == pool@ + ".key"@,
{
    pool.to_owned().concat(".key")
}

/// Whether a pool's key may be created: not where there is one, since replacing it would make
/// every page of the pool unreadable.
pub fn may_create_key(pool: &str, there_is_one: bool) -> (r: Result<(), SecurityError>)
    ensures
        match r {
            Ok(()) => !there_is_one,
            Err(e) => there_is_one && e is KeyExists && e->KeyExists_pool@ == pool@,
        },
{
    if there_is_one {
        Err(SecurityError::KeyExists { pool: pool.to_owned() })
    } else {
        Ok(())
    }
}

/// Group or world can read, write or run a file of this mode.
pub open spec fn is_loose(mode: u32) -> bool {
    mode & 0o777u32 & 0o077u32 != 0
}

/// Refuses a key file that others than its owner can read.
pub fn check_permissions(path: &VPath, mode: u32) -> (r: Result<(), SecurityError>)
    ensures
        match r {
            Ok(()) => !is_loose(mode),
            Err(e) => is_loose(mode) && e is KeyPermissions && e->KeyPermissions_path@ == path@
                && e->KeyPermissions_mode == mode & 0o777u32,
        },
{
    let bits: u32 = mode & 0o777u32;
    if bits & 0o077u32 != 0 {
        return Err(SecurityError::KeyPermissions { path: path.clone(), mode: bits });
    }
    Ok(())
}

/// What reading a key file comes to: the file, then its mode, then its length are looked at.
pub fn key_from_file(
    pool: &str,
    path: &VPath,
    read: Result<Vec<u8>, IoError>,
    mode: Result<u32, IoError>,
) -> (r: Result<PoolMasterKey, SecurityError>)
    ensures
        match (read, mode) {
            (Err(IoError::NotFound), _) => r matches Err(e) && e is NoKeyForPool
                && e->NoKeyForPool_pool@ == pool@,
            (Err(IoError::Other(_)), _) => r matches Err(e) && e is Io && e->Io_path@ == path@
                && e->Io_source == read->Err_0,
            (Ok(_), Err(source)) => r matches Err(e) && e is Io && e->Io_path@ == path@
                && e->Io_source == source,
            (Ok(bytes), Ok(m)) => if is_loose(m) {
                r matches Err(e) && e is KeyPermissions && e->KeyPermissions_path@ == path@
                    && e->KeyPermissions_mode == m & 0o777u32
            } else if bytes@.len() != 32 {
                r matches Err(e) && e is MalformedKey && e->MalformedKey_path@ == path@
            } else {
                r matches Ok(k) && k@ == bytes@
            },
        },
{
    let bytes = match read {
        Ok(b) => b,
        Err(IoError::NotFound) => {
            return Err(SecurityError::NoKeyForPool { pool: pool.to_owned() });
        },
        Err(e) => {
            return Err(SecurityError::io(path, e));
        },
    };
    let mode: u32 = match mode {
        Ok(m) => m,
        Err(e) => {
            return Err(SecurityError::io(path, e));
        },
    };
    match check_permissions(path, mode) {
        Ok(()) => {},
        Err(e) => {
            return Err(e);
        },
    }
    if bytes.len() != 32 {
        return Err(SecurityError::MalformedKey { path: path.clone() });
    }
    let mut key: [u8; 32] = [0u8;32];
    let mut i: usize = 0;
    while i < 32
        invariant
            i <= 32,
            bytes@.len() == 32,
            forall|k: int| 0 <= k < i ==> key@[k] == bytes@[k],
        decreases 32 - i,
    {
        key[i] = bytes[i];
        i = i + 1;
    }
    assert(key@ =~= bytes@);
    Ok(PoolMasterKey { bytes: key })
}

/// The key of a database comes from the pool's whole key and the whole name of the database, and from
/// nothing else: two databases share a key only where these give the same.
pub proof fn a_data_key_comes_from_the_pool_and_the_name(
    pool: &PoolMasterKey,
    name: &str,
    k: DataKey,
)
    requires
        call_ensures(PoolMasterKey::derive_data_key, (pool, name), k),
    ensures
        k@ == blake3_derived("substrate-data-key-v1"@, pool@ + encode_utf8(name@)),
{
}

/// A key file is refused exactly where anyone but its owner may do anything with it, and the error
/// says what the permissions are, without the kind of the file.
pub proof fn a_key_file_is_for_its_owner_alone(
    path: &VPath,
    mode: u32,
    r: Result<(), SecurityError>,
)
    requires
        call_ensures(check_permissions, (path, mode), r),
    ensures
        r is Ok <==> mode % 64 == 0,
        r is Err ==> r->Err_0 is KeyPermissions && r->Err_0->KeyPermissions_mode == mode % 512
            && r->Err_0->KeyPermissions_path@ == path@,
{
    assert((mode & 0o777u32 & 0o077u32 != 0) == (mode % 64 != 0)) by (bit_vector);
    assert(mode & 0o777u32 == mode % 512) by (bit_vector);
}

/// A key is read from a file exactly where the file could be read, is its owner's alone, and holds
/// thirty-two bytes; then it is those bytes.
pub proof fn a_key_is_the_bytes_of_its_file(
    pool: &str,
    path: &VPath,
    read: Result<Vec<u8>, IoError>,
    mode: Result<u32, IoError>,
    r: Result<PoolMasterKey, SecurityError>,
)
    requires
        call_ensures(key_from_file, (pool, path, read, mode), r),
    ensures
        r is Ok <==> read is Ok && mode is Ok && mode->Ok_0 % 64 == 0 && read->Ok_0@.len() == 32,
        r is Ok ==> r->Ok_0@ == read->Ok_0@,
        r is Err && r->Err_0 is NoKeyForPool <==> read matches Err(IoError::NotFound),
{
    if mode is Ok {
        let m = mode->Ok_0;
        assert((m & 0o777u32 & 0o077u32 != 0) == (m % 64 != 0)) by (bit_vector);
    }
}

/// A key is created only where the pool has none; its file has the pool's name, and no two pools share
/// one; and where no entropy was given there is no key.
pub proof fn a_pool_has_one_key(
    a: &str,
    b: &str,
    x: String,
    y: String,
    there_is_one: bool,
    r: Result<(), SecurityError>,
    drawn: Option<[u8; 32]>,
    k: Result<PoolMasterKey, SecurityError>,
)
    requires
        call_ensures(key_file_name, (a,), x),
        call_ensures(key_file_name, (b,), y),
        call_ensures(may_create_key, (a, there_is_one), r),
        call_ensures(PoolMasterKey::from_entropy, (drawn,), k),
    ensures
        x@ == y@ <==> a@ == b@,
        a@.is_prefix_of(x@),
        r is Ok <==> !there_is_one,
        k is Ok <==> drawn is Some,
        k is Ok ==> k->Ok_0@ == drawn->Some_0@,
{
    assert(x@.take(a@.len() as int) =~= a@);
    assert(y@.take(b@.len() as int) =~= b@);
    if x@ == y@ {
        assert(a@.len() == b@.len());
    }
}

} // verus!
