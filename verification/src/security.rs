//! What can go wrong with keys, ciphertext and licences.

use crate::error::{IoError, PagerError};
use crate::page::PageId;
use crate::path::VPath;
use vstd::prelude::*;

verus! {

/// The error of `serde_json`.
#[verifier::external_type_specification]
#[verifier::external_body]
pub struct ExJsonError(serde_json::Error);

/// Everything that can go wrong with keys, ciphertext and licences.
#[allow(inconsistent_fields)]
#[non_exhaustive]
#[derive(Debug)]
pub enum SecurityError {
    /// Encryption failed.
    Encrypt,
    /// A page did not decrypt: the wrong key, changed ciphertext, or a page from another address.
    Decrypt { page: PageId },
    /// A page decrypted to something that does not hash to its id.
    PlaintextMismatch { page: PageId },
    /// A pool has no master key.
    NoKeyForPool { pool: String },
    /// A pool has a master key already.
    KeyExists { pool: String },
    /// A key file can be read by others than its owner.
    KeyPermissions { path: VPath, mode: u32 },
    /// A key file is not thirty-two bytes.
    MalformedKey { path: VPath },
    /// A licence's signature did not verify.
    LicenseSignature,
    /// The operating system gave no entropy.
    Entropy,
    /// Something could not be turned into text, or back.
    Codec { what: &'static str, source: serde_json::Error },
    /// The pager refused.
    Pager(PagerError),
    /// The filesystem said no.
    Io { path: VPath, source: IoError },
}

impl SecurityError {
    /// A failure of the filesystem at `path`.
    pub fn io(path: &VPath, source: IoError) -> (e: SecurityError)
        ensures
            e is Io,
            e->Io_path@ == path@,
            e->Io_source == source,
    {
        SecurityError::Io { path: path.clone(), source }
    }
}

} // verus!
