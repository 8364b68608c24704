//! Page encryption at rest: identity is the hash of the plaintext, and what is stored is
//! ciphertext.
//!
//! The nonce is derived from the page id, so that the same page always encrypts to the same bytes;
//! the id is authenticated with the page, so that ciphertext cannot be moved to another address.

use crate::cas::{with_page, Backing, Cas};
use crate::error::{Fault, PagerError};
use crate::hashing::{blake3_derived, derive_key};
use crate::keys::{data_key, DataKey, KeyProvider, PoolMasterKey};
use crate::manifest::{ManifestId, ManifestView};
use crate::page::{Page, PageHasher, PageId};
use crate::security::SecurityError;
use crate::vfs::Names;
use chacha20poly1305::aead::{Aead, KeyInit};
use vstd::prelude::*;
use vstd::utf8::encode_utf8;

verus! {

/// The context in which nonces are derived.
pub const NONCE_CONTEXT: &'static str = "substrate-page-nonce-v1";

/// What the authenticated data of every page starts with.
pub const AAD_CONTEXT: &'static str = "substrate-page-v1";

/// The sixty-four byte blocks that one nonce can encrypt, beside the one that the tag takes.
pub const MAX_BLOCKS: usize = 4294967294;

/// The bytes by which ciphertext is longer than plaintext.
pub const TAG_BYTES: usize = 16;

/// What XChaCha20-Poly1305 makes of a message.
pub uninterp spec fn xchacha_sealed(
    key: Seq<u8>,
    nonce: Seq<u8>,
    aad: Seq<u8>,
    message: Seq<u8>,
) -> Seq<u8>;

/// What XChaCha20-Poly1305 makes of a ciphertext, unless it does not authenticate.
pub uninterp spec fn xchacha_opened(
    key: Seq<u8>,
    nonce: Seq<u8>,
    aad: Seq<u8>,
    ciphertext: Seq<u8>,
) -> Option<Seq<u8>>;

/// A message that the cipher takes: not too many blocks for one nonce, and with room for the tag.
pub open spec fn fits_cipher(len: nat) -> bool {
    len <= 64 * MAX_BLOCKS && len + TAG_BYTES <= isize::MAX
}

/// A ciphertext that is not longer than that of any message that the cipher takes.
pub open spec fn fits_sealed(len: nat) -> bool {
    len <= 64 * MAX_BLOCKS + TAG_BYTES
}

/// `Aead::encrypt` of `XChaCha20Poly1305`: a message within the cipher's limit is encrypted, the
/// ciphertext is a function of the key, the nonce, the authenticated data and the message, it is
/// longer by the tag, and with the same key, nonce and data it decrypts to the message.
#[verifier::external_body]
fn encrypt(key: &[u8; 32], nonce: &[u8; 24], aad: &[u8], message: &[u8]) -> (r: Option<Vec<u8>>)
    requires
        fits_cipher(message@.len()),
    ensures
        r is Some,
        r->Some_0@ == xchacha_sealed(key@, nonce@, aad@, message@),
        r->Some_0@.len() == message@.len() + TAG_BYTES,
        xchacha_opened(key@, nonce@, aad@, r->Some_0@) == Some(message@),
{
    let cipher = chacha20poly1305::XChaCha20Poly1305::new(key.into());
    let payload = chacha20poly1305::aead::Payload { msg: message, aad };
    cipher.encrypt(chacha20poly1305::XNonce::from_slice(nonce), payload).ok()
}

/// `Aead::decrypt` of `XChaCha20Poly1305`: of a ciphertext within the cipher's limit, the answer is
/// a function of the key, the nonce, the authenticated data and the ciphertext.
#[verifier::external_body]
fn decrypt(key: &[u8; 32], nonce: &[u8; 24], aad: &[u8], ciphertext: &[u8]) -> (r: Option<Vec<u8>>)
    requires
        fits_sealed(ciphertext@.len()),
    ensures
        match r {
            Some(m) => xchacha_opened(key@, nonce@, aad@, ciphertext@) == Some(m@),
            None => xchacha_opened(key@, nonce@, aad@, ciphertext@) is None,
        },
{
    let cipher = chacha20poly1305::XChaCha20Poly1305::new(key.into());
    let payload = chacha20poly1305::aead::Payload { msg: ciphertext, aad };
    cipher.decrypt(chacha20poly1305::XNonce::from_slice(nonce), payload).ok()
}

/// The nonce of a page.
pub open spec fn nonce_of(key: Seq<u8>, id: PageId) -> Seq<u8> {
    blake3_derived(NONCE_CONTEXT@, key + id.0@).take(24)
}

/// What is authenticated with a page.
pub open spec fn aad_of(id: PageId) -> Seq<u8> {
    encode_utf8(AAD_CONTEXT@) + id.0@
}

/// The ciphertext of a page.
pub open spec fn sealed(key: Seq<u8>, id: PageId, plaintext: Seq<u8>) -> Seq<u8> {
    xchacha_sealed(key, nonce_of(key, id), aad_of(id), plaintext)
}

/// The plaintext of a ciphertext that is stored under this id, if it authenticates. What is longer
/// than any ciphertext does not.
pub open spec fn unsealed(key: Seq<u8>, id: PageId, ciphertext: Seq<u8>) -> Option<Seq<u8>> {
    if fits_sealed(ciphertext.len()) {
        xchacha_opened(key, nonce_of(key, id), aad_of(id), ciphertext)
    } else {
        None
    }
}

/// Whether so many bytes take more blocks than one nonce can encrypt.
fn too_many_blocks(n: usize) -> (r: bool)
    ensures
        r == (n > 64 * MAX_BLOCKS),
{
    n / 64 > MAX_BLOCKS || (n / 64 == MAX_BLOCKS && n % 64 != 0)
}

/// The page in a ciphertext that is stored under this id, if it authenticates and hashes to the id.
pub open spec fn opened(
    key: Seq<u8>,
    hasher: PageHasher,
    id: PageId,
    ciphertext: Seq<u8>,
) -> Option<Seq<u8>> {
    match unsealed(key, id, ciphertext) {
        Some(plaintext) => if hasher.id_of(plaintext) == id {
            Some(plaintext)
        } else {
            None
        },
        None => None,
    }
}

/// The nonce of a page: a function of the key and the page's id.
pub fn nonce_for(key: &DataKey, page_id: PageId) -> (nonce: [u8; 24])
    ensures
        nonce@ == nonce_of(key@, page_id),
{
    let full = derive_key(NONCE_CONTEXT, key.expose(), page_id.as_bytes());
    let mut nonce: [u8; 24] = [0u8;24];
    let mut i: usize = 0;
    while i < 24
        invariant
            i <= 24,
            forall|k: int| 0 <= k < i ==> nonce@[k] == full@[k],
        decreases 24 - i,
    {
        nonce[i] = full[i];
        i = i + 1;
    }
    assert(nonce@ =~= full@.take(24));
    nonce
}

fn aad_for(page_id: PageId) -> (aad: Vec<u8>)
    ensures
        aad@ == aad_of(page_id),
{
    let mut aad: Vec<u8> = Vec::new();
    aad.extend_from_slice(AAD_CONTEXT.as_bytes());
    aad.extend_from_slice(page_id.as_bytes());
    assert(aad@ =~= aad_of(page_id));
    aad
}

/// Encrypts a page's bytes for storage under the id of the plaintext.
pub fn seal(key: &DataKey, page_id: PageId, plaintext: &[u8]) -> (r: Result<Vec<u8>, SecurityError>)
    ensures
        match r {
            Ok(c) => fits_cipher(plaintext@.len()) && c@ == sealed(key@, page_id, plaintext@)
                && unsealed(key@, page_id, c@) == Some(plaintext@) && c@.len() == plaintext@.len()
                + TAG_BYTES,
            Err(e) => !fits_cipher(plaintext@.len()) && e is Encrypt,
        },
{
    let n: usize = plaintext.len();
    if too_many_blocks(n) || n > (isize::MAX as usize) - TAG_BYTES {
        return Err(SecurityError::Encrypt);
    }
    let aad = aad_for(page_id);
    match encrypt(key.expose(), &nonce_for(key, page_id), aad.as_slice(), plaintext) {
        Some(c) => Ok(c),
        None => Err(SecurityError::Encrypt),
    }
}

/// Decrypts a page's bytes and checks that they are the page that they claim to be, where page
/// identity is as this hasher has it.
pub fn open_as(key: &DataKey, hasher: &PageHasher, page_id: PageId, ciphertext: &[u8]) -> (r: Result<
    Vec<u8>,
    SecurityError,
>)
    ensures
        match r {
            Ok(m) => opened(key@, *hasher, page_id, ciphertext@) == Some(m@),
            Err(SecurityError::Decrypt { page }) => page == page_id && unsealed(
                key@,
                page_id,
                ciphertext@,
            ) is None,
            Err(e) => e == (SecurityError::PlaintextMismatch { page: page_id }) && (unsealed(
                key@,
                page_id,
                ciphertext@,
            ) matches Some(m) && hasher.id_of(m) != page_id),
        },
{
    if ciphertext.len() > TAG_BYTES && too_many_blocks(ciphertext.len() - TAG_BYTES) {
        return Err(SecurityError::Decrypt { page: page_id });
    }
    let aad = aad_for(page_id);
    let plaintext = match decrypt(
        key.expose(),
        &nonce_for(key, page_id),
        aad.as_slice(),
        ciphertext,
    ) {
        Some(m) => m,
        None => {
            return Err(SecurityError::Decrypt { page: page_id });
        },
    };
    if hasher.hash(plaintext.as_slice()) != page_id {
        return Err(SecurityError::PlaintextMismatch { page: page_id });
    }
    Ok(plaintext)
}

/// Decrypts a page's bytes and checks that they are the page that they claim to be, where page
/// identity is not keyed.
pub fn open(key: &DataKey, page_id: PageId, ciphertext: &[u8]) -> (r: Result<Vec<u8>, SecurityError>)
    ensures
        match r {
            Ok(m) => opened(key@, PageHasher::Unkeyed, page_id, ciphertext@) == Some(m@),
            Err(SecurityError::Decrypt { page }) => page == page_id && unsealed(
                key@,
                page_id,
                ciphertext@,
            ) is None,
            Err(e) => e == (SecurityError::PlaintextMismatch { page: page_id }) && (unsealed(
                key@,
                page_id,
                ciphertext@,
            ) matches Some(m) && PageHasher::Unkeyed.id_of(m) != page_id),
        },
{
    open_as(key, &PageHasher::Unkeyed, page_id, ciphertext)
}

/// A page store that keeps ciphertext in another one. Above it there is only plaintext.
pub struct EncryptedCas<C: Cas> {
    inner: C,
    key: DataKey,
    hasher: PageHasher,
}

/// The pages that raw bytes decrypt to.
pub open spec fn decrypted(
    raw: Map<PageId, Seq<u8>>,
    key: Seq<u8>,
    hasher: PageHasher,
) -> Map<PageId, Seq<u8>> {
    Map::new(
        |id: PageId| raw.contains_key(id) && opened(key, hasher, id, raw[id]) is Some,
        |id: PageId| opened(key, hasher, id, raw[id]).unwrap(),
    )
}

/// From `a` to `b` the page was sealed, and its ciphertext stored underneath.
pub open spec fn sealed_put<C: Cas>(
    a: EncryptedCas<C>,
    b: EncryptedCas<C>,
    id: PageId,
    bytes: Seq<u8>,
) -> bool {
    &&& b.spec_key() == a.spec_key()
    &&& b.spec_inner().raw() == a.spec_inner().raw().insert(id, sealed(a.spec_key(), id, bytes))
}

impl<C: Cas> EncryptedCas<C> {
    /// The store underneath.
    pub closed spec fn spec_inner(&self) -> C {
        self.inner
    }

    /// The key.
    pub closed spec fn spec_key(&self) -> Seq<u8> {
        self.key@
    }

    /// Encrypts what goes into a store, with one database's key.
    pub fn new(inner: C, key: DataKey, hasher: PageHasher) -> (c: EncryptedCas<C>)
        requires
            inner.inv(),
        ensures
            c.inv(),
            c.spec_inner() == inner,
            c.spec_key() == key@,
            c.hasher() == hasher,
            c.held_pages() == inner.held_pages(),
            inner.supports_raw() ==> c.pages() == decrypted(inner.raw(), key@, hasher),
            c.steady() == (inner.steady() && inner.supports_raw()),
    {
        EncryptedCas { inner, key, hasher }
    }

    /// The same, with the key that a provider has for the pool.
    pub fn from_provider<P: KeyProvider>(
        inner: C,
        provider: &P,
        pool: &str,
        database: &str,
        hasher: PageHasher,
    ) -> (r: Result<EncryptedCas<C>, SecurityError>)
        requires
            inner.inv(),
        ensures
            match r {
                Ok(c) => c.inv() && c.spec_inner() == inner && c.hasher() == hasher
                    && exists|m: PoolMasterKey|
                    call_ensures(
                        P::master_key,
                        (provider, pool),
                        Ok::<PoolMasterKey, SecurityError>(m),
                    ) && c.spec_key() == #[trigger] data_key(m@, database@),
                Err(e) => call_ensures(
                    P::master_key,
                    (provider, pool),
                    Err::<PoolMasterKey, SecurityError>(e),
                ),
            },
    {
        match provider.master_key(pool) {
            Ok(master) => {
                let key = master.derive_data_key(database);
                assert(key@ == data_key(master@, database@));
                Ok(EncryptedCas::new(inner, key, hasher))
            },
            Err(e) => Err(e),
        }
    }

    /// The store underneath.
    pub fn inner(&self) -> (c: &C)
        ensures
            *c == self.spec_inner(),
    {
        &self.inner
    }

    /// Gives the store underneath back.
    pub fn into_inner(self) -> (c: C)
        ensures
            c == self.spec_inner(),
    {
        self.inner
    }
}

impl<C: Cas> Backing for EncryptedCas<C> {
    closed spec fn inv(&self) -> bool {
        self.inner.inv()
    }

    closed spec fn steady(&self) -> bool {
        self.inner.steady() && self.inner.supports_raw()
    }

    closed spec fn tidy(&self) -> bool {
        self.inner.tidy()
    }

    closed spec fn hasher(&self) -> PageHasher {
        self.hasher
    }

    closed spec fn held_pages(&self) -> Set<PageId> {
        self.inner.held_pages()
    }

    closed spec fn pages(&self) -> Map<PageId, Seq<u8>> {
        if self.inner.supports_raw() {
            decrypted(self.inner.raw(), self.key@, self.hasher)
        } else {
            Map::empty()
        }
    }

    closed spec fn held_manifests(&self) -> Set<ManifestId> {
        self.inner.held_manifests()
    }

    closed spec fn manifests(&self) -> Map<ManifestId, ManifestView> {
        self.inner.manifests()
    }

    closed spec fn roots(&self) -> Seq<Names> {
        self.inner.roots()
    }

    closed spec fn elsewhere(&self) -> (Map<Names, Seq<u8>>, Set<Names>) {
        self.inner.elsewhere()
    }

    proof fn contents_are_what_their_ids_say(&self) {
        self.inner.contents_are_what_their_ids_say();
        if self.inner.supports_raw() {
            self.inner.raw_is_what_is_held();
            assert forall|id: PageId| #[trigger]
                self.pages().dom().contains(id) implies self.held_pages().contains(id) by {
                assert(self.inner.raw().dom().contains(id));
            }
        }
    }
}

impl<C: Cas> Cas for EncryptedCas<C> {
    closed spec fn supports_raw(&self) -> bool {
        self.inner.supports_raw()
    }

    closed spec fn raw(&self) -> Map<PageId, Seq<u8>> {
        self.inner.raw()
    }

    open spec fn takes(len: nat) -> bool {
        fits_cipher(len)
    }

    proof fn raw_is_what_is_held(&self) {
        self.inner.raw_is_what_is_held();
    }

    fn put(&mut self, page: &Page) -> (r: Result<(), PagerError>)
        ensures
            r is Ok ==> sealed_put(*old(self), *final(self), page.spec_id(), page@),
    {
        let id = page.id();
        let ciphertext = match seal(&self.key, id, page.as_bytes()) {
            Ok(c) => c,
            Err(_) => {
                return Err(PagerError::backend("failed to encrypt a page"));
            },
        };
        let ghost a = *self;
        let r = Cas::put_raw(&mut self.inner, id, ciphertext.as_slice());
        proof {
            if r is Ok {
                assert(self.pages() =~= with_page(a.pages(), a.hasher(), id, page@));
            } else {
                assert(self.pages() =~= a.pages());
            }
        }
        r
    }

    fn get(&self, id: PageId) -> (r: Result<Page, PagerError>) {
        let stored = match Cas::get_raw(&self.inner, id) {
            Ok(b) => b,
            Err(e) => {
                proof {
                    if self.inner.supports_raw() {
                        self.inner.raw_is_what_is_held();
                        assert(self.inner.raw().dom().contains(id)
                            == self.inner.held_pages().contains(id));
                    }
                }
                return Err(e);
            },
        };
        proof {
            self.inner.raw_is_what_is_held();
            assert(self.inner.held_pages().contains(id));
        }
        match open_as(&self.key, &self.hasher, id, stored.as_slice()) {
            Ok(plaintext) => {
                assert(plaintext.len() <= usize::MAX);
                Page::new(&self.hasher, plaintext, usize::MAX)
            },
            Err(_) => {
                Err(PagerError::CorruptPage { expected: id, actual: id, len: stored.len() })
            },
        }
    }

    fn contains(&self, id: PageId) -> (r: Result<bool, PagerError>) {
        Cas::contains(&self.inner, id)
    }

    fn remove(&mut self, id: PageId) -> (r: Result<(), PagerError>) {
        let ghost a = *self;
        let r = Cas::remove(&mut self.inner, id);
        proof {
            if r is Ok {
                assert(self.pages() =~= a.pages().remove(id));
            }
        }
        r
    }

    fn list(&self) -> (r: Result<Vec<PageId>, PagerError>) {
        Cas::list(&self.inner)
    }

    fn put_raw(&mut self, id: PageId, bytes: &[u8]) -> (r: Result<(), PagerError>) {
        let ghost a = *self;
        let r = Cas::put_raw(&mut self.inner, id, bytes);
        proof {
            if r is Ok {
                assert(self.pages().remove(id) =~= a.pages().remove(id));
            }
        }
        r
    }

    fn get_raw(&self, id: PageId) -> (r: Result<Vec<u8>, PagerError>) {
        Cas::get_raw(&self.inner, id)
    }
}

/// A page that was sealed under its id opens to what it was, under the same key and id.
pub proof fn what_was_sealed_opens(
    key: &DataKey,
    hasher: &PageHasher,
    id: PageId,
    plaintext: &[u8],
    sealed_as: Result<Vec<u8>, SecurityError>,
    ciphertext: &[u8],
    r: Result<Vec<u8>, SecurityError>,
)
    requires
        call_ensures(PageHasher::hash, (hasher, plaintext), id),
        call_ensures(seal, (key, id, plaintext), sealed_as),
        sealed_as is Ok ==> ciphertext@ == sealed_as->Ok_0@,
        call_ensures(open_as, (key, hasher, id, ciphertext), r),
    ensures
        sealed_as is Err <==> plaintext@.len() > 274877906816 || plaintext@.len() + 16 > isize::MAX,
        sealed_as is Ok ==> ciphertext@.len() == plaintext@.len() + 16 && r is Ok && r->Ok_0@
            == plaintext@,
{
}

/// What opens under an id is a page with that id: the plaintext of the ciphertext, with the nonce and
/// the data that belong to the key and the id, and its own hash. Whatever does not authenticate, or
/// authenticates and is another page, is refused, and each under its own name.
pub proof fn what_opens_is_the_page(
    key: &DataKey,
    hasher: &PageHasher,
    id: PageId,
    ciphertext: &[u8],
    nonce: [u8; 24],
    r: Result<Vec<u8>, SecurityError>,
)
    requires
        call_ensures(nonce_for, (key, id), nonce),
        call_ensures(open_as, (key, hasher, id, ciphertext), r),
        ciphertext@.len() <= 274877906816,
    ensures
        ({
            let inside = xchacha_opened(
                key@,
                nonce@,
                encode_utf8("substrate-page-v1"@) + id.0@,
                ciphertext@,
            );
            &&& r is Ok <==> inside is Some && hasher.id_of(inside.unwrap()) == id
            &&& r is Ok ==> Some(r->Ok_0@) == inside
            &&& inside is None ==> (r matches Err(SecurityError::Decrypt { page }) && page == id)
            &&& inside is Some && hasher.id_of(inside.unwrap()) != id ==> (r
                matches Err(SecurityError::PlaintextMismatch { page }) && page == id)
        }),
{
}

/// The nonce of a page comes from the whole key and the whole id, and from nothing else.
pub proof fn a_nonce_comes_from_the_key_and_the_id(key: &DataKey, id: PageId, nonce: [u8; 24])
    requires
        call_ensures(nonce_for, (key, id), nonce),
    ensures
        nonce@ == blake3_derived("substrate-page-nonce-v1"@, key@ + id.0@).take(24),
        nonce@.len() == 24,
{
}

/// What a sealed page consists of.
pub proof fn a_page_is_sealed_with_its_key_and_its_id(
    key: &DataKey,
    id: PageId,
    plaintext: &[u8],
    nonce: [u8; 24],
    r: Result<Vec<u8>, SecurityError>,
)
    requires
        call_ensures(nonce_for, (key, id), nonce),
        call_ensures(seal, (key, id, plaintext), r),
    ensures
        r is Ok ==> r->Ok_0@ == xchacha_sealed(
            key@,
            nonce@,
            encode_utf8("substrate-page-v1"@) + id.0@,
            plaintext@,
        ),
{
}

/// What is stored underneath for a page is its ciphertext, sealed with the key, the nonce and the id that
/// belong to it, and never the page itself; what is stored for other pages stays.
pub proof fn a_page_is_stored_as_its_ciphertext<C: Cas>(
    a: EncryptedCas<C>,
    b: EncryptedCas<C>,
    key: &DataKey,
    id: PageId,
    nonce: [u8; 24],
    bytes: Seq<u8>,
    other: PageId,
)
    requires
        sealed_put(a, b, id, bytes),
        key@ == a.spec_key(),
        call_ensures(nonce_for, (key, id), nonce),
    ensures
        b.spec_inner().raw().get(id) == Some(
            xchacha_sealed(key@, nonce@, encode_utf8("substrate-page-v1"@) + id.0@, bytes),
        ),
        other != id ==> b.spec_inner().raw().get(other) == a.spec_inner().raw().get(other),
        b.spec_key() == a.spec_key(),
{
}

/// A page is read from the ciphertext that is stored underneath for it, and from nothing else: what it is
/// opened to, with the key, the nonce and the id that belong to it, is the page, if that hashes to the id.
pub proof fn a_page_is_read_from_its_ciphertext<C: Cas>(
    s: &EncryptedCas<C>,
    key: &DataKey,
    id: PageId,
    nonce: [u8; 24],
    r: Result<Page, PagerError>,
)
    requires
        call_ensures(<EncryptedCas<C> as Cas>::get, (s, id), r),
        s.steady(),
        key@ == s.spec_key(),
        call_ensures(nonce_for, (key, id), nonce),
        s.inv(),
        s.spec_inner().raw().contains_key(id) ==> s.spec_inner().raw()[id].len() <= 274877906816,
    ensures
        ({
            let inside = xchacha_opened(
                key@,
                nonce@,
                encode_utf8("substrate-page-v1"@) + id.0@,
                s.spec_inner().raw()[id],
            );
            &&& r is Ok <==> s.spec_inner().raw().contains_key(id) && inside is Some
                && s.hasher().id_of(inside.unwrap()) == id
            &&& r is Ok ==> Some(r->Ok_0@) == inside && r->Ok_0.spec_id() == id
            &&& !s.spec_inner().raw().contains_key(id) ==> r->Err_0@ == Fault::MissingPage(id)
        }),
        s.raw() == s.spec_inner().raw(),
        s.held_pages() == s.spec_inner().held_pages(),
{
    s.spec_inner().raw_is_what_is_held();
    assert(s.spec_inner().raw().dom().contains(id) == s.spec_inner().held_pages().contains(id));
}

} // verus!
