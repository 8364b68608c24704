//! Pages and page identity: the identity of a page is the hash of its bytes.

use crate::error::{Fault, PagerError};
use crate::hashing::{
    array32, array32_ext, array32_of_view, blake3_digest, blake3_keyed_digest, digest,
    keyed_digest, same_bytes,
};
use crate::text::{all_hex, from_hex, hex, hex_is_injective, hex_round_trips, to_hex, unhex};
use vstd::arithmetic::power2::{lemma_pow2_pos, lemma_pow2_strictly_increases, lemma_pow2_unfold, pow2};
use vstd::prelude::*;

verus! {

/// The default page size: 64 KiB.
pub const DEFAULT_PAGE_SIZE: usize = 65536;

/// The smallest page size a store may be created with.
pub const MIN_PAGE_SIZE: usize = 4096;

/// The largest page size a store may be created with.
pub const MAX_PAGE_SIZE: usize = 16777216;

/// A logical page number: the address a database uses, wherever the bytes are.
pub type LogicalPageNo = u64;

/// The content hash of a page.
#[derive(Clone, Copy, Debug, Hash, PartialOrd, Ord)]
pub struct PageId(pub [u8; 32]);

impl PartialEq for PageId {
    fn eq(&self, other: &PageId) -> (r: bool) {
        let r = same_bytes(&self.0, &other.0);
        assert(r == (self.0 == other.0));
        assert(r == (*self == *other));
        r
    }
}

impl Eq for PageId {

}

impl vstd::std_specs::cmp::PartialEqSpecImpl for PageId {
    open spec fn obeys_eq_spec() -> bool {
        true
    }

    open spec fn eq_spec(&self, other: &PageId) -> bool {
        *self == *other
    }
}

/// A set of page ids.
pub type PageIdSet = crate::ordmap::OrdMap<PageId, ()>;

/// The id of these bytes where identity is not keyed.
pub open spec fn plain_id(bytes: Seq<u8>) -> PageId {
    PageId(array32(blake3_digest(bytes)))
}

/// The id of these bytes in the pool with this key.
pub open spec fn keyed_id(key: Seq<u8>, bytes: Seq<u8>) -> PageId {
    PageId(array32(blake3_keyed_digest(key, bytes)))
}

impl PageId {
    /// Computes the id of these bytes.
    pub fn of(bytes: &[u8]) -> (id: PageId)
        ensures
            id == plain_id(bytes@),
            id.0@ == blake3_digest(bytes@),
    {
        let d = digest(bytes);
        proof {
            array32_of_view(d);
        }
        PageId(d)
    }

    /// Computes the id of these bytes under a pool's secret key.
    pub fn of_keyed(pool_key: &[u8; 32], bytes: &[u8]) -> (id: PageId)
        ensures
            id == keyed_id(pool_key@, bytes@),
            id.0@ == blake3_keyed_digest(pool_key@, bytes@),
    {
        let d = keyed_digest(pool_key, bytes);
        proof {
            array32_of_view(d);
        }
        PageId(d)
    }

    /// The raw 32 bytes.
    pub fn as_bytes(&self) -> (b: &[u8; 32])
        ensures
            *b == self.0,
    {
        &self.0
    }

    /// The id with these bytes, whether or not any page hashes to it.
    pub fn from_bytes(bytes: [u8; 32]) -> (id: PageId)
        ensures
            id == PageId(bytes),
    {
        PageId(bytes)
    }

    /// Lowercase hex, 64 characters.
    pub fn to_hex(self) -> (s: String)
        ensures
            s@ == hex(self.0@),
            s@.len() == 64,
    {
        to_hex(self.0.as_slice())
    }

    /// Parses 64 hex characters of either case.
    pub fn from_hex(s: &str) -> (r: Result<PageId, PagerError>)
        ensures
            match r {
                Ok(id) => s@.len() == 64 && all_hex(s@) && id.0@ == unhex(s@),
                Err(e) => (s@.len() != 64 || !all_hex(s@)) && e@ == Fault::MalformedId(s@),
            },
    {
        match from_hex(s) {
            Some(bytes) => Ok(PageId(bytes)),
            None => Err(PagerError::MalformedId(s.to_owned())),
        }
    }

    /// The first twelve hex characters: enough to tell ids apart in a log.
    pub fn abbreviated(&self) -> (s: String)
        ensures
            s@ == hex(self.0@).take(12),
    {
        let full = self.to_hex();
        let short = full.as_str().substring_char(0, 12).to_owned();
        assert(full@.subrange(0, 12) =~= full@.take(12));
        short
    }

    /// The two directory names that a page is stored under: its first two bytes in hex.
    pub fn shard(&self) -> (r: (String, String))
        ensures
            r.0@ == hex(self.0@).subrange(0, 2),
            r.1@ == hex(self.0@).subrange(2, 4),
    {
        let full = self.to_hex();
        (
            full.as_str().substring_char(0, 2).to_owned(),
            full.as_str().substring_char(2, 4).to_owned(),
        )
    }
}

/// An id parsed from its printed form is the id that was printed.
pub proof fn page_id_hex_round_trips(id: PageId, parsed: PageId)
    ensures
        hex(id.0@).len() == 64 && all_hex(hex(id.0@)),
        parsed.0@ == unhex(hex(id.0@)) ==> parsed == id,
{
    hex_round_trips(id.0@);
    if parsed.0@ == unhex(hex(id.0@)) {
        array32_ext(parsed.0, id.0);
    }
}

/// Two ids that print alike are the same id.
pub proof fn page_id_hex_injective(a: PageId, b: PageId)
    requires
        hex(a.0@) == hex(b.0@),
    ensures
        a == b,
{
    hex_is_injective(a.0@, b.0@);
    array32_ext(a.0, b.0);
}

/// How a store computes page identity. Fixed when the store is created.
pub enum PageHasher {
    /// The id of a page is the hash of its bytes.
    Unkeyed,
    /// The id of a page is the hash of its bytes under the pool's key.
    Keyed([u8; 32]),
}

impl PageHasher {
    /// The id that this scheme gives to these bytes.
    pub open spec fn id_of(&self, bytes: Seq<u8>) -> PageId {
        match self {
            PageHasher::Unkeyed => plain_id(bytes),
            PageHasher::Keyed(key) => keyed_id(key@, bytes),
        }
    }

    /// Computes the id of these bytes under this store's identity scheme.
    pub fn hash(&self, bytes: &[u8]) -> (id: PageId)
        ensures
            id == self.id_of(bytes@),
            id.0@ == (match self {
                PageHasher::Unkeyed => blake3_digest(bytes@),
                PageHasher::Keyed(key) => blake3_keyed_digest(key@, bytes@),
            }),
    {
        match self {
            PageHasher::Unkeyed => PageId::of(bytes),
            PageHasher::Keyed(key) => PageId::of_keyed(key, bytes),
        }
    }

    /// Whether identity is keyed.
    pub fn is_keyed(&self) -> (r: bool)
        ensures
            r == (self is Keyed),
    {
        match self {
            PageHasher::Unkeyed => false,
            PageHasher::Keyed(_) => true,
        }
    }

    /// The scheme as it may be printed: never with the key.
    pub fn redacted(&self) -> (s: String)
        ensures
            s@ == (match self {
                PageHasher::Unkeyed => "PageHasher::Unkeyed"@,
                PageHasher::Keyed(_) => "PageHasher::Keyed(<redacted>)"@,
            }),
    {
        match self {
            PageHasher::Unkeyed => "PageHasher::Unkeyed".to_owned(),
            PageHasher::Keyed(_) => "PageHasher::Keyed(<redacted>)".to_owned(),
        }
    }
}

impl Clone for PageHasher {
    fn clone(&self) -> (h: PageHasher)
        ensures
            h == *self,
    {
        match self {
            PageHasher::Unkeyed => PageHasher::Unkeyed,
            PageHasher::Keyed(key) => PageHasher::Keyed(*key),
        }
    }
}

impl Default for PageHasher {
    fn default() -> (h: PageHasher)
        ensures
            h == PageHasher::Unkeyed,
    {
        PageHasher::Unkeyed
    }
}

/// What a scheme prints does not depend on its key.
pub proof fn printing_a_hasher_never_shows_its_key(a: PageHasher, b: PageHasher, sa: String, sb: String)
    requires
        a is Keyed && b is Keyed,
        call_ensures(PageHasher::redacted, (&a,), sa),
        call_ensures(PageHasher::redacted, (&b,), sb),
    ensures
        sa@ == sb@,
{
}

/// An immutable block of bytes, with its id.
#[derive(Debug)]
pub struct Page {
    id: PageId,
    bytes: Vec<u8>,
}

impl Page {
    /// The id the page goes by.
    pub closed spec fn spec_id(&self) -> PageId {
        self.id
    }
}

impl View for Page {
    type V = Seq<u8>;

    closed spec fn view(&self) -> Seq<u8> {
        self.bytes@
    }
}

impl Page {
    /// Builds a page from bytes, unless they exceed the store's page size.
    pub fn new(hasher: &PageHasher, bytes: Vec<u8>, page_size: usize) -> (r: Result<Page, PagerError>)
        ensures
            match r {
                Ok(page) => bytes@.len() <= page_size && page@ == bytes@ && page.spec_id()
                    == hasher.id_of(bytes@),
                Err(e) => bytes@.len() > page_size && e@ == (Fault::PageTooLarge {
                    actual: bytes@.len() as usize,
                    page_size,
                }),
            },
    {
        if bytes.len() > page_size {
            return Err(PagerError::PageTooLarge { actual: bytes.len(), page_size });
        }
        let id = hasher.hash(bytes.as_slice());
        Ok(Page { id, bytes })
    }

    /// The page's content hash.
    pub fn id(&self) -> (id: PageId)
        ensures
            id == self.spec_id(),
    {
        self.id
    }

    /// The page's bytes.
    pub fn as_bytes(&self) -> (b: &[u8])
        ensures
            b@ == self@,
    {
        self.bytes.as_slice()
    }

    /// Gives up the page for its bytes.
    pub fn into_bytes(self) -> (b: Vec<u8>)
        ensures
            b@ == self@,
    {
        self.bytes
    }

    /// How many bytes the page holds.
    pub fn len(&self) -> (n: usize)
        ensures
            n == self@.len(),
    {
        self.bytes.len()
    }

    /// Whether the page holds no bytes.
    pub fn is_empty(&self) -> (r: bool)
        ensures
            r == (self@.len() == 0),
    {
        self.bytes.len() == 0
    }

    /// Hashes the bytes again and makes a page of them only if they still match the id.
    pub fn verify(hasher: &PageHasher, id: PageId, bytes: Vec<u8>) -> (r: Result<Page, PagerError>)
        ensures
            match r {
                Ok(page) => hasher.id_of(bytes@) == id && page@ == bytes@ && page.spec_id() == id,
                Err(e) => hasher.id_of(bytes@) != id && e@ == (Fault::CorruptPage {
                    expected: id,
                    actual: hasher.id_of(bytes@),
                    len: bytes@.len(),
                }),
            },
    {
        let actual = hasher.hash(bytes.as_slice());
        if actual != id {
            return Err(PagerError::CorruptPage { expected: id, actual, len: bytes.len() });
        }
        Ok(Page { id, bytes })
    }
}

impl Clone for Page {
    fn clone(&self) -> (p: Page)
        ensures
            p@ == self@,
            p.spec_id() == self.spec_id(),
    {
        let p = Page { id: self.id, bytes: self.bytes.clone() };
        assert(p.bytes@ =~= self.bytes@);
        p
    }
}

/// A power of two between the smallest and the largest page size.
pub open spec fn page_size_ok(size: int) -> bool {
    MIN_PAGE_SIZE <= size <= MAX_PAGE_SIZE && exists|k: nat| size == #[trigger] pow2(k)
}

/// Refuses a page size that no store may have.
pub fn validate_page_size(size: usize) -> (r: Result<(), PagerError>)
    ensures
        match r {
            Ok(()) => page_size_ok(size as int),
            Err(e) => !page_size_ok(size as int) && e@ == Fault::InvalidPageSize(size),
        },
{
    if size < MIN_PAGE_SIZE || size > MAX_PAGE_SIZE {
        return Err(PagerError::InvalidPageSize(size));
    }
    let mut p: usize = MIN_PAGE_SIZE;
    let ghost mut k: nat = 12;
    proof {
        vstd::arithmetic::power2::lemma2_to64();
    }
    while p < size
        invariant
            p == pow2(k),
            MIN_PAGE_SIZE <= p <= 2 * MAX_PAGE_SIZE,
            MIN_PAGE_SIZE <= size <= MAX_PAGE_SIZE,
            k >= 12,
            k == 12 || pow2((k - 1) as nat) < size,
            k == 12 ==> p == MIN_PAGE_SIZE,
        decreases 4 * MAX_PAGE_SIZE - p,
    {
        proof {
            lemma_pow2_unfold((k + 1) as nat);
            lemma_pow2_pos(k);
        }
        p = p * 2;
        proof {
            k = k + 1;
        }
    }
    if p != size {
        proof {
            assert forall|j: nat| size != #[trigger] pow2(j) by {
                if j < k {
                    if j < k - 1 {
                        lemma_pow2_strictly_increases(j, (k - 1) as nat);
                    }
                    if k == 12 {
                        lemma_pow2_strictly_increases(j, k);
                    }
                } else if j > k {
                    lemma_pow2_strictly_increases(k, j);
                }
            }
        }
        return Err(PagerError::InvalidPageSize(size));
    }
    Ok(())
}

/// The id of a page is the digest of all of its bytes: two pages share an id exactly where BLAKE3
/// gives their whole contents the same digest.
pub proof fn a_page_is_known_by_all_of_its_bytes(a: &[u8], b: &[u8], x: PageId, y: PageId)
    requires
        call_ensures(PageId::of, (a,), x),
        call_ensures(PageId::of, (b,), y),
    ensures
        x.0@ == blake3_digest(a@),
        x == plain_id(a@),
        x == y <==> blake3_digest(a@) == blake3_digest(b@),
{
    if x.0@ == y.0@ {
        array32_ext(x.0, y.0);
    }
}

/// The same under a pool's key, which counts as well.
pub proof fn a_keyed_page_is_known_by_its_key_and_all_of_its_bytes(
    k: &[u8; 32],
    l: &[u8; 32],
    a: &[u8],
    b: &[u8],
    x: PageId,
    y: PageId,
)
    requires
        call_ensures(PageId::of_keyed, (k, a), x),
        call_ensures(PageId::of_keyed, (l, b), y),
    ensures
        x.0@ == blake3_keyed_digest(k@, a@),
        x == keyed_id(k@, a@),
        x == y <==> blake3_keyed_digest(k@, a@) == blake3_keyed_digest(l@, b@),
{
    if x.0@ == y.0@ {
        array32_ext(x.0, y.0);
    }
}

/// A store hashes as its scheme says: plainly, or with the key that it was given and no other.
pub proof fn a_store_hashes_as_its_scheme_says(h: &PageHasher, bytes: &[u8], id: PageId)
    requires
        call_ensures(PageHasher::hash, (h, bytes), id),
    ensures
        *h is Unkeyed ==> id.0@ == blake3_digest(bytes@),
        *h matches PageHasher::Keyed(key) ==> id.0@ == blake3_keyed_digest(key@, bytes@),
        h.id_of(bytes@) == id,
{
}

/// Bytes that are read are taken for a page exactly where their digest is its id; then they are the
/// page, all of them, and otherwise the error names both ids.
pub proof fn reading_checks_every_byte(
    h: &PageHasher,
    id: PageId,
    bytes: Vec<u8>,
    same: &[u8],
    actual: PageId,
    r: Result<Page, PagerError>,
)
    requires
        same@ == bytes@,
        call_ensures(PageHasher::hash, (h, same), actual),
        call_ensures(Page::verify, (h, id, bytes), r),
    ensures
        r is Ok <==> actual.0@ == id.0@,
        r is Ok ==> r->Ok_0@ == bytes@ && r->Ok_0.spec_id() == id,
        r is Err ==> r->Err_0@ == (Fault::CorruptPage { expected: id, actual, len: bytes@.len() }),
{
    if actual.0@ == id.0@ {
        array32_ext(actual.0, id.0);
    }
}

/// A page is refused exactly where it is longer than the store's pages; else it is the bytes that
/// were given, under their digest.
pub proof fn a_page_holds_the_bytes_it_was_made_of(
    h: &PageHasher,
    bytes: Vec<u8>,
    same: &[u8],
    size: usize,
    id: PageId,
    r: Result<Page, PagerError>,
)
    requires
        same@ == bytes@,
        call_ensures(PageHasher::hash, (h, same), id),
        call_ensures(Page::new, (h, bytes, size), r),
    ensures
        r is Err <==> bytes@.len() > size,
        r is Ok ==> r->Ok_0@ == bytes@ && r->Ok_0.spec_id() == id,
{
}

/// What is read from a text is the id that prints as it, and what cannot be read is named.
pub proof fn a_page_id_is_what_its_text_says(
    text: &str,
    r: Result<PageId, PagerError>,
    raw: Option<[u8; 32]>,
)
    requires
        call_ensures(PageId::from_hex, (text,), r),
        call_ensures(from_hex, (text,), raw),
    ensures
        r is Ok <==> raw is Some,
        r is Ok ==> r->Ok_0.0@ == raw->Some_0@,
        r is Err ==> r->Err_0@ == Fault::MalformedId(text@),
{
}

/// Short forms of an id are the beginning of what it prints as: twelve digits where it is mentioned, and
/// two and two more where it is filed.
pub proof fn short_forms_begin_the_long_one(
    id: PageId,
    whole: String,
    short: String,
    shard: (String, String),
)
    requires
        call_ensures(PageId::to_hex, (id,), whole),
        call_ensures(PageId::abbreviated, (&id,), short),
        call_ensures(PageId::shard, (&id,), shard),
    ensures
        whole@.len() == 64,
        short@.len() == 12 && short@.is_prefix_of(whole@),
        shard.0@.len() == 2 && shard.1@.len() == 2 && (shard.0@ + shard.1@).is_prefix_of(whole@),
{
    hex_round_trips(id.0@);
    assert(shard.0@ + shard.1@ =~= whole@.take(4));
}

} // verus!
