//! Where things are in object storage: every key starts with the pool, so that pools never share
//! an object.

use crate::error::{IoError, PagerError};
use crate::manifest::ManifestId;
use crate::page::PageId;
use crate::path::VPath;
use crate::record::WalError;
use crate::text::{hex, padded, to_padded};
use vstd::prelude::*;

verus! {

/// Everything that can go wrong in the tiering layer.
#[allow(inconsistent_fields)]
#[non_exhaustive]
#[derive(Debug)]
pub enum StoreError {
    /// Something is in neither the local cache nor object storage, or would be.
    PageLost(String),
    /// Object storage said no.
    Remote { key: String, reason: String },
    /// A wake token could not be read.
    MalformedToken(String),
    /// A store of one pool was asked for something of another.
    PoolBoundary { ours: String, theirs: String },
    /// There is no runtime on which to wait for object storage.
    NoRuntime,
    /// The pager refused.
    Pager(PagerError),
    /// The log refused.
    Wal(WalError),
    /// Something could not be turned into text, or back.
    Codec { op: &'static str, what: &'static str, source: serde_json::Error },
    /// The local filesystem said no.
    Io { path: VPath, source: IoError },
}

/// The object path that a text comes to.
pub uninterp spec fn object_path(s: Seq<char>) -> Seq<char>;

/// A character that an object path keeps as it is.
pub open spec fn plain_char(c: char) -> bool {
    &&& ' ' <= c <= '}'
    &&& c != '/' && c != '\\' && c != '{' && c != '}' && c != '[' && c != ']' && c != '<' && c != '>'
    &&& c != '^' && c != '%' && c != '`' && c != '"' && c != '#' && c != '|' && c != '*' && c != '?'
}

/// A text of plain parts, none of them empty or with a dot in front, and a slash between every two.
pub open spec fn plain_path(s: Seq<char>) -> bool {
    &&& s.len() > 0
    &&& s[0] != '/' && s[0] != '.'
    &&& s[s.len() - 1] != '/'
    &&& forall|i: int| 0 <= i < s.len() ==> plain_char(#[trigger] s[i]) || s[i] == '/'
    &&& forall|i: int|
        0 <= i < s.len() - 1 && #[trigger] s[i] == '/' ==> s[i + 1] != '/' && s[i + 1] != '.'
}

/// `object_store::path::Path::from`: the path is a function of the text, and a text of plain parts
/// is its own path.
#[verifier::external_body]
fn to_object_path(s: &str) -> (p: String)
    ensures
        p@ == object_path(s@),
        plain_path(s@) ==> p@ == s@,
{
    object_store::path::Path::from(s).as_ref().to_owned()
}

/// The text of a page's key, before it becomes a path.
pub open spec fn page_key_text(pool: Seq<char>, id: PageId) -> Seq<char> {
    let h = hex(id.0@);
    pool + "/pages/"@ + h.take(2) + "/"@ + h.subrange(2, 4) + "/"@ + h
}

/// The text of a manifest's key, before it becomes a path.
pub open spec fn manifest_key_text(pool: Seq<char>, id: ManifestId) -> Seq<char> {
    pool + "/manifests/"@ + hex(id.0@)
}

/// The text of a sealed segment's key, before it becomes a path.
pub open spec fn segment_key_text(pool: Seq<char>, segment: u64) -> Seq<char> {
    pool + "/wal/"@ + padded(segment as nat, 12) + ".wal"@
}

/// Object storage, bound to one pool.
pub struct RemoteTier {
    pool: String,
}

impl View for RemoteTier {
    type V = Seq<char>;

    closed spec fn view(&self) -> Seq<char> {
        self.pool@
    }
}

impl RemoteTier {
    /// Binds object storage to a pool.
    pub fn new(pool: &str) -> (t: RemoteTier)
        ensures
            t@ == pool@,
    {
        RemoteTier { pool: pool.to_owned() }
    }

    /// The pool.
    pub fn pool(&self) -> (p: &str)
        ensures
            p@ == self@,
    {
        self.pool.as_str()
    }

    /// The key that a page lives at.
    pub fn page_key(&self, id: PageId) -> (k: String)
        ensures
            k@ == object_path(page_key_text(self@, id)),
            plain_path(page_key_text(self@, id)) ==> k@ == page_key_text(self@, id),
    {
        let h = id.to_hex();
        proof {
            crate::text::hex_round_trips(id.0@);
            assert(h@.subrange(0, 2) =~= h@.take(2));
        }
        let (first, second) = (h.as_str().substring_char(0, 2), h.as_str().substring_char(2, 4));
        let text = self.pool.clone().concat("/pages/").concat(first).concat("/").concat(
            second,
        ).concat("/").concat(h.as_str());
        to_object_path(text.as_str())
    }

    /// The key that a manifest lives at.
    pub fn manifest_key(&self, id: ManifestId) -> (k: String)
        ensures
            k@ == object_path(manifest_key_text(self@, id)),
            plain_path(manifest_key_text(self@, id)) ==> k@ == manifest_key_text(self@, id),
    {
        let text = self.pool.clone().concat("/manifests/").concat(id.to_hex().as_str());
        to_object_path(text.as_str())
    }

    /// The key that a sealed segment of the log lives at.
    pub fn segment_key(&self, segment: u64) -> (k: String)
        ensures
            k@ == object_path(segment_key_text(self@, segment)),
            plain_path(segment_key_text(self@, segment)) ==> k@ == segment_key_text(self@, segment),
    {
        let text = self.pool.clone().concat("/wal/").concat(to_padded(segment, 12).as_str()).concat(
            ".wal",
        );
        to_object_path(text.as_str())
    }

    /// Refuses to touch anything of another pool.
    pub fn guard_pool(&self, named: &str) -> (r: Result<(), StoreError>)
        ensures
            match r {
                Ok(()) => named@ == self@,
                Err(e) => named@ != self@ && e is PoolBoundary && e->PoolBoundary_ours@ == self@
                    && e->PoolBoundary_theirs@ == named@,
            },
    {
        let n: usize = named.unicode_len();
        let mut same = n == self.pool.as_str().unicode_len();
        let mut i: usize = 0;
        while same && i < n
            invariant
                i <= n,
                n == named@.len(),
                same ==> n == self.pool@.len() && forall|k: int|
                    0 <= k < i ==> named@[k] == self.pool@[k],
                !same ==> named@ != self.pool@,
            decreases n - i,
        {
            if named.get_char(i) != self.pool.as_str().get_char(i) {
                same = false;
            }
            i = i + 1;
        }
        if same {
            assert(named@ =~= self.pool@);
            return Ok(());
        }
        Err(StoreError::PoolBoundary { ours: self.pool.clone(), theirs: named.to_owned() })
    }
}

impl Clone for RemoteTier {
    fn clone(&self) -> (t: RemoteTier)
        ensures
            t@ == self@,
    {
        RemoteTier { pool: self.pool.clone() }
    }
}

/// A pool's name that is one plain part.
pub open spec fn plain_pool(pool: Seq<char>) -> bool {
    pool.len() > 0 && pool[0] != '.' && forall|i: int| 0 <= i < pool.len() ==> plain_char(#[trigger] pool[i])
}

/// Keys with a plain pool name are plain.
proof fn lemma_key_is_plain(pool: Seq<char>, rest: Seq<char>)
    requires
        plain_pool(pool),
        rest.len() > 1,
        rest[0] == '/',
        plain_path(rest.skip(1)),
    ensures
        plain_path(pool + rest),
{
    let s = pool + rest;
    let t = rest.skip(1);
    assert forall|i: int| 0 <= i < s.len() implies plain_char(#[trigger] s[i]) || s[i] == '/' by {
        if i < pool.len() {
            assert(s[i] == pool[i]);
        } else if i > pool.len() {
            assert(s[i] == t[i - pool.len() - 1]);
        }
    }
    assert forall|i: int| 0 <= i < s.len() - 1 && #[trigger] s[i] == '/' implies s[i + 1] != '/'
        && s[i + 1] != '.' by {
        if i + 1 < pool.len() {
            assert(s[i] == pool[i]);
        } else if i + 1 == pool.len() {
            assert(s[i] == pool[i]);
        } else if i == pool.len() {
            assert(s[i + 1] == t[0]);
        } else {
            assert(s[i] == t[i - pool.len() - 1]);
            assert(s[i + 1] == t[i - pool.len()]);
        }
    }
    assert(s[0] == pool[0]);
    assert(s[s.len() - 1] == t[t.len() - 1]);
}

proof fn lemma_hex_is_plain(bytes: Seq<u8>)
    ensures
        forall|i: int|
            0 <= i < hex(bytes).len() ==> plain_char(#[trigger] hex(bytes)[i]) && hex(bytes)[i]
                != '.',
{
    assert forall|i: int| 0 <= i < hex(bytes).len() implies plain_char(#[trigger] hex(bytes)[i])
        && hex(bytes)[i] != '.' by {
        crate::text::hex_round_trips(bytes);
        assert(crate::text::all_hex(hex(bytes)));
    }
}

/// Two pools with plain names never have an object in common, not even for the same content: the
/// keys of pages differ, the keys of manifests differ, and no page of one is a manifest of the
/// other.
pub proof fn pools_never_share_a_key(
    a: Seq<char>,
    b: Seq<char>,
    p: PageId,
    q: PageId,
    m: ManifestId,
    n: ManifestId,
)
    requires
        plain_pool(a),
        plain_pool(b),
        a != b,
    ensures
        plain_path(page_key_text(a, p)),
        plain_path(manifest_key_text(a, m)),
        page_key_text(a, p) != page_key_text(b, q),
        manifest_key_text(a, m) != manifest_key_text(b, n),
        page_key_text(a, p) != manifest_key_text(b, n),
{
    reveal_strlit("/pages/");
    reveal_strlit("/manifests/");
    reveal_strlit("/");
    lemma_page_key(a, p);
    lemma_page_key(b, q);
    lemma_manifest_key(a, m);
    lemma_manifest_key(b, n);
    lemma_first_part(a, b, page_rest(p), page_rest(q));
    lemma_first_part(a, b, manifest_rest(m), manifest_rest(n));
    lemma_first_part(a, b, page_rest(p), manifest_rest(n));
}

/// A text of plain parts is its own path.
pub open spec fn plain_paths_stay() -> bool {
    forall|s: Seq<char>| #[trigger] plain_path(s) ==> object_path(s) == s
}

/// No two objects of a pool with a plain name have a key in common.
pub proof fn objects_never_share_a_key(
    pool: Seq<char>,
    p: PageId,
    q: PageId,
    m: ManifestId,
    n: ManifestId,
)
    requires
        plain_pool(pool),
    ensures
        plain_path(page_key_text(pool, p)),
        plain_path(manifest_key_text(pool, m)),
        p != q ==> page_key_text(pool, p) != page_key_text(pool, q),
        m != n ==> manifest_key_text(pool, m) != manifest_key_text(pool, n),
        page_key_text(pool, p) != manifest_key_text(pool, m),
{
    reveal_strlit("/pages/");
    reveal_strlit("/manifests/");
    reveal_strlit("/");
    lemma_page_key(pool, p);
    lemma_page_key(pool, q);
    lemma_manifest_key(pool, m);
    lemma_manifest_key(pool, n);
    let (a, b) = (page_key_text(pool, p), page_key_text(pool, q));
    let (c, d) = (manifest_key_text(pool, m), manifest_key_text(pool, n));
    let start: int = pool.len() as int;
    let (hp, hq) = (hex(p.0@), hex(q.0@));
    let (hm, hn) = (hex(m.0@), hex(n.0@));
    crate::text::hex_round_trips(p.0@);
    crate::text::hex_round_trips(q.0@);
    crate::text::hex_round_trips(m.0@);
    crate::text::hex_round_trips(n.0@);
    assert(a.skip(start + 13) =~= hp);
    assert(b.skip(start + 13) =~= hq);
    assert(c.skip(start + 11) =~= hm);
    assert(d.skip(start + 11) =~= hn);
    if a == b {
        crate::text::hex_is_injective(p.0@, q.0@);
        assert(p.0 =~= q.0);
    }
    if c == d {
        crate::text::hex_is_injective(m.0@, n.0@);
        assert(m.0 =~= n.0);
    }
    assert(a[start + 1] == 'p');
    assert(c[start + 1] == 'm');
}

/// What follows the pool in a page's key.
spec fn page_rest(id: PageId) -> Seq<char> {
    let h = hex(id.0@);
    "/pages/"@ + h.take(2) + "/"@ + h.subrange(2, 4) + "/"@ + h
}

/// What follows the pool in a manifest's key.
spec fn manifest_rest(id: ManifestId) -> Seq<char> {
    "/manifests/"@ + hex(id.0@)
}

proof fn lemma_page_key(pool: Seq<char>, id: PageId)
    requires
        plain_pool(pool),
    ensures
        page_key_text(pool, id) == pool + page_rest(id),
        page_rest(id)[0] == '/',
        plain_path(page_key_text(pool, id)),
{
    reveal_strlit("/pages/");
    reveal_strlit("/");
    let h = hex(id.0@);
    crate::text::hex_round_trips(id.0@);
    lemma_hex_is_plain(id.0@);
    let rest = page_rest(id);
    assert(page_key_text(pool, id) =~= pool + rest);
    let t = rest.skip(1);
    assert(t.len() == 76);
    assert forall|i: int| 0 <= i < t.len() implies plain_char(#[trigger] t[i]) || t[i] == '/' by {
        if i >= 6 && i < 8 {
            assert(t[i] == h[i - 6]);
        } else if i >= 9 && i < 11 {
            assert(t[i] == h[i - 7]);
        } else if i >= 12 {
            assert(t[i] == h[i - 12]);
        }
    }
    assert(t[6] == h[0] && t[7] == h[1] && t[9] == h[2] && t[10] == h[3] && t[12] == h[0]);
    assert(t[75] == h[63]);
    assert forall|i: int| 0 <= i < t.len() - 1 && #[trigger] t[i] == '/' implies t[i + 1] != '/'
        && t[i + 1] != '.' by {
        if i >= 12 {
            assert(t[i] == h[i - 12]);
        }
    }
    lemma_key_is_plain(pool, rest);
}

proof fn lemma_manifest_key(pool: Seq<char>, id: ManifestId)
    requires
        plain_pool(pool),
    ensures
        manifest_key_text(pool, id) == pool + manifest_rest(id),
        manifest_rest(id)[0] == '/',
        plain_path(manifest_key_text(pool, id)),
{
    reveal_strlit("/manifests/");
    let h = hex(id.0@);
    crate::text::hex_round_trips(id.0@);
    lemma_hex_is_plain(id.0@);
    let rest = manifest_rest(id);
    assert(manifest_key_text(pool, id) =~= pool + rest);
    let t = rest.skip(1);
    assert(t.len() == 74);
    assert forall|i: int| 0 <= i < t.len() implies plain_char(#[trigger] t[i]) || t[i] == '/' by {
        if i >= 10 {
            assert(t[i] == h[i - 10]);
        }
    }
    assert(t[10] == h[0] && t[73] == h[63]);
    assert forall|i: int| 0 <= i < t.len() - 1 && #[trigger] t[i] == '/' implies t[i + 1] != '/'
        && t[i + 1] != '.' by {
        if i >= 10 {
            assert(t[i] == h[i - 10]);
        }
    }
    lemma_key_is_plain(pool, rest);
}

/// Texts whose first parts differ, differ.
proof fn lemma_first_part(a: Seq<char>, b: Seq<char>, x: Seq<char>, y: Seq<char>)
    requires
        plain_pool(a),
        plain_pool(b),
        a != b,
        x.len() > 0,
        y.len() > 0,
        x[0] == '/',
        y[0] == '/',
    ensures
        a + x != b + y,
{
    if a + x == b + y {
        let (s, t) = (a + x, b + y);
        if a.len() < b.len() {
            assert(s[a.len() as int] == '/');
            assert(t[a.len() as int] == b[a.len() as int]);
            assert(plain_char(b[a.len() as int]));
        } else if b.len() < a.len() {
            assert(t[b.len() as int] == '/');
            assert(s[b.len() as int] == a[b.len() as int]);
            assert(plain_char(a[b.len() as int]));
        } else {
            assert forall|i: int| 0 <= i < a.len() implies a[i] == b[i] by {
                assert(s[i] == a[i] && t[i] == b[i]);
            }
            assert(a =~= b);
        }
    }
}

/// In a pool with a plain name the keys are what they look like: the pool, the kind, and the object.
pub proof fn a_key_names_the_pool_the_kind_and_the_object(
    t: &RemoteTier,
    p: PageId,
    m: ManifestId,
    page: String,
    manifest: String,
)
    requires
        call_ensures(RemoteTier::page_key, (t, p), page),
        call_ensures(RemoteTier::manifest_key, (t, m), manifest),
        plain_pool(t@),
    ensures
        page@ == t@ + "/pages/"@ + hex(p.0@).take(2) + "/"@ + hex(p.0@).subrange(2, 4) + "/"@ + hex(
            p.0@,
        ),
        manifest@ == t@ + "/manifests/"@ + hex(m.0@),
{
    objects_never_share_a_key(t@, p, p, m, m);
}

/// A sealed segment's key is the pool, the kind, its number in twelve digits or more, and `.wal`.
pub proof fn a_segments_key_names_its_number(t: &RemoteTier, n: u64, key: String)
    requires
        call_ensures(RemoteTier::segment_key, (t, n), key),
        plain_path(t@ + "/wal/"@ + padded(n as nat, 12) + ".wal"@),
    ensures
        key@ == t@ + "/wal/"@ + padded(n as nat, 12) + ".wal"@,
{
}

/// Object storage is touched for its own pool alone.
pub proof fn a_tier_serves_its_own_pool(
    pool: &str,
    t: RemoteTier,
    named: &str,
    r: Result<(), StoreError>,
)
    requires
        call_ensures(RemoteTier::new, (pool,), t),
        call_ensures(RemoteTier::guard_pool, (&t, named), r),
    ensures
        r is Ok <==> named@ == pool@,
        r is Err ==> r->Err_0 is PoolBoundary && r->Err_0->PoolBoundary_ours@ == pool@
            && r->Err_0->PoolBoundary_theirs@ == named@,
{
}

} // verus!
