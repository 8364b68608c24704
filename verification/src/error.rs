//! What can go wrong below the log.

use crate::license::{quote, quoted};
use crate::page::PageId;
use crate::path::VPath;
use crate::text::{decimal, hex, to_decimal};
use vstd::prelude::*;

verus! {

/// The error of `bincode`.
#[verifier::external_type_specification]
#[verifier::external_body]
pub struct ExBincodeErrorKind(bincode::ErrorKind);

/// What the filesystem answered instead of doing as it was told.
#[derive(Debug)]
pub enum IoError {
    /// There is no such file.
    NotFound,
    /// Anything else, in the filesystem's words.
    Other(String),
}

/// Everything that can go wrong in the pager.
#[allow(inconsistent_fields)]
#[non_exhaustive]
#[derive(Debug)]
pub enum PagerError {
    /// A page was requested that the manifest does not map.
    PageNotFound { page_no: u64, manifest: String },
    /// The content-addressed store has no object with this id.
    MissingPage(PageId),
    /// A manifest was requested that does not exist.
    MissingManifest(String),
    /// Bytes read back did not hash to the id that they were stored under.
    CorruptPage { expected: PageId, actual: PageId, len: usize },
    /// A page larger than the store's page size was offered.
    PageTooLarge { actual: usize, page_size: usize },
    /// The page size given at store creation is not usable.
    InvalidPageSize(usize),
    /// A store was created without keyed page identity where the policy requires it.
    UnkeyedStoreInKeyedBuild,
    /// An existing store was opened with another page size than it was created with.
    PageSizeMismatch { existing: usize, requested: usize },
    /// Bytes could not be turned into a manifest, or a manifest into bytes.
    Codec { op: &'static str, source: Box<bincode::ErrorKind> },
    /// An id was parsed from a string that is not sixty-four hexadecimal characters.
    MalformedId(String),
    /// A branch or tag name is already taken.
    RefExists { kind: &'static str, name: String },
    /// A branch or tag does not exist.
    NoSuchRef { kind: &'static str, name: String },
    /// A storage backend beneath the pager failed.
    Backend(String),
    /// The filesystem said no.
    Io { path: VPath, source: IoError },
}

/// The text of `bincode::ErrorKind`, as its `Display` gives it. Nothing is claimed of it.
#[verifier::external_body]
fn codec_text(e: &Box<bincode::ErrorKind>) -> (s: String) {
    e.to_string()
}

impl IoError {
    /// The words for it.
    pub open spec fn words(&self) -> Seq<char> {
        match *self {
            IoError::NotFound => "no such file"@,
            IoError::Other(text) => text@,
        }
    }

    /// Says what happened.
    pub fn describe(&self) -> (s: String)
        ensures
            s@ == self.words(),
    {
        match self {
            IoError::NotFound => "no such file".to_owned(),
            IoError::Other(text) => text.clone(),
        }
    }
}

/// A [`PagerError`] with its texts as sequences of characters.
#[allow(inconsistent_fields)]
pub enum Fault {
    PageNotFound { page_no: u64, manifest: Seq<char> },
    MissingPage(PageId),
    MissingManifest(Seq<char>),
    CorruptPage { expected: PageId, actual: PageId, len: nat },
    PageTooLarge { actual: usize, page_size: usize },
    InvalidPageSize(usize),
    UnkeyedStoreInKeyedBuild,
    PageSizeMismatch { existing: usize, requested: usize },
    Codec { op: Seq<char> },
    MalformedId(Seq<char>),
    RefExists { kind: Seq<char>, name: Seq<char> },
    NoSuchRef { kind: Seq<char>, name: Seq<char> },
    Backend(Seq<char>),
    Io { path: Seq<Seq<char>> },
}

impl View for PagerError {
    type V = Fault;

    open spec fn view(&self) -> Fault {
        match *self {
            PagerError::PageNotFound { page_no, manifest } => Fault::PageNotFound {
                page_no,
                manifest: manifest@,
            },
            PagerError::MissingPage(id) => Fault::MissingPage(id),
            PagerError::MissingManifest(s) => Fault::MissingManifest(s@),
            PagerError::CorruptPage { expected, actual, len } => Fault::CorruptPage {
                expected,
                actual,
                len: len as nat,
            },
            PagerError::PageTooLarge { actual, page_size } => Fault::PageTooLarge {
                actual,
                page_size,
            },
            PagerError::InvalidPageSize(n) => Fault::InvalidPageSize(n),
            PagerError::UnkeyedStoreInKeyedBuild => Fault::UnkeyedStoreInKeyedBuild,
            PagerError::PageSizeMismatch { existing, requested } => Fault::PageSizeMismatch {
                existing,
                requested,
            },
            PagerError::Codec { op, source } => Fault::Codec { op: op@ },
            PagerError::MalformedId(s) => Fault::MalformedId(s@),
            PagerError::RefExists { kind, name } => Fault::RefExists { kind: kind@, name: name@ },
            PagerError::NoSuchRef { kind, name } => Fault::NoSuchRef { kind: kind@, name: name@ },
            PagerError::Backend(s) => Fault::Backend(s@),
            PagerError::Io { path, source } => Fault::Io { path: path@ },
        }
    }
}

/// The words for what went wrong. Of what could not be decoded only the first words are fixed.
pub open spec fn says(e: PagerError, s: Seq<char>) -> bool {
    match e {
        PagerError::PageNotFound { page_no, manifest } => s == "logical page "@ + decimal(
            page_no as nat,
        ) + " is not present in manifest "@ + manifest@,
        PagerError::MissingPage(id) => s == "page "@ + hex(id.0@).take(12)
            + " is missing from the content-addressed store"@,
        PagerError::MissingManifest(text) => s == "manifest "@ + text@ + " does not exist"@,
        PagerError::CorruptPage { expected, actual, len } => s == "integrity failure: page "@ + hex(
            expected.0@,
        ).take(12) + " hashed to "@ + hex(actual.0@).take(12) + " on read ("@ + decimal(len as nat)
            + " bytes)"@,
        PagerError::PageTooLarge { actual, page_size } => s == "page is "@ + decimal(actual as nat)
            + " bytes, which exceeds this store's "@ + decimal(page_size as nat)
            + "-byte page size"@,
        PagerError::InvalidPageSize(n) => s == "page size "@ + decimal(n as nat)
            + " is invalid: must be a power of two between 4 KiB and 16 MiB"@,
        PagerError::UnkeyedStoreInKeyedBuild => s
            == "this build requires keyed page identity (feature `keyed-hash`): construct StoreConfig with PageHasher::Keyed(pool_key), not PageHasher::Unkeyed"@,
        PagerError::PageSizeMismatch { existing, requested } => s == "store was created with a "@
            + decimal(existing as nat) + "-byte page size, but was opened with "@ + decimal(
            requested as nat,
        ),
        PagerError::Codec { op, source } => exists|t: Seq<char>|
            s == #[trigger] ("failed to "@ + op@ + " manifest: "@ + t),
        PagerError::MalformedId(text) => s == quoted(text@)
            + " is not a valid content hash (expected 64 hex characters)"@,
        PagerError::RefExists { kind, name } => s == kind@ + " "@ + quoted(name@)
            + " already exists; moving it would discard what it points at"@,
        PagerError::NoSuchRef { kind, name } => s == "no such "@ + kind@ + ": "@ + quoted(name@),
        PagerError::Backend(text) => s == "storage backend failed: "@ + text@,
        PagerError::Io { path, source } => s == "i/o error at "@ + path.text() + ": "@
            + source.words(),
    }
}

impl PagerError {
    /// Says what went wrong.
    pub fn describe(&self) -> (s: String)
        ensures
            says(*self, s@),
    {
        match self {
            PagerError::PageNotFound { page_no, manifest } => "logical page ".to_owned().concat(
                to_decimal(*page_no).as_str(),
            ).concat(" is not present in manifest ").concat(manifest.as_str()),
            PagerError::MissingPage(id) => "page ".to_owned().concat(
                id.abbreviated().as_str(),
            ).concat(" is missing from the content-addressed store"),
            PagerError::MissingManifest(text) => "manifest ".to_owned().concat(
                text.as_str(),
            ).concat(" does not exist"),
            PagerError::CorruptPage { expected, actual, len } => "integrity failure: page ".to_owned().concat(
                expected.abbreviated().as_str(),
            ).concat(" hashed to ").concat(actual.abbreviated().as_str()).concat(
                " on read (",
            ).concat(to_decimal(*len as u64).as_str()).concat(" bytes)"),
            PagerError::PageTooLarge { actual, page_size } => "page is ".to_owned().concat(
                to_decimal(*actual as u64).as_str(),
            ).concat(" bytes, which exceeds this store's ").concat(
                to_decimal(*page_size as u64).as_str(),
            ).concat("-byte page size"),
            PagerError::InvalidPageSize(n) => "page size ".to_owned().concat(
                to_decimal(*n as u64).as_str(),
            ).concat(" is invalid: must be a power of two between 4 KiB and 16 MiB"),
            PagerError::UnkeyedStoreInKeyedBuild => "this build requires keyed page identity (feature `keyed-hash`): construct StoreConfig with PageHasher::Keyed(pool_key), not PageHasher::Unkeyed".to_owned(),
            PagerError::PageSizeMismatch { existing, requested } => "store was created with a ".to_owned().concat(
                to_decimal(*existing as u64).as_str(),
            ).concat("-byte page size, but was opened with ").concat(
                to_decimal(*requested as u64).as_str(),
            ),
            PagerError::Codec { op, source } => "failed to ".to_owned().concat(op).concat(
                " manifest: ",
            ).concat(codec_text(source).as_str()),
            PagerError::MalformedId(text) => quote(text.as_str()).concat(
                " is not a valid content hash (expected 64 hex characters)",
            ),
            PagerError::RefExists { kind, name } => (*kind).to_owned().concat(" ").concat(
                quote(name.as_str()).as_str(),
            ).concat(" already exists; moving it would discard what it points at"),
            PagerError::NoSuchRef { kind, name } => "no such ".to_owned().concat(kind).concat(
                ": ",
            ).concat(quote(name.as_str()).as_str()),
            PagerError::Backend(text) => "storage backend failed: ".to_owned().concat(
                text.as_str(),
            ),
            PagerError::Io { path, source } => "i/o error at ".to_owned().concat(
                path.to_text().as_str(),
            ).concat(": ").concat(source.describe().as_str()),
        }
    }

    /// A failure of the filesystem at `path`.
    pub fn io(path: &VPath, source: IoError) -> (e: PagerError)
        ensures
            e@ == (Fault::Io { path: path@ }),
            e->Io_source == source,
    {
        PagerError::Io { path: path.clone(), source }
    }

    /// A failure of a backend that the pager cannot see.
    pub fn backend(detail: &str) -> (e: PagerError)
        ensures
            e@ == Fault::Backend(detail@),
    {
        PagerError::Backend(detail.to_owned())
    }

    /// Whether the store does not have the page.
    pub fn is_missing_page(&self) -> (r: bool)
        ensures
            r == (self@ is MissingPage),
    {
        match self {
            PagerError::MissingPage(_) => true,
            _ => false,
        }
    }

    /// Whether the manifest does not exist.
    pub fn is_missing_manifest(&self) -> (r: bool)
        ensures
            r == (self@ is MissingManifest),
    {
        match self {
            PagerError::MissingManifest(_) => true,
            _ => false,
        }
    }

    /// Whether what lies under the store failed, as against the store giving an answer.
    pub fn is_outage(&self) -> (r: bool)
        ensures
            r == (self@ is Io || self@ is Backend),
    {
        match self {
            PagerError::Io { .. } => true,
            PagerError::Backend(_) => true,
            _ => false,
        }
    }

    /// Whether the error is damage to the stored bytes rather than a mistake of the caller.
    pub fn is_corruption(&self) -> (r: bool)
        ensures
            r == (self@ is CorruptPage || self@ is MissingPage),
    {
        match self {
            PagerError::CorruptPage { .. } => true,
            PagerError::MissingPage(_) => true,
            _ => false,
        }
    }
}

/// The text has this somewhere in it.
pub open spec fn mentions(s: Seq<char>, a: Seq<char>) -> bool {
    exists|x: Seq<char>, y: Seq<char>| s == #[trigger] (x + a + y)
}

/// The text has the one somewhere in it, and the other behind that.
pub open spec fn mentions_both(s: Seq<char>, a: Seq<char>, b: Seq<char>) -> bool {
    exists|x: Seq<char>, y: Seq<char>, z: Seq<char>| s == #[trigger] (x + a + y + b + z)
}

/// What an error says names what it is about: the page and the manifest, the id that was expected and
/// then the one that was found, the size that there is and then the one that was asked for, the text that
/// is no id, the name that is taken or unknown, the place and then the reason.
pub proof fn an_error_names_what_it_is_about(e: &PagerError, s: String)
    requires
        call_ensures(PagerError::describe, (e,), s),
    ensures
        match *e {
            PagerError::PageNotFound { page_no, manifest } => mentions_both(
                s@,
                decimal(page_no as nat),
                manifest@,
            ),
            PagerError::MissingPage(id) => mentions(s@, hex(id.0@).take(12)),
            PagerError::MissingManifest(text) => mentions(s@, text@),
            PagerError::CorruptPage { expected, actual, len } => mentions_both(
                s@,
                hex(expected.0@).take(12),
                hex(actual.0@).take(12),
            ) && mentions(s@, decimal(len as nat)),
            PagerError::PageTooLarge { actual, page_size } => mentions_both(
                s@,
                decimal(actual as nat),
                decimal(page_size as nat),
            ),
            PagerError::InvalidPageSize(n) => mentions(s@, decimal(n as nat)),
            PagerError::UnkeyedStoreInKeyedBuild => true,
            PagerError::PageSizeMismatch { existing, requested } => mentions_both(
                s@,
                decimal(existing as nat),
                decimal(requested as nat),
            ),
            PagerError::Codec { op, .. } => mentions(s@, op@),
            PagerError::MalformedId(text) => mentions(s@, quoted(text@)),
            PagerError::RefExists { kind, name } => mentions_both(s@, kind@, quoted(name@)),
            PagerError::NoSuchRef { kind, name } => mentions_both(s@, kind@, quoted(name@)),
            PagerError::Backend(text) => mentions(s@, text@),
            PagerError::Io { path, source } => mentions_both(s@, path.text(), match source {
                IoError::NotFound => "no such file"@,
                IoError::Other(why) => why@,
            }),
        },
{
    let none = Seq::<char>::empty();
    match *e {
        PagerError::PageNotFound { page_no, manifest } => {
            let (a, b) = (decimal(page_no as nat), manifest@);
            assert(s@ =~= "logical page "@ + a + " is not present in manifest "@ + b + none);
        },
        PagerError::MissingPage(id) => {},
        PagerError::MissingManifest(text) => {},
        PagerError::CorruptPage { expected, actual, len } => {
            let (a, b, n) = (hex(expected.0@).take(12), hex(actual.0@).take(12), decimal(len as nat));
            let front = "integrity failure: page "@ + a + " hashed to "@ + b + " on read ("@;
            assert(s@ =~= front + n + " bytes)"@);
            assert(s@ =~= "integrity failure: page "@ + a + " hashed to "@ + b + (" on read ("@ + n
                + " bytes)"@));
        },
        PagerError::PageTooLarge { actual, page_size } => {},
        PagerError::InvalidPageSize(n) => {},
        PagerError::UnkeyedStoreInKeyedBuild => {},
        PagerError::PageSizeMismatch { existing, requested } => {
            let (a, b) = (decimal(existing as nat), decimal(requested as nat));
            assert(s@ =~= "store was created with a "@ + a
                + "-byte page size, but was opened with "@ + b + none);
        },
        PagerError::Codec { op, .. } => {
            let t = choose|t: Seq<char>| s@ == #[trigger] ("failed to "@ + op@ + " manifest: "@ + t);
            assert(s@ =~= "failed to "@ + op@ + (" manifest: "@ + t));
        },
        PagerError::MalformedId(text) => {
            assert(s@ =~= none + quoted(text@)
                + " is not a valid content hash (expected 64 hex characters)"@);
        },
        PagerError::RefExists { kind, name } => {
            assert(s@ =~= none + kind@ + " "@ + quoted(name@)
                + " already exists; moving it would discard what it points at"@);
        },
        PagerError::NoSuchRef { kind, name } => {
            assert(s@ =~= "no such "@ + kind@ + ": "@ + quoted(name@) + none);
        },
        PagerError::Backend(text) => {
            assert(s@ =~= "storage backend failed: "@ + text@ + none);
        },
        PagerError::Io { path, source } => {
            assert(s@ =~= "i/o error at "@ + path.text() + ": "@ + source.words() + none);
        },
    }
}

/// An error is of one sort: what lies under the store failed, or stored bytes are damaged or gone, or a
/// manifest is, or none of these; a page that is not there counts as damage.
pub proof fn an_error_is_of_one_sort(
    e: &PagerError,
    outage: bool,
    damage: bool,
    no_page: bool,
    no_manifest: bool,
)
    requires
        call_ensures(PagerError::is_outage, (e,), outage),
        call_ensures(PagerError::is_corruption, (e,), damage),
        call_ensures(PagerError::is_missing_page, (e,), no_page),
        call_ensures(PagerError::is_missing_manifest, (e,), no_manifest),
    ensures
        match *e {
            PagerError::Io { .. } => outage && !damage && !no_page && !no_manifest,
            PagerError::Backend(_) => outage && !damage && !no_page && !no_manifest,
            PagerError::MissingPage(_) => damage && no_page && !outage && !no_manifest,
            PagerError::CorruptPage { .. } => damage && !no_page && !outage && !no_manifest,
            PagerError::MissingManifest(_) => no_manifest && !outage && !damage && !no_page,
            _ => !outage && !damage && !no_page && !no_manifest,
        },
{
}

} // verus!
