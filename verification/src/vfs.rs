//! The filesystem, as a seam: every byte made durable goes through [`Vfs`].

use crate::error::IoError;
use crate::path::{is_scratch, VPath};
use vstd::prelude::*;

verus! {

/// A path as a sequence of names.
pub type Names = Seq<Seq<char>>;

/// `e` is directly under `dir`.
pub open spec fn is_child(e: Names, dir: Names) -> bool {
    e.len() > 0 && e.drop_last() == dir
}

/// `p` is one of the directories on the way to `path`, or `path` itself.
pub open spec fn leads_to(p: Names, path: Names) -> bool {
    0 < p.len() <= path.len() && path.take(p.len() as int) == p
}

/// From `before` to `after` directories were made, all of them on the way to one of two paths.
pub open spec fn dirs_made(before: Set<Names>, after: Set<Names>, one: Names, two: Names) -> bool {
    &&& before.subset_of(after)
    &&& forall|p: Names| #[trigger]
        after.contains(p) ==> before.contains(p) || leads_to(p, one) || leads_to(p, two)
}

/// `p` is one of the directories above `path`.
pub open spec fn above(p: Names, path: Names) -> bool {
    leads_to(p, path) && p.len() < path.len()
}

/// The files after `bytes` were added to the end of the one at `path`, which is made if absent.
pub open spec fn appended(files: Map<Names, Seq<u8>>, path: Names, bytes: Seq<u8>) -> Map<
    Names,
    Seq<u8>,
> {
    files.insert(
        path,
        if files.contains_key(path) {
            files[path] + bytes
        } else {
            bytes
        },
    )
}

/// The first `len` bytes, or all where there are fewer.
pub open spec fn cut(bytes: Seq<u8>, len: u64) -> Seq<u8> {
    if len < bytes.len() {
        bytes.take(len as int)
    } else {
        bytes
    }
}

/// Every listed entry is directly under `dir`, none is listed twice, and but for scratch files
/// the listed ones are the files and directories there.
pub open spec fn lists(
    out: Seq<Names>,
    files: Map<Names, Seq<u8>>,
    dirs: Set<Names>,
    dir: Names,
) -> bool {
    &&& out.no_duplicates()
    &&& forall|i: int| 0 <= i < out.len() ==> is_child(#[trigger] out[i], dir)
    &&& forall|e: Names| #[trigger]
        out.contains(e) && !is_scratch(e) ==> files.contains_key(e) || dirs.contains(e)
    &&& forall|e: Names|
        is_child(e, dir) && (files.contains_key(e) || dirs.contains(e)) ==> #[trigger] out.contains(
            e,
        )
}

/// A vector of paths as names.
pub open spec fn names_of(v: Seq<VPath>) -> Seq<Names> {
    v.map_values(|p: VPath| p@)
}

/// The filesystem operations that the engine needs, and no others.
///
/// `files` are the files with their contents, but for scratch files; `dirs` the directories. On a
/// `steady` filesystem nothing fails but reading or cutting what is not there. A filesystem that
/// leaves these as they are here says nothing of itself, and nothing is proved of what runs on it.
pub trait Vfs: Sized {
    open spec fn inv(&self) -> bool {
        false
    }

    open spec fn files(&self) -> Map<Names, Seq<u8>> {
        Map::empty()
    }

    open spec fn dirs(&self) -> Set<Names> {
        Set::empty()
    }

    open spec fn steady(&self) -> bool {
        false
    }

    /// The directories above a file exist.
    proof fn files_are_in_directories(&self)
        requires
            self.inv(),
        ensures
            forall|f: Names, p: Names|
                self.files().contains_key(f) && #[trigger] above(p, f) ==> self.dirs().contains(p),
    ;

    /// Creates a directory and all its parents.
    fn create_dir_all(&mut self, path: &VPath) -> (r: Result<(), IoError>)
        requires
            old(self).inv(),
        ensures
            final(self).inv(),
            final(self).steady() == old(self).steady(),
            final(self).files() == old(self).files(),
            old(self).dirs().subset_of(final(self).dirs()),
            forall|p: Names| #[trigger]
                final(self).dirs().contains(p) ==> old(self).dirs().contains(p) || leads_to(
                    p,
                    path@,
                ),
            r is Ok ==> forall|p: Names| leads_to(p, path@) ==> #[trigger]
                final(self).dirs().contains(p),
            r is Err ==> !old(self).steady(),
    ;

    /// Durably writes a file that appears complete or not at all.
    fn atomic_write(&mut self, path: &VPath, bytes: &[u8]) -> (r: Result<(), IoError>)
        requires
            old(self).inv(),
        ensures
            final(self).inv(),
            final(self).steady() == old(self).steady(),
            old(self).dirs().subset_of(final(self).dirs()),
            forall|p: Names| #[trigger]
                final(self).dirs().contains(p) ==> old(self).dirs().contains(p) || above(p, path@),
            match r {
                Ok(()) => final(self).files() == old(self).files().insert(path@, bytes@),
                Err(_) => !old(self).steady() && (final(self).files() == old(self).files()
                    || final(self).files() == old(self).files().insert(path@, bytes@)),
            },
    ;

    /// Appends to a file, which is made if absent. A crash may leave a part of the bytes.
    fn append(&mut self, path: &VPath, bytes: &[u8]) -> (r: Result<(), IoError>)
        requires
            old(self).inv(),
        ensures
            final(self).inv(),
            final(self).steady() == old(self).steady(),
            old(self).dirs().subset_of(final(self).dirs()),
            forall|p: Names| #[trigger]
                final(self).dirs().contains(p) ==> old(self).dirs().contains(p) || above(p, path@),
            match r {
                Ok(()) => final(self).files() == appended(old(self).files(), path@, bytes@),
                Err(_) => !old(self).steady() && (final(self).files() == old(self).files()
                    || exists|k: int|
                    0 <= k <= bytes@.len() && final(self).files() == appended(
                        old(self).files(),
                        path@,
                        #[trigger] bytes@.take(k),
                    )),
            },
    ;

    /// Reads a whole file.
    fn read(&self, path: &VPath) -> (r: Result<Vec<u8>, IoError>)
        requires
            self.inv(),
        ensures
            match r {
                Ok(bytes) => self.files().contains_key(path@) && bytes@ == self.files()[path@],
                Err(IoError::NotFound) => !self.files().contains_key(path@),
                Err(IoError::Other(_)) => !self.steady(),
            },
    ;

    /// Cuts a file down to `len` bytes.
    fn truncate(&mut self, path: &VPath, len: u64) -> (r: Result<(), IoError>)
        requires
            old(self).inv(),
        ensures
            final(self).inv(),
            final(self).steady() == old(self).steady(),
            final(self).dirs() == old(self).dirs(),
            match r {
                Ok(()) => old(self).files().contains_key(path@) && final(self).files() == old(self).files().insert(path@, cut(old(self).files()[path@], len)),
                Err(_) => (!old(self).steady() || !old(self).files().contains_key(path@)) && (
                final(self).files() == old(self).files() || old(self).files().contains_key(path@)
                    && final(self).files() == old(self).files().insert(
                    path@,
                    cut(old(self).files()[path@], len),
                )),
            },
    ;

    /// Whether the file exists.
    fn has_file(&self, path: &VPath) -> (r: bool)
        requires
            self.inv(),
        ensures
            r == self.files().contains_key(path@),
    ;

    /// Deletes a file. Deleting an absent file is success.
    fn remove_file(&mut self, path: &VPath) -> (r: Result<(), IoError>)
        requires
            old(self).inv(),
        ensures
            final(self).inv(),
            final(self).steady() == old(self).steady(),
            final(self).dirs() == old(self).dirs(),
            match r {
                Ok(()) => final(self).files() == old(self).files().remove(path@),
                Err(_) => !old(self).steady() && final(self).files() == old(self).files(),
            },
    ;

    /// Lists the entries directly under a directory; an absent directory lists as empty.
    fn read_dir(&self, path: &VPath) -> (r: Result<Vec<VPath>, IoError>)
        requires
            self.inv(),
        ensures
            match r {
                Ok(out) => lists(names_of(out@), self.files(), self.dirs(), path@),
                Err(_) => !self.steady(),
            },
    ;
}

/// Appending keeps what a file has and puts the new bytes behind it; a file that is not there is made of
/// them. Cutting keeps the first bytes, and never adds any. No other file changes.
pub proof fn appending_adds_and_cutting_takes_away(
    files: Map<Names, Seq<u8>>,
    path: Names,
    bytes: Seq<u8>,
    len: u64,
    f: Names,
)
    ensures
        appended(files, path, bytes).get(f) == (if f != path {
            files.get(f)
        } else if files.contains_key(path) {
            Some(files[path] + bytes)
        } else {
            Some(bytes)
        }),
        cut(bytes, len).len() == (if len < bytes.len() {
            len as nat
        } else {
            bytes.len()
        }),
        cut(bytes, len).is_prefix_of(bytes),
        cut(cut(bytes, len), len) == cut(bytes, len),
{
    assert(bytes.take(bytes.len() as int) =~= bytes);
    assert(cut(cut(bytes, len), len) =~= cut(bytes, len));
}

/// A listing has every entry of the directory, once, whether it is a file or a directory, and but for
/// scratch files nothing else: nothing from further down, and nothing from beside it.
pub proof fn a_listing_has_the_entries_of_its_directory(
    out: Seq<Names>,
    files: Map<Names, Seq<u8>>,
    dirs: Set<Names>,
    dir: Names,
    name: Seq<char>,
    i: int,
    j: int,
)
    requires
        lists(out, files, dirs, dir),
        !is_scratch(dir.push(name)),
        0 <= i < out.len(),
        0 <= j < out.len(),
    ensures
        out.contains(dir.push(name)) <==> files.contains_key(dir.push(name)) || dirs.contains(
            dir.push(name),
        ),
        out[i].len() == dir.len() + 1 && dir.is_prefix_of(out[i]),
        out[i] == out[j] ==> i == j,
{
    let e = dir.push(name);
    assert(e.drop_last() =~= dir);
    assert(is_child(out[i], dir));
    assert(out[i].take(dir.len() as int) =~= out[i].drop_last());
}

/// What leads to a path is what it begins with: every shorter beginning is above it, the path itself leads
/// to itself, and nothing that is longer or branches off does.
pub proof fn the_way_to_a_path_is_its_beginnings(p: Names, path: Names, n: int)
    requires
        0 < n <= path.len(),
    ensures
        leads_to(path.take(n), path),
        above(path.take(n), path) <==> n < path.len(),
        leads_to(p, path) <==> p.len() > 0 && p.is_prefix_of(path),
        above(p, path) ==> leads_to(p, path) && p != path,
{
    assert(path.take(n).len() == n);
}

} // verus!
