//! Pages and manifests as files: one file each, sharded by the first digits of the id.

use crate::cas::{
    same_but_manifests, same_but_pages, verified, verified_manifests, with_page, Backing, Cas,
    ManifestStore,
};
use crate::error::{Fault, IoError, PagerError};
use crate::hashing::{array32, array32_ext, array32_of_view};
use crate::manifest::{
    decoding_undoes_encoding, manifest_id_hex_injective, Manifest, ManifestId, ManifestView,
};
use crate::page::{page_id_hex_injective, Page, PageHasher, PageId};
use crate::path::{is_scratch, VPath};
use crate::text::{all_hex, from_hex, hex, hex_round_trips, unhex};
use crate::vfs::{above, dirs_made, is_child, leads_to, lists, names_of, Names, Vfs};
use vstd::prelude::*;

verus! {

/// Where a page is: `<root>/aa/bb/<id>`.
pub open spec fn page_path(root: Names, id: PageId) -> Names {
    root.push(hex(id.0@).subrange(0, 2)).push(hex(id.0@).subrange(2, 4)).push(hex(id.0@))
}

/// Where a manifest is: `<root>/aa/<id>`.
pub open spec fn manifest_path(root: Names, id: ManifestId) -> Names {
    root.push(hex(id.0@).subrange(0, 2)).push(hex(id.0@))
}

/// `f` is `root`, or something under it.
pub open spec fn under(root: Names, f: Names) -> bool {
    root.len() <= f.len() && f.take(root.len() as int) == root
}

/// The files and directories under neither root.
pub open spec fn outside(
    files: Map<Names, Seq<u8>>,
    dirs: Set<Names>,
    pages_root: Names,
    manifests_root: Names,
) -> (Map<Names, Seq<u8>>, Set<Names>) {
    (
        Map::new(
            |f: Names| files.contains_key(f) && !under(pages_root, f) && !under(manifests_root, f),
            |f: Names| files[f],
        ),
        Set::new(
            |d: Names| dirs.contains(d) && !under(pages_root, d) && !under(manifests_root, d),
        ),
    )
}

/// The bytes of the page files.
pub open spec fn page_files(files: Map<Names, Seq<u8>>, root: Names) -> Map<PageId, Seq<u8>> {
    Map::new(
        |id: PageId| files.contains_key(page_path(root, id)),
        |id: PageId| files[page_path(root, id)],
    )
}

/// The bytes of the manifest files.
pub open spec fn manifest_files(files: Map<Names, Seq<u8>>, root: Names) -> Map<
    ManifestId,
    Seq<u8>,
> {
    Map::new(
        |id: ManifestId| files.contains_key(manifest_path(root, id)),
        |id: ManifestId| files[manifest_path(root, id)],
    )
}

/// The id that an entry's name spells, if it spells one.
pub open spec fn name_id(e: Names) -> Option<[u8; 32]> {
    if e.last().len() == 64 && all_hex(e.last()) {
        Some(array32(unhex(e.last())))
    } else {
        None
    }
}

/// `f` is `levels` directories below `dir`, and its name spells an id.
pub open spec fn spells(f: Names, dir: Names, levels: nat, id: [u8; 32]) -> bool {
    &&& f.len() == dir.len() + levels + 1
    &&& f.take(dir.len() as int) == dir
    &&& !is_scratch(f)
    &&& name_id(f) == Some(id)
}

/// No id is spelled by two entries `levels` directories below `dir`.
pub open spec fn spelled_once(
    files: Map<Names, Seq<u8>>,
    dirs: Set<Names>,
    dir: Names,
    levels: nat,
) -> bool {
    forall|f: Names, g: Names, id: [u8; 32]|
        #![trigger spells(f, dir, levels, id), spells(g, dir, levels, id)]
        (files.contains_key(f) || dirs.contains(f)) && (files.contains_key(g) || dirs.contains(g))
            && spells(f, dir, levels, id) && spells(g, dir, levels, id) ==> f == g
}

/// Some entry `levels` directories below `dir` spells the id.
pub open spec fn shown(
    files: Map<Names, Seq<u8>>,
    dirs: Set<Names>,
    dir: Names,
    levels: nat,
    id: [u8; 32],
) -> bool {
    exists|f: Names|
        (files.contains_key(f) || dirs.contains(f)) && #[trigger] spells(f, dir, levels, id)
}

/// The same, for an entry under one of those visited.
spec fn shown_among(
    files: Map<Names, Seq<u8>>,
    dirs: Set<Names>,
    dir: Names,
    levels: nat,
    visited: Seq<Names>,
    id: [u8; 32],
) -> bool {
    exists|f: Names|
        (files.contains_key(f) || dirs.contains(f)) && visited.contains(
            f.take(dir.len() as int + 1),
        ) && #[trigger] spells(f, dir, levels, id)
}

/// One of these entries, not a scratch file, spells the id.
spec fn spelled_by(entries: Seq<VPath>, id: [u8; 32]) -> bool {
    exists|i: int|
        0 <= i < entries.len() && !is_scratch((#[trigger] entries[i])@) && name_id(entries[i]@)
            == Some(id)
}

/// What collecting the ids below a directory gives.
pub open spec fn collected(
    out: Seq<[u8; 32]>,
    files: Map<Names, Seq<u8>>,
    dirs: Set<Names>,
    dir: Names,
    levels: nat,
    steady: bool,
) -> bool {
    &&& forall|k: int| 0 <= k < out.len() ==> shown(files, dirs, dir, levels, #[trigger] out[k])
    &&& steady ==> forall|f: Names, id: [u8; 32]|
        files.contains_key(f) && #[trigger] spells(f, dir, levels, id) ==> out.contains(id)
    &&& spelled_once(files, dirs, dir, levels) ==> out.no_duplicates()
}

/// The same, for the entries of a directory that have been visited.
spec fn collected_among(
    out: Seq<[u8; 32]>,
    files: Map<Names, Seq<u8>>,
    dirs: Set<Names>,
    dir: Names,
    levels: nat,
    steady: bool,
    visited: Seq<Names>,
) -> bool {
    &&& forall|k: int|
        0 <= k < out.len() ==> shown_among(files, dirs, dir, levels, visited, #[trigger] out[k])
    &&& steady ==> forall|f: Names, id: [u8; 32]|
        files.contains_key(f) && visited.contains(f.take(dir.len() as int + 1))
            && #[trigger] spells(f, dir, levels, id) ==> out.contains(id)
    &&& spelled_once(files, dirs, dir, levels) ==> out.no_duplicates()
}

proof fn lemma_child_spells(f: Names, dir: Names, child: Names, levels: nat, id: [u8; 32])
    requires
        is_child(child, dir),
    ensures
        spells(f, child, levels, id) ==> spells(f, dir, levels + 1, id) && f.take(
            dir.len() as int + 1,
        ) == child,
        spells(f, dir, levels + 1, id) && f.take(dir.len() as int + 1) == child ==> spells(
            f,
            child,
            levels,
            id,
        ),
{
    assert(child.len() == dir.len() + 1);
    if f.len() == dir.len() + levels + 2 {
        assert(f.take(child.len() as int).take(dir.len() as int) =~= f.take(dir.len() as int));
        assert(child.take(dir.len() as int) =~= child.drop_last());
    }
}

proof fn lemma_two_lists(
    a: Seq<[u8; 32]>,
    b: Seq<[u8; 32]>,
    files: Map<Names, Seq<u8>>,
    dirs: Set<Names>,
    dir: Names,
    levels: nat,
    steady: bool,
    visited: Seq<Names>,
    child: Names,
)
    requires
        collected_among(a, files, dirs, dir, levels + 1, steady, visited),
        collected(b, files, dirs, child, levels, steady),
        is_child(child, dir),
        !visited.contains(child),
    ensures
        collected_among(a + b, files, dirs, dir, levels + 1, steady, visited.push(child)),
{
    let out = a + b;
    let now = visited.push(child);
    let n = dir.len() as int + 1;
    assert forall|e: Names| #[trigger] visited.contains(e) implies now.contains(e) by {
        let i = choose|i: int| 0 <= i < visited.len() && visited[i] == e;
        assert(now[i] == e);
    }
    assert(now[visited.len() as int] == child);
    assert forall|k: int| 0 <= k < out.len() implies shown_among(
        files,
        dirs,
        dir,
        levels + 1,
        now,
        #[trigger] out[k],
    ) by {
        if k < a.len() {
            assert(shown_among(files, dirs, dir, levels + 1, visited, a[k]));
            let f = choose|f: Names|
                (files.contains_key(f) || dirs.contains(f)) && visited.contains(f.take(n))
                    && #[trigger] spells(f, dir, levels + 1, a[k]);
            assert(spells(f, dir, levels + 1, out[k]));
        } else {
            assert(shown(files, dirs, child, levels, b[k - a.len()]));
            let f = choose|f: Names|
                (files.contains_key(f) || dirs.contains(f)) && #[trigger] spells(
                    f,
                    child,
                    levels,
                    b[k - a.len()],
                );
            lemma_child_spells(f, dir, child, levels, out[k]);
            assert(spells(f, dir, levels + 1, out[k]));
        }
    }
    if steady {
        assert forall|f: Names, id: [u8; 32]|
            files.contains_key(f) && now.contains(f.take(n)) && #[trigger] spells(
                f,
                dir,
                levels + 1,
                id,
            ) implies out.contains(id) by {
            if f.take(n) == child {
                lemma_child_spells(f, dir, child, levels, id);
                assert(spells(f, child, levels, id));
                let i = choose|i: int| 0 <= i < b.len() && b[i] == id;
                assert(out[a.len() + i] == id);
            } else {
                let i = choose|i: int| 0 <= i < now.len() && now[i] == f.take(n);
                assert(visited[i] == f.take(n));
                let j = choose|j: int| 0 <= j < a.len() && a[j] == id;
                assert(out[j] == id);
            }
        }
    }
    if spelled_once(files, dirs, dir, levels + 1) {
        assert(spelled_once(files, dirs, child, levels)) by {
            assert forall|f: Names, g: Names, id: [u8; 32]|
                #![trigger spells(f, child, levels, id), spells(g, child, levels, id)]
                (files.contains_key(f) || dirs.contains(f)) && (files.contains_key(g)
                    || dirs.contains(g)) && spells(f, child, levels, id) && spells(
                    g,
                    child,
                    levels,
                    id,
                ) implies f == g by {
                lemma_child_spells(f, dir, child, levels, id);
                lemma_child_spells(g, dir, child, levels, id);
                assert(spells(f, dir, levels + 1, id) && spells(g, dir, levels + 1, id));
            }
        }
        assert forall|i: int, j: int| 0 <= i < a.len() && 0 <= j < b.len() implies a[i] != b[j] by {
            assert(shown_among(files, dirs, dir, levels + 1, visited, a[i]));
            assert(shown(files, dirs, child, levels, b[j]));
            let f = choose|f: Names|
                (files.contains_key(f) || dirs.contains(f)) && visited.contains(f.take(n))
                    && #[trigger] spells(f, dir, levels + 1, a[i]);
            let g = choose|g: Names|
                (files.contains_key(g) || dirs.contains(g)) && #[trigger] spells(
                    g,
                    child,
                    levels,
                    b[j],
                );
            lemma_child_spells(g, dir, child, levels, b[j]);
            if a[i] == b[j] {
                assert(spells(f, dir, levels + 1, a[i]) && spells(g, dir, levels + 1, a[i]));
            }
        }
        assert forall|i: int, j: int|
            0 <= i < out.len() && 0 <= j < out.len() && i != j implies out[i] != out[j] by {
            if i < a.len() && j < a.len() {
                assert(a[i] != a[j]);
            } else if i >= a.len() && j >= a.len() {
                assert(b[i - a.len()] != b[j - a.len()]);
            } else if i < a.len() {
                assert(a[i] != b[j - a.len()]);
            } else {
                assert(a[j] != b[i - a.len()]);
            }
        }
    }
}

/// Whether a name marks a scratch file.
fn scratch_name(name: &String) -> (r: bool)
    ensures
        r == (name@.len() >= 5 && name@.take(5) == ".tmp."@),
{
    let n: usize = name.as_str().unicode_len();
    if n < 5 {
        return false;
    }
    let start = name.as_str().substring_char(0, 5).to_owned();
    assert(name@.subrange(0, 5) =~= name@.take(5));
    start == ".tmp.".to_owned()
}

/// The ids that the entries of a directory spell.
fn ids_of_entries(entries: &Vec<VPath>) -> (out: Vec<[u8; 32]>)
    requires
        forall|i: int| 0 <= i < entries@.len() ==> (#[trigger] entries@[i])@.len() > 0,
    ensures
        forall|k: int| 0 <= k < out@.len() ==> spelled_by(entries@, #[trigger] out@[k]),
        forall|i: int|
            0 <= i < entries@.len() && !is_scratch((#[trigger] entries@[i])@) && name_id(
                entries@[i]@,
            ) is Some ==> out@.contains(name_id(entries@[i]@).unwrap()),
        (forall|i: int, j: int|
            0 <= i < j < entries@.len() && !is_scratch((#[trigger] entries@[i])@) && !is_scratch(
                (#[trigger] entries@[j])@,
            ) && name_id(entries@[i]@) is Some ==> name_id(entries@[i]@) != name_id(entries@[j]@))
            ==> out@.no_duplicates(),
{
    let mut out: Vec<[u8; 32]> = Vec::new();
    let mut origin: Ghost<Seq<int>> = Ghost(Seq::empty());
    let n: usize = entries.len();
    let mut i: usize = 0;
    while i < n
        invariant
            n == entries@.len(),
            i <= n,
            forall|i: int| 0 <= i < entries@.len() ==> (#[trigger] entries@[i])@.len() > 0,
            origin@.len() == out@.len(),
            forall|k: int|
                0 <= k < out@.len() ==> 0 <= #[trigger] origin@[k] < i && !is_scratch(
                    entries@[origin@[k]]@,
                ) && name_id(entries@[origin@[k]]@) == Some(out@[k]),
            forall|a: int, b: int|
                0 <= a < b < out@.len() ==> #[trigger] origin@[a] < #[trigger] origin@[b],
            forall|q: int|
                0 <= q < i && !is_scratch((#[trigger] entries@[q])@) && name_id(entries@[q]@) is Some
                    ==> out@.contains(name_id(entries@[q]@).unwrap()),
        decreases n - i,
    {
        let ghost before = out@;
        match entries[i].file_name() {
            Some(name) => {
                if !scratch_name(name) {
                    match from_hex(name.as_str()) {
                        Some(id) => {
                            out.push(id);
                            proof {
                                array32_of_view(id);
                                origin@ = origin@.push(i as int);
                                assert(out@[before.len() as int] == id);
                            }
                        },
                        None => {},
                    }
                }
            },
            None => {},
        }
        proof {
            assert forall|q: int|
                0 <= q < i + 1 && !is_scratch((#[trigger] entries@[q])@) && name_id(
                    entries@[q]@,
                ) is Some implies out@.contains(name_id(entries@[q]@).unwrap()) by {
                if q < i {
                    let k = choose|k: int|
                        0 <= k < before.len() && before[k] == name_id(entries@[q]@).unwrap();
                    assert(out@[k] == before[k]);
                }
            }
        }
        i = i + 1;
    }
    proof {
        assert forall|k: int| 0 <= k < out@.len() implies spelled_by(
            entries@,
            #[trigger] out@[k],
        ) by {
            let q = origin@[k];
            assert(!is_scratch(entries@[q]@));
        }
        if forall|i: int, j: int|
            0 <= i < j < entries@.len() && !is_scratch((#[trigger] entries@[i])@) && !is_scratch(
                (#[trigger] entries@[j])@,
            ) && name_id(entries@[i]@) is Some ==> name_id(entries@[i]@) != name_id(entries@[j]@) {
            assert forall|a: int, b: int|
                0 <= a < out@.len() && 0 <= b < out@.len() && a != b implies out@[a] != out@[b] by {
                let (x, y) = if a < b { (a, b) } else { (b, a) };
                assert(origin@[x] < origin@[y]);
                assert(!is_scratch(entries@[origin@[x]]@) && !is_scratch(entries@[origin@[y]]@));
            }
        }
    }
    out
}

proof fn lemma_no_levels(f: Names, dir: Names, id: [u8; 32])
    ensures
        is_child(f, dir) && !is_scratch(f) && name_id(f) == Some(id) <==> spells(f, dir, 0, id),
{
    if f.len() == dir.len() + 1 {
        assert(f.take(dir.len() as int) =~= f.drop_last());
    }
}

/// The ids spelled `levels` directories below the directory that has these entries.
fn collect<V: Vfs>(vfs: &V, dir: &VPath, entries: &Vec<VPath>, levels: usize) -> (out: Vec<
    [u8; 32],
>)
    requires
        vfs.inv(),
        lists(names_of(entries@), vfs.files(), vfs.dirs(), dir@),
    ensures
        collected(out@, vfs.files(), vfs.dirs(), dir@, levels as nat, vfs.steady()),
    decreases levels,
{
    let ghost files = vfs.files();
    let ghost dirs = vfs.dirs();
    let ghost names = names_of(entries@);
    proof {
        assert forall|i: int| 0 <= i < entries@.len() implies is_child(
            (#[trigger] entries@[i])@,
            dir@,
        ) by {
            assert(names[i] == entries@[i]@);
        }
    }
    if levels == 0 {
        let out = ids_of_entries(entries);
        proof {
            assert forall|k: int| 0 <= k < out@.len() implies shown(
                files,
                dirs,
                dir@,
                0,
                #[trigger] out@[k],
            ) by {
                assert(spelled_by(entries@, out@[k]));
                let i = choose|i: int|
                    0 <= i < entries@.len() && !is_scratch((#[trigger] entries@[i])@) && name_id(
                        entries@[i]@,
                    ) == Some(out@[k]);
                let f = entries@[i]@;
                assert(names[i] == f);
                assert(names.contains(f));
                lemma_no_levels(f, dir@, out@[k]);
                assert(spells(f, dir@, 0, out@[k]));
            }
            assert forall|f: Names, id: [u8; 32]|
                files.contains_key(f) && #[trigger] spells(f, dir@, 0, id) implies out@.contains(
                id,
            ) by {
                lemma_no_levels(f, dir@, id);
                assert(names.contains(f));
                let i = choose|i: int| 0 <= i < names.len() && names[i] == f;
                assert(entries@[i]@ == f);
            }
            if spelled_once(files, dirs, dir@, 0) {
                assert forall|i: int, j: int|
                    0 <= i < j < entries@.len() && !is_scratch((#[trigger] entries@[i])@)
                        && !is_scratch((#[trigger] entries@[j])@) && name_id(
                        entries@[i]@,
                    ) is Some implies name_id(entries@[i]@) != name_id(entries@[j]@) by {
                    let (f, g) = (entries@[i]@, entries@[j]@);
                    assert(names[i] == f && names[j] == g);
                    assert(names.contains(f) && names.contains(g));
                    if name_id(f) == name_id(g) {
                        let id = name_id(f).unwrap();
                        lemma_no_levels(f, dir@, id);
                        lemma_no_levels(g, dir@, id);
                        assert(spells(f, dir@, 0, id) && spells(g, dir@, 0, id));
                    }
                }
            }
        }
        return out;
    }
    let mut out: Vec<[u8; 32]> = Vec::new();
    let n: usize = entries.len();
    let mut i: usize = 0;
    while i < n
        invariant
            n == entries@.len(),
            i <= n,
            levels > 0,
            vfs.inv(),
            files == vfs.files(),
            dirs == vfs.dirs(),
            names == names_of(entries@),
            lists(names, files, dirs, dir@),
            forall|i: int| 0 <= i < entries@.len() ==> is_child((#[trigger] entries@[i])@, dir@),
            collected_among(
                out@,
                files,
                dirs,
                dir@,
                levels as nat,
                vfs.steady(),
                names.take(i as int),
            ),
        decreases n - i,
    {
        let mut found: Vec<[u8; 32]> = match vfs.read_dir(&entries[i]) {
            Ok(inner) => collect(vfs, &entries[i], &inner, levels - 1),
            Err(_) => Vec::new(),
        };
        proof {
            let child = entries@[i as int]@;
            assert(names[i as int] == child);
            assert(!names.take(i as int).contains(child));
            lemma_two_lists(
                out@,
                found@,
                files,
                dirs,
                dir@,
                (levels - 1) as nat,
                vfs.steady(),
                names.take(i as int),
                child,
            );
            assert(names.take(i as int).push(child) =~= names.take(i as int + 1));
        }
        out.append(&mut found);
        i = i + 1;
    }
    proof {
        assert(names.take(n as int) =~= names);
        assert forall|k: int| 0 <= k < out@.len() implies shown(
            files,
            dirs,
            dir@,
            levels as nat,
            #[trigger] out@[k],
        ) by {
            assert(shown_among(files, dirs, dir@, levels as nat, names, out@[k]));
        }
        if vfs.steady() {
            assert forall|f: Names, id: [u8; 32]|
                files.contains_key(f) && #[trigger] spells(
                    f,
                    dir@,
                    levels as nat,
                    id,
                ) implies out@.contains(id) by {
                let p = f.take(dir@.len() as int + 1);
                vfs.files_are_in_directories();
                assert(f.take(p.len() as int) == p);
                assert(above(p, f));
                assert(p.drop_last() =~= dir@) by {
                    assert(p.drop_last() =~= f.take(dir@.len() as int));
                }
                assert(names.contains(p));
            }
        }
    }
    out
}

/// The page directory under a store's root.
pub struct FsCas {
    root: VPath,
    hasher: PageHasher,
}

impl FsCas {
    /// The directory that the pages are in.
    pub closed spec fn spec_root(&self) -> Names {
        self.root@
    }

    /// How the pages are identified.
    pub closed spec fn spec_hasher(&self) -> PageHasher {
        self.hasher
    }

    /// Opens the page directory under `root`, making it if absent.
    pub fn open_with_vfs<V: Vfs>(vfs: &mut V, root: &VPath, hasher: PageHasher) -> (r: Result<
        FsCas,
        PagerError,
    >)
        requires
            old(vfs).inv(),
        ensures
            final(vfs).inv(),
            final(vfs).steady() == old(vfs).steady(),
            final(vfs).files() == old(vfs).files(),
            old(vfs).dirs().subset_of(final(vfs).dirs()),
            forall|p: Names| #[trigger]
                final(vfs).dirs().contains(p) ==> old(vfs).dirs().contains(p) || leads_to(
                    p,
                    root@.push("pages"@),
                ),
            r is Ok ==> forall|p: Names| leads_to(p, root@.push("pages"@)) ==> #[trigger]
                final(vfs).dirs().contains(p),
            match r {
                Ok(c) => c.spec_root() == root@.push("pages"@) && c.spec_hasher() == hasher,
                Err(e) => !old(vfs).steady() && e@ == (Fault::Io { path: root@.push("pages"@) }),
            },
    {
        let dir = root.join("pages");
        match vfs.create_dir_all(&dir) {
            Ok(()) => Ok(FsCas { root: dir, hasher }),
            Err(e) => Err(PagerError::io(&dir, e)),
        }
    }

    /// Where a page is.
    pub fn path_of(&self, id: PageId) -> (p: VPath)
        ensures
            p@ == page_path(self.spec_root(), id),
    {
        let (a, b) = id.shard();
        let full = id.to_hex();
        self.root.join(a.as_str()).join(b.as_str()).join(full.as_str())
    }
}

/// The manifest directory under a store's root.
pub struct FsManifestStore {
    root: VPath,
}

impl FsManifestStore {
    /// The directory that the manifests are in.
    pub closed spec fn spec_root(&self) -> Names {
        self.root@
    }

    /// Opens the manifest directory under `root`, making it if absent.
    pub fn open_with_vfs<V: Vfs>(vfs: &mut V, root: &VPath) -> (r: Result<
        FsManifestStore,
        PagerError,
    >)
        requires
            old(vfs).inv(),
        ensures
            final(vfs).inv(),
            final(vfs).steady() == old(vfs).steady(),
            final(vfs).files() == old(vfs).files(),
            old(vfs).dirs().subset_of(final(vfs).dirs()),
            forall|p: Names| #[trigger]
                final(vfs).dirs().contains(p) ==> old(vfs).dirs().contains(p) || leads_to(
                    p,
                    root@.push("manifests"@),
                ),
            r is Ok ==> forall|p: Names| leads_to(p, root@.push("manifests"@)) ==> #[trigger]
                final(vfs).dirs().contains(p),
            match r {
                Ok(s) => s.spec_root() == root@.push("manifests"@),
                Err(e) => !old(vfs).steady() && e@ == (Fault::Io { path: root@.push("manifests"@) }),
            },
    {
        let dir = root.join("manifests");
        match vfs.create_dir_all(&dir) {
            Ok(()) => Ok(FsManifestStore { root: dir }),
            Err(e) => Err(PagerError::io(&dir, e)),
        }
    }

    /// Where a manifest is.
    pub fn path_of(&self, id: ManifestId) -> (p: VPath)
        ensures
            p@ == manifest_path(self.spec_root(), id),
    {
        let full = id.to_hex();
        let shard = full.as_str().substring_char(0, 2).to_owned();
        self.root.join(shard.as_str()).join(full.as_str())
    }
}

/// Pages and manifests on one filesystem.
pub struct FsStore<V: Vfs> {
    vfs: V,
    cas: FsCas,
    manifests: FsManifestStore,
}

proof fn lemma_page_paths(root: Names, a: PageId, b: PageId)
    ensures
        page_path(root, a) == page_path(root, b) ==> a == b,
{
    if page_path(root, a) == page_path(root, b) {
        assert(page_path(root, a).last() == hex(a.0@));
        assert(page_path(root, b).last() == hex(b.0@));
        page_id_hex_injective(a, b);
    }
}

proof fn lemma_manifest_paths(root: Names, a: ManifestId, b: ManifestId)
    ensures
        manifest_path(root, a) == manifest_path(root, b) ==> a == b,
{
    if manifest_path(root, a) == manifest_path(root, b) {
        assert(manifest_path(root, a).last() == hex(a.0@));
        assert(manifest_path(root, b).last() == hex(b.0@));
        manifest_id_hex_injective(a, b);
    }
}

/// An id's own file name spells it, and is not that of a scratch file.
proof fn lemma_name_spells(f: Names, bytes: [u8; 32])
    requires
        f.len() > 0,
        f.last() == hex(bytes@),
    ensures
        !is_scratch(f),
        name_id(f) == Some(bytes),
{
    hex_round_trips(bytes@);
    array32_of_view(bytes);
    reveal_strlit(".tmp.");
    if is_scratch(f) {
        assert(f.last()[0] == f.last().take(5)[0] == '.');
        assert(crate::text::hex_value(hex(bytes@)[0]) is Some);
    }
}

impl<V: Vfs> FsStore<V> {
    /// The filesystem underneath.
    pub closed spec fn spec_vfs(&self) -> V {
        self.vfs
    }

    /// Opens both directories under `root`.
    pub fn open(vfs: V, root: &VPath, hasher: PageHasher) -> (r: Result<FsStore<V>, PagerError>)
        requires
            vfs.inv(),
        ensures
            match r {
                Ok(s) => s.inv() && s.spec_vfs().inv() && s.spec_vfs().files() == vfs.files()
                    && s.steady() == vfs.steady() && s.hasher() == hasher && s.roots() == seq![
                    root@.push("pages"@),
                    root@.push("manifests"@),
                ] && dirs_made(
                    vfs.dirs(),
                    s.spec_vfs().dirs(),
                    root@.push("pages"@),
                    root@.push("manifests"@),
                ),
                Err(e) => !vfs.steady() && e@ is Io,
            },
    {
        let mut vfs = vfs;
        let cas = match FsCas::open_with_vfs(&mut vfs, root, hasher) {
            Ok(c) => c,
            Err(e) => {
                return Err(e);
            },
        };
        let manifests = match FsManifestStore::open_with_vfs(&mut vfs, root) {
            Ok(m) => m,
            Err(e) => {
                return Err(e);
            },
        };
        Ok(FsStore { vfs, cas, manifests })
    }

    /// Lends the filesystem out. As long as what lies under the roots is left alone, the store's
    /// pages and manifests stay what they are.
    pub fn vfs_mut(&mut self) -> (v: &mut V)
        requires
            old(self).inv(),
        ensures
            *v == old(self).spec_vfs(),
            final(self).spec_vfs() == *final(v),
            final(self).roots() == old(self).roots(),
            final(self).hasher() == old(self).hasher(),
            final(v).inv() && old(self).spec_vfs().dirs().subset_of(final(v).dirs()) ==> final(
                self).inv(),
    {
        &mut self.vfs
    }

    /// The filesystem underneath.
    pub fn vfs(&self) -> (v: &V)
        ensures
            *v == self.spec_vfs(),
    {
        &self.vfs
    }

    /// Gives the filesystem back.
    pub fn into_vfs(self) -> (v: V)
        ensures
            v == self.spec_vfs(),
            self.inv() ==> v.inv(),
    {
        self.vfs
    }

    /// What a store shows is a function of the files under its roots.
    pub proof fn shows(&self)
        ensures
            self.roots().len() == 2,
            self.inv() ==> self.spec_vfs().inv() && self.roots()[0].len() == self.roots()[1].len(),
            self.steady() == self.spec_vfs().steady(),
            self.held_pages() == page_files(self.spec_vfs().files(), self.roots()[0]).dom(),
            self.pages() == verified(
                page_files(self.spec_vfs().files(), self.roots()[0]),
                self.hasher(),
            ),
            self.held_manifests() == manifest_files(
                self.spec_vfs().files(),
                self.roots()[1],
            ).dom(),
            self.manifests() == verified_manifests(
                manifest_files(self.spec_vfs().files(), self.roots()[1]),
            ),
            self.elsewhere() == outside(
                self.spec_vfs().files(),
                self.spec_vfs().dirs(),
                self.roots()[0],
                self.roots()[1],
            ),
    {
    }
}

/// The files under the roots are the same.
pub open spec fn same_under(
    files: Map<Names, Seq<u8>>,
    changed: Map<Names, Seq<u8>>,
    pages_root: Names,
    manifests_root: Names,
) -> bool {
    forall|f: Names|
        #![trigger changed.contains_key(f)]
        #![trigger files.contains_key(f)]
        under(pages_root, f) || under(manifests_root, f) ==> (files.contains_key(f)
            <==> changed.contains_key(f)) && (files.contains_key(f) ==> files[f] == changed[f])
}

/// A change outside the roots leaves pages and manifests as they were.
pub proof fn other_files_do_not_matter(
    files: Map<Names, Seq<u8>>,
    changed: Map<Names, Seq<u8>>,
    pages_root: Names,
    manifests_root: Names,
)
    requires
        same_under(files, changed, pages_root, manifests_root),
    ensures
        page_files(files, pages_root) == page_files(changed, pages_root),
        manifest_files(files, manifests_root) == manifest_files(changed, manifests_root),
{
    assert forall|id: PageId| under(pages_root, #[trigger] page_path(pages_root, id)) by {
        assert(page_path(pages_root, id).take(pages_root.len() as int) =~= pages_root);
    }
    assert forall|id: ManifestId| under(
        manifests_root,
        #[trigger] manifest_path(manifests_root, id),
    ) by {
        assert(manifest_path(manifests_root, id).take(manifests_root.len() as int)
            =~= manifests_root);
    }
    assert(page_files(files, pages_root) =~= page_files(changed, pages_root));
    assert(manifest_files(files, manifests_root) =~= manifest_files(changed, manifests_root));
}

impl<V: Vfs> Backing for FsStore<V> {
    closed spec fn inv(&self) -> bool {
        &&& self.vfs.inv()
        &&& self.cas.root@.len() == self.manifests.root@.len()
        &&& forall|p: Names|
            leads_to(p, self.cas.root@) || leads_to(p, self.manifests.root@) ==> #[trigger]
            self.vfs.dirs().contains(p)
    }

    closed spec fn steady(&self) -> bool {
        self.vfs.steady()
    }

    open spec fn keeps_manifests() -> bool {
        true
    }

    closed spec fn tidy(&self) -> bool {
        let (files, dirs) = (self.vfs.files(), self.vfs.dirs());
        &&& forall|f: Names, id: [u8; 32]|
            (files.contains_key(f) || dirs.contains(f)) && #[trigger] spells(
                f,
                self.cas.root@,
                2,
                id,
            ) ==> f == page_path(self.cas.root@, PageId(id)) && !dirs.contains(f)
        &&& forall|f: Names, id: [u8; 32]|
            (files.contains_key(f) || dirs.contains(f)) && #[trigger] spells(
                f,
                self.manifests.root@,
                1,
                id,
            ) ==> f == manifest_path(self.manifests.root@, ManifestId(id)) && !dirs.contains(f)
    }

    closed spec fn hasher(&self) -> PageHasher {
        self.cas.hasher
    }

    closed spec fn held_pages(&self) -> Set<PageId> {
        page_files(self.vfs.files(), self.cas.root@).dom()
    }

    closed spec fn pages(&self) -> Map<PageId, Seq<u8>> {
        verified(page_files(self.vfs.files(), self.cas.root@), self.cas.hasher)
    }

    closed spec fn held_manifests(&self) -> Set<ManifestId> {
        manifest_files(self.vfs.files(), self.manifests.root@).dom()
    }

    closed spec fn manifests(&self) -> Map<ManifestId, ManifestView> {
        verified_manifests(manifest_files(self.vfs.files(), self.manifests.root@))
    }

    closed spec fn roots(&self) -> Seq<Names> {
        seq![self.cas.root@, self.manifests.root@]
    }

    closed spec fn elsewhere(&self) -> (Map<Names, Seq<u8>>, Set<Names>) {
        outside(self.vfs.files(), self.vfs.dirs(), self.cas.root@, self.manifests.root@)
    }

    proof fn contents_are_what_their_ids_say(&self) {
    }
}

impl<V: Vfs> FsStore<V> {
    /// A page file that was written is the page under its id, and nothing else changed.
    proof fn lemma_page_written(a: Self, b: Self, id: PageId, bytes: Seq<u8>)
        requires
            a.inv(),
            b.vfs.inv(),
            b.cas == a.cas,
            b.manifests == a.manifests,
            b.vfs.steady() == a.vfs.steady(),
            a.vfs.dirs().subset_of(b.vfs.dirs()),
            b.vfs.files() == a.vfs.files().insert(page_path(a.cas.root@, id), bytes),
            forall|p: Names| #[trigger]
                b.vfs.dirs().contains(p) ==> a.vfs.dirs().contains(p) || above(
                    p,
                    page_path(a.cas.root@, id),
                ),
        ensures
            b.inv(),
            same_but_pages(a, b),
            b.held_pages() == a.held_pages().insert(id),
            b.pages() == with_page(a.pages(), a.hasher(), id, bytes),
    {
        let root = a.cas.root@;
        let path = page_path(root, id);
        assert forall|q: PageId| page_path(root, q) == path implies q == id by {
            lemma_page_paths(root, q, id);
        }
        assert(b.held_pages() =~= a.held_pages().insert(id));
        assert(b.pages() =~= with_page(a.pages(), a.hasher(), id, bytes));
        assert(manifest_files(b.vfs.files(), a.manifests.root@) =~= manifest_files(
            a.vfs.files(),
            a.manifests.root@,
        )) by {
            assert forall|q: ManifestId| manifest_path(a.manifests.root@, q) != path by {
                assert(manifest_path(a.manifests.root@, q).len() != path.len());
            }
        }
        Self::lemma_elsewhere(a, b, path);
        if a.tidy() {
            Self::lemma_tidy(a, b, path);
        }
    }

    /// The same for a manifest file.
    proof fn lemma_manifest_written(a: Self, b: Self, m: ManifestView)
        requires
            a.inv(),
            m.fits(),
            b.vfs.inv(),
            b.cas == a.cas,
            b.manifests == a.manifests,
            b.vfs.steady() == a.vfs.steady(),
            a.vfs.dirs().subset_of(b.vfs.dirs()),
            b.vfs.files() == a.vfs.files().insert(
                manifest_path(a.manifests.root@, m.id()),
                m.stored(),
            ),
            forall|p: Names| #[trigger]
                b.vfs.dirs().contains(p) ==> a.vfs.dirs().contains(p) || above(
                    p,
                    manifest_path(a.manifests.root@, m.id()),
                ),
        ensures
            b.inv(),
            same_but_manifests(a, b),
            b.held_manifests() == a.held_manifests().insert(m.id()),
            b.manifests() == a.manifests().insert(m.id(), m),
    {
        let root = a.manifests.root@;
        let id = m.id();
        let path = manifest_path(root, id);
        decoding_undoes_encoding(m, Seq::empty());
        assert forall|q: ManifestId| manifest_path(root, q) == path implies q == id by {
            lemma_manifest_paths(root, q, id);
        }
        assert(b.held_manifests() =~= a.held_manifests().insert(id));
        assert(b.manifests() =~= a.manifests().insert(id, m));
        assert(page_files(b.vfs.files(), a.cas.root@) =~= page_files(
            a.vfs.files(),
            a.cas.root@,
        )) by {
            assert forall|q: PageId| page_path(a.cas.root@, q) != path by {
                assert(page_path(a.cas.root@, q).len() != path.len());
            }
        }
        Self::lemma_elsewhere(a, b, path);
        if a.tidy() {
            Self::lemma_tidy(a, b, path);
        }
    }

    /// Writing or deleting a page or a manifest touches nothing outside the roots.
    proof fn lemma_elsewhere(a: Self, b: Self, path: Names)
        requires
            a.inv(),
            b.cas == a.cas,
            b.manifests == a.manifests,
            forall|f: Names|
                f != path ==> (#[trigger] b.vfs.files().contains_key(f)
                    <==> a.vfs.files().contains_key(f)) && (a.vfs.files().contains_key(f)
                    ==> a.vfs.files()[f] == b.vfs.files()[f]),
            a.vfs.dirs().subset_of(b.vfs.dirs()),
            forall|p: Names| #[trigger]
                b.vfs.dirs().contains(p) ==> a.vfs.dirs().contains(p) || above(p, path),
            (exists|id: PageId| path == page_path(a.cas.root@, id)) || (exists|id: ManifestId|
                path == manifest_path(a.manifests.root@, id)),
        ensures
            b.elsewhere() == a.elsewhere(),
            b.roots() == a.roots(),
    {
        let (pr, mr) = (a.cas.root@, a.manifests.root@);
        let root = if exists|id: PageId| path == page_path(pr, id) {
            let id = choose|id: PageId| path == page_path(pr, id);
            assert(page_path(pr, id).take(pr.len() as int) =~= pr);
            pr
        } else {
            let id = choose|id: ManifestId| path == manifest_path(mr, id);
            assert(manifest_path(mr, id).take(mr.len() as int) =~= mr);
            mr
        };
        assert(under(root, path));
        assert forall|d: Names| b.vfs.dirs().contains(d) && !under(root, d) implies a.vfs.dirs().contains(d) by {
            if above(d, path) {
                if d.len() >= root.len() {
                    assert(d.take(root.len() as int) =~= path.take(root.len() as int));
                } else {
                    assert(root.take(d.len() as int) =~= path.take(d.len() as int));
                    assert(leads_to(d, root));
                }
            }
        }
        assert(b.elsewhere().0 =~= a.elsewhere().0);
        assert(b.elsewhere().1 =~= a.elsewhere().1);
    }

    /// Writing or deleting a page or a manifest keeps a store tidy.
    proof fn lemma_tidy(a: Self, b: Self, path: Names)
        requires
            a.inv(),
            a.tidy(),
            b.cas == a.cas,
            b.manifests == a.manifests,
            forall|f: Names| #[trigger]
                b.vfs.files().contains_key(f) ==> a.vfs.files().contains_key(f) || f == path,
            forall|p: Names| #[trigger]
                b.vfs.dirs().contains(p) ==> a.vfs.dirs().contains(p) || above(p, path),
            (exists|id: PageId| path == page_path(a.cas.root@, id)) || (exists|id: ManifestId|
                path == manifest_path(a.manifests.root@, id)),
        ensures
            b.tidy(),
    {
        let (files, dirs) = (b.vfs.files(), b.vfs.dirs());
        let (pr, mr) = (a.cas.root@, a.manifests.root@);
        let n = pr.len() as int;
        assert forall|f: Names, x: [u8; 32]|
            (files.contains_key(f) || dirs.contains(f)) && #[trigger] spells(f, pr, 2, x) implies f
            == page_path(pr, PageId(x)) && !dirs.contains(f) by {
            if f == path {
                let id = choose|id: PageId| path == page_path(pr, id);
                lemma_name_spells(f, id.0);
            }
        }
        assert forall|f: Names, x: [u8; 32]|
            (files.contains_key(f) || dirs.contains(f)) && #[trigger] spells(f, mr, 1, x) implies f
            == manifest_path(mr, ManifestId(x)) && !dirs.contains(f) by {
            if f == path {
                let id = choose|id: ManifestId| path == manifest_path(mr, id);
                lemma_name_spells(f, id.0);
            }
            if above(f, path) {
                let id = choose|id: PageId| path == page_path(pr, id);
                lemma_shard_spells_nothing(path, f, id.0);
            }
        }
    }
}

/// A shard directory's two-digit name spells no id.
proof fn lemma_shard_spells_nothing(path: Names, f: Names, id: [u8; 32])
    requires
        path.len() >= 3,
        path[path.len() - 2].len() == 2,
        path[path.len() - 3].len() == 2,
        above(f, path),
        f.len() >= path.len() - 2,
    ensures
        name_id(f) is None,
{
    assert(f.last() == path.take(f.len() as int)[f.len() - 1]);
}

impl<V: Vfs> Cas for FsStore<V> {
    open spec fn supports_raw(&self) -> bool {
        false
    }

    closed spec fn raw(&self) -> Map<PageId, Seq<u8>> {
        page_files(self.vfs.files(), self.cas.root@)
    }

    proof fn raw_is_what_is_held(&self) {
    }

    fn put(&mut self, page: &Page) -> (r: Result<(), PagerError>) {
        let path = self.cas.path_of(page.id());
        if self.vfs.has_file(&path) {
            proof {
                assert(self.held_pages() =~= self.held_pages().insert(page.spec_id()));
            }
            return Ok(());
        }
        let ghost before = *self;
        match self.vfs.atomic_write(&path, page.as_bytes()) {
            Ok(()) => {
                proof {
                    Self::lemma_page_written(before, *self, page.spec_id(), page@);
                }
                Ok(())
            },
            Err(e) => {
                proof {
                    if self.vfs.files() == before.vfs.files().insert(path@, page@) {
                        Self::lemma_page_written(before, *self, page.spec_id(), page@);
                    } else {
                        Self::lemma_elsewhere(before, *self, path@);
                        if before.tidy() {
                            Self::lemma_tidy(before, *self, path@);
                        }
                    }
                }
                Err(PagerError::io(&path, e))
            },
        }
    }

    fn get(&self, id: PageId) -> (r: Result<Page, PagerError>) {
        let path = self.cas.path_of(id);
        match self.vfs.read(&path) {
            Ok(bytes) => Page::verify(&self.cas.hasher, id, bytes),
            Err(IoError::NotFound) => Err(PagerError::MissingPage(id)),
            Err(e) => Err(PagerError::io(&path, e)),
        }
    }

    fn contains(&self, id: PageId) -> (r: Result<bool, PagerError>) {
        let path = self.cas.path_of(id);
        Ok(self.vfs.has_file(&path))
    }

    fn remove(&mut self, id: PageId) -> (r: Result<(), PagerError>) {
        let path = self.cas.path_of(id);
        let ghost before = *self;
        match self.vfs.remove_file(&path) {
            Ok(()) => {
                proof {
                    let root = self.cas.root@;
                    assert forall|q: PageId| page_path(root, q) == path@ implies q == id by {
                        lemma_page_paths(root, q, id);
                    }
                    assert(self.held_pages() =~= before.held_pages().remove(id));
                    assert(self.pages() =~= before.pages().remove(id));
                    assert(self.raw() =~= before.raw().remove(id));
                    assert(manifest_files(self.vfs.files(), self.manifests.root@)
                        =~= manifest_files(before.vfs.files(), self.manifests.root@)) by {
                        assert forall|q: ManifestId|
                            manifest_path(self.manifests.root@, q) != path@ by {
                            assert(manifest_path(self.manifests.root@, q).len() != path@.len());
                        }
                    }
                    Self::lemma_elsewhere(before, *self, path@);
                    assert(before.tidy() ==> self.tidy()) by {
                        if before.tidy() {
                            Self::lemma_tidy(before, *self, path@);
                        }
                    }
                }
                Ok(())
            },
            Err(e) => Err(PagerError::io(&path, e)),
        }
    }

    fn list(&self) -> (r: Result<Vec<PageId>, PagerError>) {
        match self.vfs.read_dir(&self.cas.root) {
            Ok(entries) => {
                let ids = collect(&self.vfs, &self.cas.root, &entries, 2);
                let out = page_ids(&ids);
                proof {
                    let root = self.cas.root@;
                    if self.steady() {
                        assert forall|id: PageId| #[trigger]
                            self.held_pages().contains(id) implies out@.contains(id) by {
                            let f = page_path(root, id);
                            lemma_name_spells(f, id.0);
                            assert(f.take(root.len() as int) =~= root);
                            assert(spells(f, root, 2, id.0));
                            let k = choose|k: int| 0 <= k < ids@.len() && ids@[k] == id.0;
                            assert(out@[k] == id);
                        }
                    }
                    if self.tidy() {
                        assert(spelled_once(self.vfs.files(), self.vfs.dirs(), root, 2));
                        assert forall|id: PageId|
                            out@.contains(id) implies #[trigger] self.held_pages().contains(
                            id,
                        ) by {
                            let k = choose|k: int| 0 <= k < out@.len() && out@[k] == id;
                            assert(ids@[k] == id.0);
                            assert(shown(self.vfs.files(), self.vfs.dirs(), root, 2, ids@[k]));
                        }
                        assert forall|i: int, j: int|
                            0 <= i < out@.len() && 0 <= j < out@.len() && i != j implies out@[i]
                            != out@[j] by {
                            assert(ids@[i] != ids@[j]);
                        }
                    }
                }
                Ok(out)
            },
            Err(e) => Err(PagerError::io(&self.cas.root, e)),
        }
    }

    fn put_raw(&mut self, id: PageId, bytes: &[u8]) -> (r: Result<(), PagerError>)
        ensures
            r is Err,
    {
        Err(
            PagerError::backend(
                "this content-addressed store does not support raw (unverified) writes",
            ),
        )
    }

    fn get_raw(&self, id: PageId) -> (r: Result<Vec<u8>, PagerError>)
        ensures
            r is Err,
    {
        Err(
            PagerError::backend(
                "this content-addressed store does not support raw (unverified) reads",
            ),
        )
    }
}

fn page_ids(ids: &Vec<[u8; 32]>) -> (out: Vec<PageId>)
    ensures
        out@.len() == ids@.len(),
        forall|i: int| 0 <= i < out@.len() ==> #[trigger] out@[i] == PageId(ids@[i]),
{
    let mut out: Vec<PageId> = Vec::new();
    let mut i: usize = 0;
    while i < ids.len()
        invariant
            i <= ids.len(),
            out@.len() == i,
            forall|k: int| 0 <= k < i ==> #[trigger] out@[k] == PageId(ids@[k]),
        decreases ids.len() - i,
    {
        out.push(PageId(ids[i]));
        i = i + 1;
    }
    out
}

fn manifest_ids(ids: &Vec<[u8; 32]>) -> (out: Vec<ManifestId>)
    ensures
        out@.len() == ids@.len(),
        forall|i: int| 0 <= i < out@.len() ==> #[trigger] out@[i] == ManifestId(ids@[i]),
{
    let mut out: Vec<ManifestId> = Vec::new();
    let mut i: usize = 0;
    while i < ids.len()
        invariant
            i <= ids.len(),
            out@.len() == i,
            forall|k: int| 0 <= k < i ==> #[trigger] out@[k] == ManifestId(ids@[k]),
        decreases ids.len() - i,
    {
        out.push(ManifestId(ids[i]));
        i = i + 1;
    }
    out
}

impl<V: Vfs> ManifestStore for FsStore<V> {
    fn put(&mut self, manifest: &Manifest) -> (r: Result<ManifestId, PagerError>) {
        let id = match manifest.id() {
            Ok(id) => id,
            Err(e) => {
                return Err(e);
            },
        };
        let path = self.manifests.path_of(id);
        if self.vfs.has_file(&path) {
            proof {
                assert(self.held_manifests() =~= self.held_manifests().insert(id));
            }
            return Ok(id);
        }
        let bytes = match manifest.encode() {
            Ok(bytes) => bytes,
            Err(e) => {
                return Err(e);
            },
        };
        let ghost before = *self;
        match self.vfs.atomic_write(&path, bytes.as_slice()) {
            Ok(()) => {
                proof {
                    Self::lemma_manifest_written(before, *self, manifest@);
                }
                Ok(id)
            },
            Err(e) => {
                proof {
                    if self.vfs.files() == before.vfs.files().insert(path@, bytes@) {
                        Self::lemma_manifest_written(before, *self, manifest@);
                    } else {
                        Self::lemma_elsewhere(before, *self, path@);
                        if before.tidy() {
                            Self::lemma_tidy(before, *self, path@);
                        }
                    }
                }
                Err(PagerError::io(&path, e))
            },
        }
    }

    fn get(&self, id: ManifestId) -> (r: Result<Manifest, PagerError>) {
        let path = self.manifests.path_of(id);
        let bytes = match self.vfs.read(&path) {
            Ok(bytes) => bytes,
            Err(IoError::NotFound) => {
                return Err(PagerError::MissingManifest(id.to_hex()));
            },
            Err(e) => {
                return Err(PagerError::io(&path, e));
            },
        };
        let manifest = match Manifest::decode(bytes.as_slice()) {
            Ok(m) => m,
            Err(e) => {
                return Err(e);
            },
        };
        let actual = match manifest.id() {
            Ok(actual) => actual,
            Err(e) => {
                return Err(e);
            },
        };
        if actual != id {
            let text = id.to_hex().concat(" (bytes on disk hash to ").concat(
                actual.to_hex().as_str(),
            ).concat(")");
            return Err(PagerError::MissingManifest(text));
        }
        Ok(manifest)
    }

    fn contains(&self, id: ManifestId) -> (r: Result<bool, PagerError>) {
        let path = self.manifests.path_of(id);
        Ok(self.vfs.has_file(&path))
    }

    fn remove(&mut self, id: ManifestId) -> (r: Result<(), PagerError>) {
        let path = self.manifests.path_of(id);
        let ghost before = *self;
        match self.vfs.remove_file(&path) {
            Ok(()) => {
                proof {
                    let root = self.manifests.root@;
                    assert forall|q: ManifestId| manifest_path(root, q) == path@ implies q == id by {
                        lemma_manifest_paths(root, q, id);
                    }
                    assert(self.held_manifests() =~= before.held_manifests().remove(id));
                    assert(self.manifests() =~= before.manifests().remove(id));
                    assert(page_files(self.vfs.files(), self.cas.root@) =~= page_files(
                        before.vfs.files(),
                        self.cas.root@,
                    )) by {
                        assert forall|q: PageId| page_path(self.cas.root@, q) != path@ by {
                            assert(page_path(self.cas.root@, q).len() != path@.len());
                        }
                    }
                    Self::lemma_elsewhere(before, *self, path@);
                    if before.tidy() {
                        Self::lemma_tidy(before, *self, path@);
                    }
                }
                Ok(())
            },
            Err(e) => Err(PagerError::io(&path, e)),
        }
    }

    fn list(&self) -> (r: Result<Vec<ManifestId>, PagerError>) {
        match self.vfs.read_dir(&self.manifests.root) {
            Ok(entries) => {
                let ids = collect(&self.vfs, &self.manifests.root, &entries, 1);
                let out = manifest_ids(&ids);
                proof {
                    let root = self.manifests.root@;
                    if self.steady() {
                        assert forall|id: ManifestId| #[trigger]
                            self.held_manifests().contains(id) implies out@.contains(id) by {
                            let f = manifest_path(root, id);
                            lemma_name_spells(f, id.0);
                            assert(f.take(root.len() as int) =~= root);
                            assert(spells(f, root, 1, id.0));
                            let k = choose|k: int| 0 <= k < ids@.len() && ids@[k] == id.0;
                            assert(out@[k] == id);
                        }
                    }
                    if self.tidy() {
                        assert(spelled_once(self.vfs.files(), self.vfs.dirs(), root, 1));
                        assert forall|id: ManifestId|
                            out@.contains(id) implies #[trigger] self.held_manifests().contains(
                            id,
                        ) by {
                            let k = choose|k: int| 0 <= k < out@.len() && out@[k] == id;
                            assert(ids@[k] == id.0);
                            assert(shown(self.vfs.files(), self.vfs.dirs(), root, 1, ids@[k]));
                        }
                        assert forall|i: int, j: int|
                            0 <= i < out@.len() && 0 <= j < out@.len() && i != j implies out@[i]
                            != out@[j] by {
                            assert(ids@[i] != ids@[j]);
                        }
                    }
                }
                Ok(out)
            },
            Err(e) => Err(PagerError::io(&self.manifests.root, e)),
        }
    }
}

/// A page's file is three names below its root: the first two characters of its id, the next two, and
/// the id. A manifest's is two below: the first two characters, and the id. So different ids have
/// different files.
pub proof fn every_object_has_a_file_of_its_own(
    root: Names,
    p: PageId,
    q: PageId,
    m: ManifestId,
    n: ManifestId,
)
    ensures
        page_path(root, p) == root + seq![
            hex(p.0@).subrange(0, 2),
            hex(p.0@).subrange(2, 4),
            hex(p.0@),
        ],
        manifest_path(root, m) == root + seq![hex(m.0@).subrange(0, 2), hex(m.0@)],
        page_path(root, p) == page_path(root, q) <==> p == q,
        manifest_path(root, m) == manifest_path(root, n) <==> m == n,
{
    assert(page_path(root, p) =~= root + seq![
        hex(p.0@).subrange(0, 2),
        hex(p.0@).subrange(2, 4),
        hex(p.0@),
    ]);
    assert(manifest_path(root, m) =~= root + seq![hex(m.0@).subrange(0, 2), hex(m.0@)]);
    if page_path(root, p) == page_path(root, q) {
        assert(page_path(root, p).last() == hex(p.0@));
        assert(page_path(root, q).last() == hex(q.0@));
        crate::page::page_id_hex_injective(p, q);
    }
    if manifest_path(root, m) == manifest_path(root, n) {
        assert(manifest_path(root, m).last() == hex(m.0@));
        assert(manifest_path(root, n).last() == hex(n.0@));
        crate::manifest::manifest_id_hex_injective(m, n);
    }
}

/// On a steady filesystem a store gives a page exactly where there is a file at its place whose bytes
/// hash to the id, and gives those bytes; where there is no file, the page is missing.
pub proof fn a_page_is_the_file_at_its_place<V: Vfs>(
    s: &FsStore<V>,
    h: &PageHasher,
    id: PageId,
    bytes: &[u8],
    hashed: PageId,
    r: Result<Page, PagerError>,
)
    requires
        call_ensures(<FsStore<V> as Cas>::get, (s, id), r),
        s.steady(),
        s.spec_vfs().files().get(page_path(s.roots()[0], id)) matches Some(b) ==> b == bytes@,
        *h == s.hasher(),
        call_ensures(PageHasher::hash, (h, bytes), hashed),
    ensures
        ({
            let there = s.spec_vfs().files().get(page_path(s.roots()[0], id));
            &&& r is Ok <==> there is Some && hashed.0@ == id.0@
            &&& r is Ok ==> r->Ok_0@ == bytes@ && r->Ok_0.spec_id() == id
            &&& there is None ==> r->Err_0@ == Fault::MissingPage(id)
        }),
{
    if hashed.0@ == id.0@ {
        array32_ext(hashed.0, id.0);
    }
}

/// On a steady filesystem a store gives a manifest exactly where there is a file at its place that
/// reads as a manifest with this id; where there is no file, the manifest is missing.
pub proof fn a_manifest_is_the_file_at_its_place<V: Vfs>(
    s: &FsStore<V>,
    id: ManifestId,
    bytes: &[u8],
    read: Result<Manifest, PagerError>,
    known: Result<ManifestId, PagerError>,
    r: Result<Manifest, PagerError>,
)
    requires
        call_ensures(<FsStore<V> as ManifestStore>::get, (s, id), r),
        s.steady(),
        s.spec_vfs().files().get(manifest_path(s.roots()[1], id)) matches Some(b) ==> b == bytes@,
        call_ensures(Manifest::decode, (bytes,), read),
        read is Ok ==> call_ensures(Manifest::id, (&read->Ok_0,), known),
    ensures
        ({
            let there = s.spec_vfs().files().get(manifest_path(s.roots()[1], id));
            &&& r is Ok <==> there is Some && read is Ok && known->Ok_0.0@ == id.0@
            &&& r is Ok ==> r->Ok_0@ == read->Ok_0@
            &&& there is None ==> r->Err_0@ == Fault::MissingManifest(hex(id.0@))
        }),
{
    if read is Ok && known->Ok_0.0@ == id.0@ {
        array32_ext(known->Ok_0.0, id.0);
    }
}

} // verus!
