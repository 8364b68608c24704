//! Crash injection: a filesystem in memory, and one that dies where it is told to.

use crate::error::{IoError, PagerError};
use crate::path::VPath;
use crate::vfs::{above, appended, is_child, leads_to, names_of, Names, Vfs};
use vstd::prelude::*;
use vstd::slice::{slice_subrange, slice_to_vec};

verus! {

/// A filesystem in memory.
pub struct MemVfs {
    files: Vec<(VPath, Vec<u8>)>,
    dirs: Vec<VPath>,
}

spec fn holds(s: Seq<(VPath, Vec<u8>)>, p: Names, i: int) -> bool {
    0 <= i < s.len() && s[i].0@ == p
}

spec fn files_of(s: Seq<(VPath, Vec<u8>)>) -> Map<Names, Seq<u8>> {
    Map::new(
        |p: Names| exists|i: int| holds(s, p, i),
        |p: Names| s[choose|i: int| holds(s, p, i)].1@,
    )
}

spec fn distinct(s: Seq<(VPath, Vec<u8>)>) -> bool {
    forall|i: int, j: int| 0 <= i < j < s.len() ==> (#[trigger] s[i]).0@ != (#[trigger] s[j]).0@
}

proof fn lemma_holds(s: Seq<(VPath, Vec<u8>)>, p: Names, i: int)
    requires
        distinct(s),
        holds(s, p, i),
    ensures
        files_of(s).contains_key(p),
        files_of(s)[p] == s[i].1@,
{
    let j = choose|j: int| holds(s, p, j);
    assert(i == j);
}

/// The sizes of some files added up.
pub open spec fn total_len(files: Map<Names, Seq<u8>>) -> nat
    decreases files.dom().len(),
    when files.dom().finite()
{
    if files.dom().len() == 0 {
        0
    } else {
        let f = files.dom().choose();
        files[f].len() + total_len(files.remove(f))
    }
}

proof fn lemma_total_without(files: Map<Names, Seq<u8>>, f: Names)
    requires
        files.dom().finite(),
        files.contains_key(f),
    ensures
        total_len(files) == files[f].len() + total_len(files.remove(f)),
    decreases files.dom().len(),
{
    let g = files.dom().choose();
    assert(files.dom().contains(f));
    assert(files.dom().contains(g));
    if f != g {
        let (x, y) = (files.remove(g), files.remove(f));
        assert(x.dom() =~= files.dom().remove(g));
        assert(y.dom() =~= files.dom().remove(f));
        lemma_total_without(x, f);
        lemma_total_without(y, g);
        assert(x.remove(f) =~= y.remove(g));
    }
}

/// A file that is written counts with its new size, and no longer with the old one.
pub proof fn a_written_file_counts_once(files: Map<Names, Seq<u8>>, f: Names, bytes: Seq<u8>)
    requires
        files.dom().finite(),
    ensures
        total_len(files.insert(f, bytes)) + (if files.contains_key(f) {
            files[f].len()
        } else {
            0
        }) == total_len(files) + bytes.len(),
{
    let more = files.insert(f, bytes);
    assert(more.dom() =~= files.dom().insert(f));
    lemma_total_without(more, f);
    if files.contains_key(f) {
        lemma_total_without(files, f);
        assert(more.remove(f) =~= files.remove(f));
    } else {
        assert(more.remove(f) =~= files);
    }
}

/// The total size of some files.
spec fn total(s: Seq<(VPath, Vec<u8>)>) -> nat
    decreases s.len(),
{
    if s.len() == 0 {
        0
    } else {
        total(s.drop_last()) + s.last().1@.len()
    }
}

impl MemVfs {
    /// A new, empty filesystem.
    pub fn new() -> (v: MemVfs)
        ensures
            v.inv(),
            v.files() == Map::<Names, Seq<u8>>::empty(),
            v.dirs() == Set::<Names>::empty(),
    {
        let v = MemVfs { files: Vec::new(), dirs: Vec::new() };
        assert(v.files() =~= Map::<Names, Seq<u8>>::empty());
        assert(v.dirs() =~= Set::<Names>::empty());
        v
    }

    /// How many bytes are stored, if a machine word can say.
    pub fn total_bytes(&self) -> (n: Option<usize>)
        requires
            self.inv(),
        ensures
            self.files().dom().finite(),
            match n {
                Some(n) => n == total_len(self.files()),
                None => total_len(self.files()) > usize::MAX,
            },
    {
        proof {
            lemma_total_of(self.files@);
        }
        let mut n: usize = 0;
        let mut i: usize = 0;
        while i < self.files.len()
            invariant
                i <= self.files.len(),
                n == total(self.files@.take(i as int)),
                self.files().dom().finite(),
                total(self.files@) == total_len(self.files()),
            decreases self.files.len() - i,
        {
            proof {
                assert(self.files@.take(i as int + 1).drop_last() =~= self.files@.take(i as int));
                lemma_total_grows(self.files@, i as int + 1);
            }
            match n.checked_add(self.files[i].1.len()) {
                Some(sum) => {
                    n = sum;
                },
                None => {
                    return None;
                },
            }
            i = i + 1;
        }
        assert(self.files@.take(self.files@.len() as int) =~= self.files@);
        Some(n)
    }

    fn find(&self, path: &VPath) -> (r: Option<usize>)
        ensures
            match r {
                Some(i) => holds(self.files@, path@, i as int),
                None => forall|i: int| !holds(self.files@, path@, i),
            },
    {
        let mut i: usize = 0;
        while i < self.files.len()
            invariant
                i <= self.files.len(),
                forall|k: int| 0 <= k < i ==> !holds(self.files@, path@, k),
            decreases self.files.len() - i,
        {
            if self.files[i].0.same(path) {
                return Some(i);
            }
            i = i + 1;
        }
        None
    }

    fn has_dir(&self, path: &VPath) -> (r: bool)
        ensures
            r == self.dirs().contains(path@),
    {
        let mut i: usize = 0;
        while i < self.dirs.len()
            invariant
                i <= self.dirs.len(),
                forall|k: int| 0 <= k < i ==> (#[trigger] self.dirs@[k])@ != path@,
            decreases self.dirs.len() - i,
        {
            if self.dirs[i].same(path) {
                assert(names_of(self.dirs@)[i as int] == path@);
                return true;
            }
            i = i + 1;
        }
        assert(!self.dirs().contains(path@)) by {
            if self.dirs().contains(path@) {
                let k = choose|k: int|
                    0 <= k < self.dirs@.len() && names_of(self.dirs@)[k] == path@;
                assert(self.dirs@[k]@ == path@);
            }
        }
        false
    }

    /// Makes the directories above `path`, and `path` itself where `whole` says so.
    fn make_dirs(&mut self, path: &VPath, whole: bool)
        requires
            old(self).inv(),
        ensures
            final(self).inv(),
            final(self).files@ == old(self).files@,
            final(self).dirs() == old(self).dirs().union(
                Set::new(|p: Names| leads_to(p, path@) && (whole || p.len() < path@.len())),
            ),
    {
        let n: usize = path.len();
        let top: usize = if whole || n == 0 {
            n
        } else {
            n - 1
        };
        let mut k: usize = 0;
        let ghost start = self.dirs();
        proof {
            assert(self.dirs() =~= start.union(
                Set::new(|p: Names| leads_to(p, path@) && p.len() <= 0),
            ));
        }
        while k < top
            invariant
                k <= top,
                n == path@.len(),
                top <= n,
                self.inv(),
                self.files@ == old(self).files@,
                self.dirs() == start.union(
                    Set::new(|p: Names| leads_to(p, path@) && p.len() <= k),
                ),
            decreases top - k,
        {
            let p = path.prefix(k + 1);
            let ghost before = self.dirs();
            if !self.has_dir(&p) {
                let ghost list = self.dirs@;
                let ghost fs = self.files@;
                self.dirs.push(p);
                proof {
                    assert forall|q: Names| self.dirs().contains(q) <==> before.insert(
                        p@,
                    ).contains(q) by {
                        let now = names_of(self.dirs@);
                        if self.dirs().contains(q) {
                            let j = choose|j: int| 0 <= j < now.len() && now[j] == q;
                            if j < list.len() {
                                assert(names_of(list)[j] == q);
                                assert(names_of(list).contains(q));
                            }
                        }
                        if before.contains(q) {
                            let j = choose|j: int| 0 <= j < list.len() && names_of(list)[j] == q;
                            assert(now[j] == q);
                        }
                        if q == p@ {
                            assert(now[list.len() as int] == q);
                        }
                    }
                    assert(self.dirs() =~= before.insert(p@));
                    assert forall|i: int, j: int| 0 <= i < j < self.dirs@.len() implies (
                    #[trigger] self.dirs@[i])@ != (#[trigger] self.dirs@[j])@ by {
                        if j == list.len() {
                            assert(names_of(list)[i] == self.dirs@[i]@);
                            assert(names_of(list).contains(self.dirs@[i]@));
                        }
                    }
                }
            } else {
                assert(before.insert(p@) =~= before);
            }
            proof {
                assert forall|q: Names| self.dirs().contains(q) <==> start.union(
                    Set::new(|p: Names| leads_to(p, path@) && p.len() <= k + 1),
                ).contains(q) by {
                    if leads_to(q, path@) && q.len() == k + 1 {
                        assert(q == p@);
                    }
                }
                assert(self.dirs() =~= start.union(
                    Set::new(|p: Names| leads_to(p, path@) && p.len() <= k + 1),
                ));
            }
            k = k + 1;
        }
        proof {
            assert(self.dirs() =~= old(self).dirs().union(
                Set::new(|p: Names| leads_to(p, path@) && (whole || p.len() < path@.len())),
            ));
        }
    }

    /// Puts a file in place of what was at its path.
    fn set_file(&mut self, path: &VPath, bytes: Vec<u8>)
        requires
            old(self).inv(),
            forall|p: Names| above(p, path@) ==> #[trigger] old(self).dirs().contains(p),
        ensures
            final(self).inv(),
            final(self).dirs@ == old(self).dirs@,
            final(self).files() == old(self).files().insert(path@, bytes@),
    {
        let ghost s = self.files@;
        match self.find(path) {
            Some(i) => {
                let _ = self.files.swap_remove(i);
                let ghost t = self.files@;
                self.files.push((path.clone(), bytes));
                proof {
                    let u = self.files@;
                    let last = s.len() - 1;
                    assert forall|a: int, b: int| 0 <= a < b < u.len() implies (#[trigger] u[a]).0@
                        != (#[trigger] u[b]).0@ by {
                        let a2 = if a == i { last } else { a };
                        let b2 = if b == i { last } else { b };
                        if b < last {
                            assert(u[a] == s[a2] && u[b] == s[b2]);
                            if a2 < b2 {
                                assert(s[a2].0@ != s[b2].0@);
                            } else {
                                assert(s[b2].0@ != s[a2].0@);
                            }
                        } else {
                            assert(u[a] == s[a2]);
                            if a2 < i {
                                assert(s[a2].0@ != s[i as int].0@);
                            } else {
                                assert(s[i as int].0@ != s[a2].0@);
                            }
                        }
                    }
                    assert forall|p: Names| files_of(u).contains_key(p) <==> files_of(s).insert(
                        path@,
                        bytes@,
                    ).contains_key(p) by {
                        if files_of(u).contains_key(p) {
                            let a = choose|a: int| holds(u, p, a);
                            if a < last {
                                assert(holds(s, p, if a == i { last } else { a }));
                            }
                        }
                        if files_of(s).contains_key(p) {
                            let a = choose|a: int| holds(s, p, a);
                            if a == i {
                                assert(holds(u, p, last));
                            } else if a == last {
                                assert(holds(u, p, i as int));
                            } else {
                                assert(holds(u, p, a));
                            }
                        }
                        if p == path@ {
                            assert(holds(u, p, last));
                        }
                    }
                    assert forall|p: Names| #[trigger] files_of(u).contains_key(p) implies files_of(
                        u,
                    )[p] == files_of(s).insert(path@, bytes@)[p] by {
                        let a = choose|a: int| holds(u, p, a);
                        lemma_holds(u, p, a);
                        if a < last {
                            lemma_holds(s, p, if a == i { last } else { a });
                            assert(u[a].0@ != u[last].0@);
                        }
                    }
                    assert(files_of(u) =~= files_of(s).insert(path@, bytes@));
                }
            },
            None => {
                self.files.push((path.clone(), bytes));
                proof {
                    let u = self.files@;
                    let last = s.len() as int;
                    assert forall|a: int, b: int| 0 <= a < b < u.len() implies (#[trigger] u[a]).0@
                        != (#[trigger] u[b]).0@ by {
                        if b == last {
                            assert(!holds(s, path@, a));
                        }
                    }
                    assert forall|p: Names| files_of(u).contains_key(p) <==> files_of(s).insert(
                        path@,
                        bytes@,
                    ).contains_key(p) by {
                        if files_of(u).contains_key(p) {
                            let a = choose|a: int| holds(u, p, a);
                            if a < last {
                                assert(holds(s, p, a));
                            }
                        }
                        if files_of(s).contains_key(p) {
                            let a = choose|a: int| holds(s, p, a);
                            assert(holds(u, p, a));
                        }
                        if p == path@ {
                            assert(holds(u, p, last));
                        }
                    }
                    assert forall|p: Names| #[trigger] files_of(u).contains_key(p) implies files_of(
                        u,
                    )[p] == files_of(s).insert(path@, bytes@)[p] by {
                        let a = choose|a: int| holds(u, p, a);
                        lemma_holds(u, p, a);
                        if a < last {
                            lemma_holds(s, p, a);
                            assert(u[a].0@ != u[last].0@);
                        }
                    }
                    assert(files_of(u) =~= files_of(s).insert(path@, bytes@));
                }
            },
        }
        proof {
            assert(self.dirs() =~= old(self).dirs());
        }
    }
}

/// The total size of a list of files is that of the files in it.
proof fn lemma_total_of(s: Seq<(VPath, Vec<u8>)>)
    requires
        distinct(s),
    ensures
        files_of(s).dom().finite(),
        total(s) == total_len(files_of(s)),
    decreases s.len(),
{
    if s.len() == 0 {
        assert(files_of(s).dom() =~= Set::empty());
    } else {
        let init = s.drop_last();
        let p = s.last().0@;
        lemma_total_of(init);
        assert forall|q: Names| files_of(s).contains_key(q) <==> q == p || files_of(
            init,
        ).contains_key(q) by {
            if files_of(s).contains_key(q) {
                let i = choose|i: int| holds(s, q, i);
                if i < init.len() {
                    assert(holds(init, q, i));
                }
            }
            if files_of(init).contains_key(q) {
                let i = choose|i: int| holds(init, q, i);
                assert(holds(s, q, i));
            }
            assert(holds(s, p, s.len() - 1));
        }
        assert(!files_of(init).contains_key(p)) by {
            if files_of(init).contains_key(p) {
                let i = choose|i: int| holds(init, p, i);
                assert(s[i].0@ == s[s.len() - 1].0@);
            }
        }
        assert forall|q: Names| files_of(init).contains_key(q) implies files_of(s)[q] == files_of(
            init,
        )[q] by {
            let i = choose|i: int| holds(init, q, i);
            lemma_holds(init, q, i);
            assert(holds(s, q, i));
            lemma_holds(s, q, i);
        }
        lemma_holds(s, p, s.len() - 1);
        assert(files_of(s) =~= files_of(init).insert(p, s.last().1@));
        a_written_file_counts_once(files_of(init), p, s.last().1@);
    }
}

proof fn lemma_total_grows(s: Seq<(VPath, Vec<u8>)>, n: int)
    requires
        0 <= n <= s.len(),
    ensures
        total(s.take(n)) <= total(s),
    decreases s.len() - n,
{
    if n < s.len() {
        assert(s.take(n + 1).drop_last() =~= s.take(n));
        lemma_total_grows(s, n + 1);
    } else {
        assert(s.take(n) =~= s);
    }
}

impl Vfs for MemVfs {
    closed spec fn inv(&self) -> bool {
        &&& distinct(self.files@)
        &&& forall|i: int, j: int|
            0 <= i < j < self.dirs@.len() ==> (#[trigger] self.dirs@[i])@ != (
            #[trigger] self.dirs@[j])@
        &&& forall|f: Names, p: Names|
            self.files().contains_key(f) && #[trigger] above(p, f) ==> self.dirs().contains(p)
    }

    closed spec fn files(&self) -> Map<Names, Seq<u8>> {
        files_of(self.files@)
    }

    closed spec fn dirs(&self) -> Set<Names> {
        names_of(self.dirs@).to_set()
    }

    open spec fn steady(&self) -> bool {
        true
    }

    proof fn files_are_in_directories(&self) {
    }

    fn create_dir_all(&mut self, path: &VPath) -> (r: Result<(), IoError>)
        ensures
            r is Ok,
    {
        self.make_dirs(path, true);
        Ok(())
    }

    fn atomic_write(&mut self, path: &VPath, bytes: &[u8]) -> (r: Result<(), IoError>)
        ensures
            r is Ok,
    {
        self.make_dirs(path, false);
        self.set_file(path, slice_to_vec(bytes));
        Ok(())
    }

    fn append(&mut self, path: &VPath, bytes: &[u8]) -> (r: Result<(), IoError>)
        ensures
            r is Ok,
    {
        self.make_dirs(path, false);
        let mut content: Vec<u8> = match self.find(path) {
            Some(i) => {
                proof {
                    lemma_holds(self.files@, path@, i as int);
                }
                slice_to_vec(self.files[i].1.as_slice())
            },
            None => Vec::new(),
        };
        content.extend_from_slice(bytes);
        proof {
            assert(content@ =~= appended(old(self).files(), path@, bytes@)[path@]);
        }
        self.set_file(path, content);
        Ok(())
    }

    fn read(&self, path: &VPath) -> (r: Result<Vec<u8>, IoError>) {
        match self.find(path) {
            Some(i) => {
                proof {
                    lemma_holds(self.files@, path@, i as int);
                }
                Ok(slice_to_vec(self.files[i].1.as_slice()))
            },
            None => Err(IoError::NotFound),
        }
    }

    fn truncate(&mut self, path: &VPath, len: u64) -> (r: Result<(), IoError>) {
        match self.find(path) {
            Some(i) => {
                proof {
                    lemma_holds(self.files@, path@, i as int);
                }
                let mut content: Vec<u8> = slice_to_vec(self.files[i].1.as_slice());
                if len < content.len() as u64 {
                    content.truncate(len as usize);
                }
                self.set_file(path, content);
                Ok(())
            },
            None => Err(IoError::NotFound),
        }
    }

    fn has_file(&self, path: &VPath) -> (r: bool) {
        self.find(path).is_some()
    }

    fn remove_file(&mut self, path: &VPath) -> (r: Result<(), IoError>)
        ensures
            r is Ok,
    {
        let ghost s = self.files@;
        match self.find(path) {
            Some(i) => {
                let _ = self.files.swap_remove(i);
                proof {
                    let u = self.files@;
                    let last = s.len() - 1;
                    assert forall|a: int, b: int| 0 <= a < b < u.len() implies (#[trigger] u[a]).0@
                        != (#[trigger] u[b]).0@ by {
                        let a2 = if a == i { last } else { a };
                        let b2 = if b == i { last } else { b };
                        assert(u[a] == s[a2] && u[b] == s[b2]);
                        if a2 < b2 {
                            assert(s[a2].0@ != s[b2].0@);
                        } else {
                            assert(s[b2].0@ != s[a2].0@);
                        }
                    }
                    assert forall|p: Names| files_of(u).contains_key(p) <==> files_of(s).remove(
                        path@,
                    ).contains_key(p) by {
                        if files_of(u).contains_key(p) {
                            let a = choose|a: int| holds(u, p, a);
                            let a2 = if a == i { last } else { a };
                            assert(holds(s, p, a2));
                            if a2 < i {
                                assert(s[a2].0@ != s[i as int].0@);
                            } else {
                                assert(s[i as int].0@ != s[a2].0@);
                            }
                        }
                        if files_of(s).contains_key(p) && p != path@ {
                            let a = choose|a: int| holds(s, p, a);
                            if a == last {
                                assert(holds(u, p, i as int));
                            } else {
                                assert(holds(u, p, a));
                            }
                        }
                    }
                    assert forall|p: Names| #[trigger] files_of(u).contains_key(p) implies files_of(
                        u,
                    )[p] == files_of(s)[p] by {
                        let a = choose|a: int| holds(u, p, a);
                        lemma_holds(u, p, a);
                        lemma_holds(s, p, if a == i { last } else { a });
                    }
                    assert(files_of(u) =~= files_of(s).remove(path@));
                }
            },
            None => {
                assert(self.files() =~= self.files().remove(path@));
            },
        }
        Ok(())
    }

    fn read_dir(&self, path: &VPath) -> (r: Result<Vec<VPath>, IoError>)
        ensures
            r is Ok,
    {
        let mut out: Vec<VPath> = Vec::new();
        let mut i: usize = 0;
        while i < self.files.len()
            invariant
                i <= self.files.len(),
                self.inv(),
                forall|k: int| 0 <= k < out@.len() ==> is_child((#[trigger] out@[k])@, path@),
                forall|k: int|
                    0 <= k < out@.len() ==> exists|q: int|
                        #![trigger self.files@[q]]
                        0 <= q < i && self.files@[q].0@ == (#[trigger] out@[k])@,
                forall|a: int, b: int|
                    0 <= a < b < out@.len() ==> (#[trigger] out@[a])@ != (#[trigger] out@[b])@,
                forall|q: int|
                    0 <= q < i && is_child((#[trigger] self.files@[q]).0@, path@) ==> exists|k: int|
                        0 <= k < out@.len() && (#[trigger] out@[k])@ == self.files@[q].0@,
            decreases self.files.len() - i,
        {
            if self.files[i].0.is_under(path) {
                let ghost before = out@;
                out.push(self.files[i].0.clone());
                proof {
                    let n = before.len() as int;
                    assert(out@[n]@ == self.files@[i as int].0@);
                    assert forall|a: int, b: int| 0 <= a < b < out@.len() implies (
                    #[trigger] out@[a])@ != (#[trigger] out@[b])@ by {
                        if b == n {
                            let q = choose|q: int|
                                #![trigger self.files@[q]]
                                0 <= q < i && self.files@[q].0@ == before[a]@;
                            assert(out@[a] == before[a]);
                            assert(self.files@[q].0@ != self.files@[i as int].0@);
                        } else {
                            assert(out@[a] == before[a] && out@[b] == before[b]);
                        }
                    }
                    assert forall|q: int|
                        0 <= q < i + 1 && is_child(
                            (#[trigger] self.files@[q]).0@,
                            path@,
                        ) implies exists|k: int|
                        0 <= k < out@.len() && (#[trigger] out@[k])@ == self.files@[q].0@ by {
                        if q < i {
                            let k = choose|k: int|
                                0 <= k < before.len() && (#[trigger] before[k])@
                                    == self.files@[q].0@;
                            assert(out@[k] == before[k]);
                        } else {
                            assert(out@[n]@ == self.files@[q].0@);
                        }
                    }
                    assert forall|k: int| 0 <= k < out@.len() implies exists|q: int|
                        #![trigger self.files@[q]]
                        0 <= q < i + 1 && self.files@[q].0@ == (#[trigger] out@[k])@ by {
                        if k < n {
                            assert(out@[k] == before[k]);
                        }
                    }
                }
            }
            i = i + 1;
        }
        let ghost from_files = out@;
        proof {
            assert forall|k: int| 0 <= k < out@.len() implies self.files().contains_key(
                (#[trigger] out@[k])@,
            ) by {
                let q = choose|q: int|
                    #![trigger self.files@[q]]
                    0 <= q < i && self.files@[q].0@ == out@[k]@;
                assert(holds(self.files@, out@[k]@, q));
            }
        }
        let mut j: usize = 0;
        while j < self.dirs.len()
            invariant
                j <= self.dirs.len(),
                self.inv(),
                from_files.len() <= out@.len(),
                forall|k: int| 0 <= k < from_files.len() ==> #[trigger] out@[k] == from_files[k],
                forall|k: int| 0 <= k < out@.len() ==> is_child((#[trigger] out@[k])@, path@),
                forall|k: int|
                    0 <= k < out@.len() ==> self.files().contains_key((#[trigger] out@[k])@)
                        || self.dirs().contains(out@[k]@),
                forall|a: int, b: int|
                    0 <= a < b < out@.len() ==> (#[trigger] out@[a])@ != (#[trigger] out@[b])@,
                forall|q: int|
                    0 <= q < j && is_child((#[trigger] self.dirs@[q])@, path@) ==> exists|k: int|
                        0 <= k < out@.len() && (#[trigger] out@[k])@ == self.dirs@[q]@,
            decreases self.dirs.len() - j,
        {
            if self.dirs[j].is_under(path) && !listed(&out, &self.dirs[j]) {
                let ghost before = out@;
                out.push(self.dirs[j].clone());
                proof {
                    let n = before.len() as int;
                    assert(out@[n]@ == self.dirs@[j as int]@);
                    assert(names_of(self.dirs@)[j as int] == self.dirs@[j as int]@);
                    assert forall|q: int|
                        0 <= q < j + 1 && is_child((#[trigger] self.dirs@[q])@, path@) implies exists|
                        k: int,
                    | 0 <= k < out@.len() && (#[trigger] out@[k])@ == self.dirs@[q]@ by {
                        if q < j {
                            let k = choose|k: int|
                                0 <= k < before.len() && (#[trigger] before[k])@ == self.dirs@[q]@;
                            assert(out@[k] == before[k]);
                        }
                    }
                }
            }
            j = j + 1;
        }
        proof {
            let names = names_of(out@);
            assert forall|a: int, b: int|
                0 <= a < names.len() && 0 <= b < names.len() && a != b implies names[a]
                != names[b] by {
                if a < b {
                    assert(out@[a]@ != out@[b]@);
                } else {
                    assert(out@[b]@ != out@[a]@);
                }
            }
            assert forall|e: Names| #[trigger] names.contains(e) implies self.files().contains_key(e)
                || self.dirs().contains(e) by {
                let k = choose|k: int| 0 <= k < names.len() && names[k] == e;
                assert(out@[k]@ == e);
            }
            assert forall|e: Names|
                is_child(e, path@) && (self.files().contains_key(e) || self.dirs().contains(
                    e,
                )) implies #[trigger] names.contains(e) by {
                if self.files().contains_key(e) {
                    let q = choose|q: int| holds(self.files@, e, q);
                    assert(is_child(self.files@[q].0@, path@));
                    let k = choose|k: int|
                        0 <= k < from_files.len() && (#[trigger] from_files[k])@
                            == self.files@[q].0@;
                    assert(out@[k] == from_files[k]);
                    assert(names[k] == e);
                } else {
                    let q = choose|q: int| 0 <= q < self.dirs@.len() && names_of(self.dirs@)[q] == e;
                    assert(is_child(self.dirs@[q]@, path@));
                    let k = choose|k: int|
                        0 <= k < out@.len() && (#[trigger] out@[k])@ == self.dirs@[q]@;
                    assert(names[k] == e);
                }
            }
        }
        Ok(out)
    }
}

fn listed(out: &Vec<VPath>, path: &VPath) -> (r: bool)
    ensures
        r == exists|k: int| 0 <= k < out@.len() && (#[trigger] out@[k])@ == path@,
{
    let mut i: usize = 0;
    while i < out.len()
        invariant
            i <= out.len(),
            forall|k: int| 0 <= k < i ==> (#[trigger] out@[k])@ != path@,
        decreases out.len() - i,
    {
        if out[i].same(path) {
            return true;
        }
        i = i + 1;
    }
    false
}

/// What a write says on a machine that is gone.
pub const CRASH_REPORT: &'static str = "simulated crash: the machine is gone (CrashVfs budget exhausted)";

/// The machine is gone.
pub open spec fn is_crash(e: IoError) -> bool {
    e matches IoError::Other(text) && text@ == CRASH_REPORT@
}

/// A filesystem that dies after a chosen number of bytes have been written: from then on every
/// write fails, and what was already there can still be read.
pub struct CrashVfs<V: Vfs> {
    inner: V,
    budget: i64,
    crashed: bool,
}

impl<V: Vfs> CrashVfs<V> {
    /// What is on the disk.
    pub closed spec fn disk(&self) -> V {
        self.inner
    }

    /// How many more bytes can be written.
    pub closed spec fn budget(&self) -> i64 {
        self.budget
    }

    /// Whether the crash has happened.
    pub closed spec fn dead(&self) -> bool {
        self.crashed
    }

    /// What is there is what is on the disk.
    pub proof fn shows_its_disk(&self)
        ensures
            self.files() == self.disk().files(),
            self.dirs() == self.disk().dirs(),
            self.inv() == self.disk().inv(),
    {
    }

    /// A filesystem that dies after `budget` bytes of writes.
    pub fn with_budget(inner: V, budget: i64) -> (v: CrashVfs<V>)
        requires
            inner.inv(),
        ensures
            v.inv(),
            v.disk() == inner,
            v.budget() == budget,
            !v.dead(),
    {
        CrashVfs { inner, budget, crashed: false }
    }

    /// A filesystem with more budget than anything will use.
    pub fn unlimited(inner: V) -> (v: CrashVfs<V>)
        requires
            inner.inv(),
        ensures
            v.inv(),
            v.disk() == inner,
            v.budget() == i64::MAX,
            !v.dead(),
    {
        CrashVfs::with_budget(inner, i64::MAX)
    }

    /// Whether the crash has happened yet.
    pub fn has_crashed(&self) -> (r: bool)
        ensures
            r == self.dead(),
    {
        self.crashed
    }

    /// Bytes of write budget left.
    pub fn remaining(&self) -> (n: i64)
        ensures
            n == (if self.budget() > 0 {
                self.budget()
            } else {
                0
            }),
    {
        if self.budget > 0 {
            self.budget
        } else {
            0
        }
    }

    /// The disk, after the machine is gone.
    pub fn into_disk(self) -> (v: V)
        ensures
            v == self.disk(),
    {
        self.inner
    }

    fn fail() -> (e: IoError)
        ensures
            is_crash(e),
    {
        IoError::Other(CRASH_REPORT.to_owned())
    }

    /// Claims `want` bytes of budget and says how many were granted. Fewer is a torn write, and
    /// the crash.
    fn claim(&mut self, want: usize) -> (granted: usize)
        ensures
            granted <= want,
            final(self).inner == old(self).inner,
            old(self).dead() ==> granted == 0 && final(self).dead() && final(self).budget() == old(self).budget(),
            !old(self).dead() && old(self).budget() >= want ==> granted == want && !final(self).dead() && final(self).budget() == old(self).budget() - want,
            !old(self).dead() && old(self).budget() < want ==> granted == (if old(self).budget()
                > 0 {
                old(self).budget() as int
            } else {
                0
            }) && final(self).dead() && final(self).budget() == 0,
    {
        if self.crashed {
            return 0;
        }
        if self.budget >= 0 && self.budget as u64 >= want as u64 {
            self.budget = self.budget - want as i64;
            return want;
        }
        let granted: usize = if self.budget > 0 {
            self.budget as usize
        } else {
            0
        };
        self.budget = 0;
        self.crashed = true;
        granted
    }
}

impl<V: Vfs> Vfs for CrashVfs<V> {
    closed spec fn inv(&self) -> bool {
        self.inner.inv()
    }

    closed spec fn files(&self) -> Map<Names, Seq<u8>> {
        self.inner.files()
    }

    closed spec fn dirs(&self) -> Set<Names> {
        self.inner.dirs()
    }

    open spec fn steady(&self) -> bool {
        false
    }

    proof fn files_are_in_directories(&self) {
        self.inner.files_are_in_directories();
    }

    fn create_dir_all(&mut self, path: &VPath) -> (r: Result<(), IoError>)
        ensures
            old(self).dead() ==> r is Err && is_crash(r->Err_0) && *final(self) == *old(self),
            final(self).dead() == old(self).dead(),
            final(self).budget() == old(self).budget(),
            // Before the crash it is the disk that does it.
            !old(self).dead() ==> exists|disk: &mut V|
                *disk == old(self).disk() && *final(disk) == final(self).disk()
                    && #[trigger] call_ensures(V::create_dir_all, (disk, path), r),
            !old(self).dead() && old(self).disk().steady() ==> r is Ok,
    {
        if self.crashed {
            return Err(Self::fail());
        }
        self.inner.create_dir_all(path)
    }

    fn atomic_write(&mut self, path: &VPath, bytes: &[u8]) -> (r: Result<(), IoError>)
        ensures
            old(self).dead() || old(self).budget() < bytes@.len() ==> r is Err && is_crash(
                r->Err_0,
            ) && final(self).dead() && final(self).disk() == old(self).disk(),
            old(self).dead() ==> final(self).budget() == old(self).budget(),
            !old(self).dead() && old(self).budget() < bytes@.len() ==> final(self).budget() == 0,
            !old(self).dead() && old(self).budget() >= bytes@.len() ==> {
                &&& !final(self).dead()
                &&& final(self).budget() == old(self).budget() - bytes@.len()
                // Before the crash it is the disk that does it.
                &&& exists|disk: &mut V|
                    *disk == old(self).disk() && *final(disk) == final(self).disk()
                        && #[trigger] call_ensures(V::atomic_write, (disk, path, bytes), r)
                &&& old(self).disk().steady() ==> r is Ok
            },
    {
        let granted: usize = self.claim(bytes.len());
        if granted < bytes.len() || self.crashed {
            return Err(Self::fail());
        }
        self.inner.atomic_write(path, bytes)
    }

    fn append(&mut self, path: &VPath, bytes: &[u8]) -> (r: Result<(), IoError>)
        ensures
            old(self).dead() ==> r is Err && is_crash(r->Err_0) && *final(self) == *old(self),
            !old(self).dead() && old(self).budget() < bytes@.len() ==> {
                &&& r is Err
                &&& final(self).dead()
                &&& final(self).budget() == 0
                &&& old(self).budget() <= 0 ==> is_crash(r->Err_0) && final(self).disk() == old(
                    self).disk()
                // The bytes that the budget grants are on the disk, and no others.
                &&& old(self).disk().steady() ==> is_crash(r->Err_0) && final(self).files() == (if old(
                    self).budget() > 0 {
                    appended(
                        old(self).files(),
                        path@,
                        bytes@.take(old(self).budget() as int),
                    )
                } else {
                    old(self).files()
                })
            },
            !old(self).dead() && old(self).budget() >= bytes@.len() ==> {
                &&& !final(self).dead()
                &&& final(self).budget() == old(self).budget() - bytes@.len()
                // Before the crash it is the disk that does it.
                &&& exists|disk: &mut V|
                    *disk == old(self).disk() && *final(disk) == final(self).disk()
                        && #[trigger] call_ensures(V::append, (disk, path, bytes), r)
                &&& old(self).disk().steady() ==> r is Ok
            },
    {
        let granted: usize = self.claim(bytes.len());
        if granted < bytes.len() || self.crashed {
            if granted > 0 {
                let part = slice_subrange(bytes, 0, granted);
                assert(part@ =~= bytes@.take(granted as int));
                match self.inner.append(path, part) {
                    Ok(()) => {},
                    Err(e) => {
                        proof {
                            if self.inner.files() != old(self).inner.files() {
                                let k = choose|k: int|
                                    0 <= k <= part@.len() && self.inner.files() == appended(
                                        old(self).inner.files(),
                                        path@,
                                        #[trigger] part@.take(k),
                                    );
                                assert(part@.take(k) =~= bytes@.take(k));
                            }
                        }
                        return Err(e);
                    },
                }
            }
            return Err(Self::fail());
        }
        self.inner.append(path, bytes)
    }

    fn read(&self, path: &VPath) -> (r: Result<Vec<u8>, IoError>)
        ensures
            call_ensures(V::read, (&self.disk(), path), r),
            self.disk().steady() && self.files().contains_key(path@) ==> r is Ok,
    {
        self.inner.read(path)
    }

    fn truncate(&mut self, path: &VPath, len: u64) -> (r: Result<(), IoError>)
        ensures
            old(self).dead() ==> r is Err && is_crash(r->Err_0) && *final(self) == *old(self),
            final(self).dead() == old(self).dead(),
            final(self).budget() == old(self).budget(),
            // Before the crash it is the disk that does it.
            !old(self).dead() ==> exists|disk: &mut V|
                *disk == old(self).disk() && *final(disk) == final(self).disk()
                    && #[trigger] call_ensures(V::truncate, (disk, path, len), r),
            !old(self).dead() && old(self).disk().steady() && old(self).files().contains_key(path@) ==> r is Ok,
    {
        if self.crashed {
            return Err(Self::fail());
        }
        self.inner.truncate(path, len)
    }

    fn has_file(&self, path: &VPath) -> (r: bool) {
        self.inner.has_file(path)
    }

    fn remove_file(&mut self, path: &VPath) -> (r: Result<(), IoError>)
        ensures
            old(self).dead() ==> r is Err && is_crash(r->Err_0) && *final(self) == *old(self),
            final(self).dead() == old(self).dead(),
            final(self).budget() == old(self).budget(),
            // Before the crash it is the disk that does it.
            !old(self).dead() ==> exists|disk: &mut V|
                *disk == old(self).disk() && *final(disk) == final(self).disk()
                    && #[trigger] call_ensures(V::remove_file, (disk, path), r),
            !old(self).dead() && old(self).disk().steady() ==> r is Ok,
    {
        if self.crashed {
            return Err(Self::fail());
        }
        self.inner.remove_file(path)
    }

    fn read_dir(&self, path: &VPath) -> (r: Result<Vec<VPath>, IoError>)
        ensures
            call_ensures(V::read_dir, (&self.disk(), path), r),
            self.disk().steady() ==> r is Ok,
    {
        self.inner.read_dir(path)
    }
}

/// A filesystem in memory that dies after `budget` bytes.
pub fn crashing_mem_vfs(budget: i64) -> (v: CrashVfs<MemVfs>)
    ensures
        v.inv(),
        v.files() == Map::<Names, Seq<u8>>::empty(),
        v.dirs() == Set::<Names>::empty(),
        v.disk().files() == Map::<Names, Seq<u8>>::empty(),
        v.disk().dirs() == Set::<Names>::empty(),
        v.budget() == budget,
        !v.dead(),
{
    CrashVfs::with_budget(MemVfs::new(), budget)
}

/// The machine starts again with the disk that the crash left.
pub fn reboot(vfs: CrashVfs<MemVfs>) -> (disk: MemVfs)
    requires
        vfs.inv(),
    ensures
        disk == vfs.disk(),
        disk.inv(),
        disk.files() == vfs.files(),
        disk.dirs() == vfs.dirs(),
{
    vfs.into_disk()
}

/// A deterministic pseudo-random generator.
#[derive(Debug)]
pub struct Rng(u64);

/// One step of the generator's state.
pub open spec fn xorshift(x: u64) -> u64 {
    let a = x ^ (x >> 12u64);
    let b = a ^ (a << 25u64);
    b ^ (b >> 27u64)
}

impl Clone for Rng {
    fn clone(&self) -> (r: Rng)
        ensures
            r.state() == self.state(),
    {
        Rng(self.0)
    }
}

impl Rng {
    /// The state.
    pub closed spec fn state(&self) -> u64 {
        self.0
    }

    /// Seeds the generator: the same seed gives the same numbers. The state is never zero, where
    /// it would stay.
    pub fn new(seed: u64) -> (r: Rng)
        ensures
            r.state() == seed | 1,
            r.state() != 0,
    {
        assert(seed | 1u64 != 0u64) by (bit_vector);
        Rng(seed | 1)
    }

    /// The next number.
    pub fn next_u64(&mut self) -> (n: u64)
        ensures
            final(self).state() == xorshift(old(self).state()),
            old(self).state() != 0 ==> final(self).state() != 0,
            n == final(self).state().wrapping_mul(0x2545_F491_4F6C_DD1D),
    {
        let mut x: u64 = self.0;
        let ghost s = x;
        x = x ^ (x >> 12u64);
        x = x ^ (x << 25u64);
        x = x ^ (x >> 27u64);
        assert(s != 0u64 ==> ((s ^ (s >> 12u64)) ^ ((s ^ (s >> 12u64)) << 25u64)) ^ (((s ^ (s
            >> 12u64)) ^ ((s ^ (s >> 12u64)) << 25u64)) >> 27u64) != 0u64) by (bit_vector);
        self.0 = x;
        x.wrapping_mul(0x2545_F491_4F6C_DD1D)
    }

    /// A number below `n`, or zero where `n` is zero.
    pub fn below(&mut self, n: u64) -> (r: u64)
        ensures
            n == 0 ==> r == 0 && *final(self) == *old(self),
            n > 0 ==> final(self).state() == xorshift(old(self).state()) && r == final(self).state().wrapping_mul(0x2545_F491_4F6C_DD1D) % n && r < n,
    {
        if n == 0 {
            return 0;
        }
        self.next_u64() % n
    }

    /// A byte.
    pub fn byte(&mut self) -> (b: u8)
        ensures
            final(self).state() == xorshift(old(self).state()),
            b == (final(self).state().wrapping_mul(0x2545_F491_4F6C_DD1D) & 0xFF) as u8,
    {
        (self.next_u64() & 0xFF) as u8
    }
}

/// Nothing went wrong.
pub fn ok() -> (r: Result<(), PagerError>)
    ensures
        r is Ok,
{
    Ok(())
}

} // verus!
