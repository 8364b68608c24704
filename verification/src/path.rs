//! Where a file is: the names from the top directory down to it.

use vstd::prelude::*;

verus! {

/// A path, as the sequence of its names.
#[derive(Debug)]
pub struct VPath {
    parts: Vec<String>,
}

impl View for VPath {
    type V = Seq<Seq<char>>;

    closed spec fn view(&self) -> Seq<Seq<char>> {
        self.parts@.map_values(|s: String| s@)
    }
}

/// Names that start like this are scratch: a write that has not been put in its place.
pub open spec fn is_scratch(path: Seq<Seq<char>>) -> bool {
    path.len() > 0 && path.last().len() >= 5 && path.last().take(5) == ".tmp."@
}

/// Names with a slash in front of each.
pub open spec fn joined(names: Seq<Seq<char>>) -> Seq<char>
    decreases names.len(),
{
    if names.len() == 0 {
        Seq::empty()
    } else {
        joined(names.drop_last()) + "/"@ + names.last()
    }
}

impl VPath {
    /// The path of the top directory.
    pub fn new() -> (p: VPath)
        ensures
            p@ == Seq::<Seq<char>>::empty(),
    {
        let p = VPath { parts: Vec::new() };
        assert(p@ =~= Seq::<Seq<char>>::empty());
        p
    }

    /// The entry called `name` under this path.
    pub fn join(&self, name: &str) -> (p: VPath)
        ensures
            p@ == self@.push(name@),
    {
        let mut q = self.clone();
        q.parts.push(name.to_owned());
        assert(q@ =~= self@.push(name@));
        q
    }

    /// How many names the path has.
    pub fn len(&self) -> (n: usize)
        ensures
            n == self@.len(),
    {
        self.parts.len()
    }

    /// The name at position `i`, counted from the top.
    pub fn part(&self, i: usize) -> (s: &String)
        requires
            i < self@.len(),
        ensures
            s@ == self@[i as int],
    {
        &self.parts[i]
    }

    /// The last name, if there is one.
    pub fn file_name(&self) -> (s: Option<&String>)
        ensures
            match s {
                Some(n) => self@.len() > 0 && n@ == self@.last(),
                None => self@.len() == 0,
            },
    {
        if self.parts.len() == 0 {
            None
        } else {
            Some(&self.parts[self.parts.len() - 1])
        }
    }

    /// The first `n` names.
    pub fn prefix(&self, n: usize) -> (p: VPath)
        requires
            n <= self@.len(),
        ensures
            p@ == self@.take(n as int),
    {
        let mut parts: Vec<String> = Vec::new();
        let mut i: usize = 0;
        while i < n
            invariant
                i <= n <= self.parts.len(),
                parts.len() == i,
                forall|k: int| 0 <= k < i ==> (#[trigger] parts@[k])@ == self.parts@[k]@,
            decreases n - i,
        {
            parts.push(self.parts[i].clone());
            i = i + 1;
        }
        let p = VPath { parts };
        assert(p@ =~= self@.take(n as int));
        p
    }

    /// Whether two paths are the same.
    pub fn same(&self, other: &VPath) -> (r: bool)
        ensures
            r == (self@ == other@),
    {
        if self.parts.len() != other.parts.len() {
            assert(self@.len() != other@.len());
            return false;
        }
        let n: usize = self.parts.len();
        let mut i: usize = 0;
        while i < n
            invariant
                i <= n,
                n == self.parts.len() == other.parts.len(),
                forall|k: int| 0 <= k < i ==> self@[k] == other@[k],
            decreases n - i,
        {
            if !(self.parts[i] == other.parts[i]) {
                assert(self@[i as int] != other@[i as int]);
                return false;
            }
            i = i + 1;
        }
        assert(self@ =~= other@);
        true
    }

    /// The path in one text, with a slash in front of every name.
    pub open spec fn text(&self) -> Seq<char> {
        if self@.len() == 0 {
            "/"@
        } else {
            joined(self@)
        }
    }

    /// Prints the path.
    pub fn to_text(&self) -> (s: String)
        ensures
            s@ == self.text(),
    {
        if self.parts.len() == 0 {
            return "/".to_owned();
        }
        let mut s = String::new();
        let mut i: usize = 0;
        while i < self.parts.len()
            invariant
                i <= self.parts.len(),
                s@ == joined(self@.take(i as int)),
            decreases self.parts.len() - i,
        {
            proof {
                assert(self@.take(i + 1).drop_last() =~= self@.take(i as int));
            }
            s = s.concat("/").concat(self.parts[i].as_str());
            i = i + 1;
        }
        assert(self@.take(i as int) =~= self@);
        s
    }

    /// Whether `self` is directly under `dir`.
    pub fn is_under(&self, dir: &VPath) -> (r: bool)
        ensures
            r == (self@.len() > 0 && self@.drop_last() == dir@),
    {
        if self.parts.len() == 0 {
            return false;
        }
        let p = self.prefix(self.parts.len() - 1);
        assert(self@.drop_last() =~= self@.take(self@.len() - 1));
        p.same(dir)
    }
}

impl Clone for VPath {
    fn clone(&self) -> (p: VPath)
        ensures
            p@ == self@,
    {
        let p = self.prefix(self.parts.len());
        assert(self@.take(self@.len() as int) =~= self@);
        p
    }
}

/// An entry is under the directory that it was joined to, under its name, and prints as the directory
/// with a slash and the name behind it.
pub proof fn an_entry_is_under_its_directory(
    dir: &VPath,
    name: &str,
    p: VPath,
    under: bool,
    text: String,
    above: String,
)
    requires
        call_ensures(VPath::join, (dir, name), p),
        call_ensures(VPath::is_under, (&p, dir), under),
        call_ensures(VPath::to_text, (&p,), text),
        call_ensures(VPath::to_text, (dir,), above),
    ensures
        under,
        p@.last() == name@,
        dir@.len() > 0 ==> text@ == above@ + "/"@ + name@,
        dir@.len() == 0 ==> above@ == "/"@ && text@ == "/"@ + name@,
{
    assert(p@.drop_last() =~= dir@);
    if dir@.len() == 0 {
        assert(joined(dir@) =~= Seq::empty());
        assert(Seq::<char>::empty() + "/"@ =~= "/"@);
    }
}

/// A file is scratch exactly where its name is `.tmp.` with something, or nothing, behind it.
pub proof fn scratch_is_told_by_its_name(path: Seq<Seq<char>>, rest: Seq<char>)
    requires
        path.len() > 0,
    ensures
        path.last() == seq!['.', 't', 'm', 'p', '.'] + rest ==> is_scratch(path),
        is_scratch(path) ==> path.last() == seq!['.', 't', 'm', 'p', '.'] + path.last().skip(5),
{
    reveal_strlit(".tmp.");
    let mark = seq!['.', 't', 'm', 'p', '.'];
    assert(".tmp."@ =~= mark);
    assert((mark + rest).take(5) =~= mark);
    if is_scratch(path) {
        assert(path.last() =~= mark + path.last().skip(5));
    }
}

} // verus!
