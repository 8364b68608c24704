//! Branch trees: named heads, which move, and tags, which do not.

use crate::codec::{
    deserialize_tree, lemma_tree_delimits, prefixed, refs_of, serialize_tree, storable_refs,
    wire_items, wire_ref_entry, wire_tree, RefsVec,
};
use crate::error::{Fault, PagerError};
use crate::manifest::ManifestId;
use crate::ordmap::{before, keys_ascend, lemma_before_irreflexive, Key, OrdMap};
use vstd::bytes::spec_u64_to_le_bytes;
use vstd::prelude::*;
use vstd::utf8::encode_utf8;

verus! {

/// The name of a branch or a tag.
pub type RefName = String;

/// Named manifests.
pub type Refs = Map<Seq<char>, ManifestId>;

/// The named heads and tags of one database.
#[derive(Debug, PartialEq, Eq)]
pub struct BranchTree {
    branches: OrdMap<String, ManifestId>,
    tags: OrdMap<String, ManifestId>,
}

/// `s` lists the names in order, with what they name.
pub open spec fn listed(s: Seq<(Seq<char>, ManifestId)>, m: Refs) -> bool {
    &&& forall|i: int, j: int|
        0 <= i < j < s.len() ==> before(
            encode_utf8((#[trigger] s[i]).0),
            encode_utf8((#[trigger] s[j]).0),
        )
    &&& forall|i: int|
        0 <= i < s.len() ==> m.contains_key((#[trigger] s[i]).0) && m[s[i].0] == s[i].1
    &&& forall|n: Seq<char>| #[trigger] m.contains_key(n) ==> has_name(s, n)
}

/// The list has the name.
pub open spec fn has_name(s: Seq<(Seq<char>, ManifestId)>, n: Seq<char>) -> bool {
    exists|i: int| 0 <= i < s.len() && (#[trigger] s[i]).0 == n
}

/// There is one way to list names in order.
pub proof fn lemma_listed_unique(
    a: Seq<(Seq<char>, ManifestId)>,
    b: Seq<(Seq<char>, ManifestId)>,
    m: Refs,
)
    requires
        listed(a, m),
        listed(b, m),
    ensures
        a == b,
    decreases a.len(),
{
    if a.len() == 0 {
        if b.len() > 0 {
            assert(m.contains_key(b[0].0));
            assert(has_name(a, b[0].0));
        }
        assert(a =~= b);
    } else {
        let (x, y) = (a.last(), b.last());
        assert(m.contains_key(a[a.len() - 1].0));
        assert(has_name(b, x.0));
        let i = choose|i: int| 0 <= i < b.len() && (#[trigger] b[i]).0 == x.0;
        assert(m.contains_key(b[b.len() - 1].0));
        assert(has_name(a, y.0));
        let j = choose|j: int| 0 <= j < a.len() && (#[trigger] a[j]).0 == y.0;
        if i < b.len() - 1 {
            assert(before(encode_utf8(b[i].0), encode_utf8(b[b.len() - 1].0)));
            if j < a.len() - 1 {
                assert(before(encode_utf8(a[j].0), encode_utf8(a[a.len() - 1].0)));
                lemma_before_irreflexive(encode_utf8(x.0), encode_utf8(y.0));
            } else {
                lemma_before_irreflexive(encode_utf8(x.0), encode_utf8(y.0));
            }
            assert(false);
        }
        assert(x.0 == y.0);
        assert(a[a.len() - 1].1 == b[b.len() - 1].1);
        let n = m.remove(x.0);
        let (c, d) = (a.drop_last(), b.drop_last());
        lemma_listed_less(a, m);
        lemma_listed_less(b, m);
        lemma_listed_unique(c, d, n);
        assert(a =~= c.push(x));
        assert(b =~= d.push(y));
    }
}

proof fn lemma_listed_less(a: Seq<(Seq<char>, ManifestId)>, m: Refs)
    requires
        listed(a, m),
        a.len() > 0,
    ensures
        listed(a.drop_last(), m.remove(a.last().0)),
{
    let c = a.drop_last();
    let x = a.last();
    let n = m.remove(x.0);
    assert forall|i: int| 0 <= i < c.len() implies n.contains_key((#[trigger] c[i]).0) && n[c[i].0]
        == c[i].1 by {
        assert(c[i] == a[i]);
        assert(before(encode_utf8(a[i].0), encode_utf8(a[a.len() - 1].0)));
        lemma_before_irreflexive(encode_utf8(a[i].0), encode_utf8(x.0));
    }
    assert forall|k: Seq<char>| #[trigger] n.contains_key(k) implies has_name(c, k) by {
        assert(has_name(a, k));
        let i = choose|i: int| 0 <= i < a.len() && (#[trigger] a[i]).0 == k;
        assert(c[i].0 == k);
    }
    assert forall|i: int, j: int| 0 <= i < j < c.len() implies before(
        encode_utf8((#[trigger] c[i]).0),
        encode_utf8((#[trigger] c[j]).0),
    ) by {
        assert(c[i] == a[i] && c[j] == a[j]);
    }
}

/// The list, with the ids as bytes.
pub open spec fn raw_refs(s: Seq<(Seq<char>, ManifestId)>) -> Seq<(Seq<char>, [u8; 32])> {
    s.map_values(|e: (Seq<char>, ManifestId)| (e.0, e.1.0))
}

/// The names and ids that stored refs amount to: of two entries with one name the later counts.
pub open spec fn refs_map(s: Seq<(Seq<char>, [u8; 32])>) -> Refs
    decreases s.len(),
{
    if s.len() == 0 {
        Map::empty()
    } else {
        refs_map(s.drop_last()).insert(s.last().0, ManifestId(s.last().1))
    }
}

/// Stored, and read back, a list is the map that it lists.
proof fn lemma_refs_map(s: Seq<(Seq<char>, ManifestId)>, m: Refs)
    requires
        listed(s, m),
    ensures
        refs_map(raw_refs(s)) == m,
    decreases s.len(),
{
    if s.len() == 0 {
        assert forall|n: Seq<char>| !m.contains_key(n) by {
            if m.contains_key(n) {
                assert(has_name(s, n));
            }
        }
        assert(refs_map(raw_refs(s)) =~= m);
    } else {
        lemma_listed_less(s, m);
        lemma_refs_map(s.drop_last(), m.remove(s.last().0));
        assert(raw_refs(s).drop_last() =~= raw_refs(s.drop_last()));
        assert(m.contains_key(s[s.len() - 1].0));
        assert(refs_map(raw_refs(s)) =~= m);
    }
}

/// A list of names and ids, as characters.
pub open spec fn pairs_of(v: Seq<(String, ManifestId)>) -> Seq<(Seq<char>, ManifestId)> {
    v.map_values(|e: (String, ManifestId)| (e.0@, e.1))
}

fn list_of(m: &OrdMap<String, ManifestId>) -> (out: Vec<(String, ManifestId)>)
    ensures
        listed(pairs_of(out@), m@),
{
    let keys = m.keys();
    let mut out: Vec<(String, ManifestId)> = Vec::new();
    let mut i: usize = 0;
    while i < keys.len()
        invariant
            i <= keys@.len(),
            out@.len() == i,
            keys_ascend(keys@),
            forall|k: int| 0 <= k < keys@.len() ==> m@.contains_key((#[trigger] keys@[k]).ident()),
            forall|n: Seq<char>| #[trigger]
                m@.contains_key(n) ==> exists|k: int|
                    0 <= k < keys@.len() && (#[trigger] keys@[k]).ident() == n,
            forall|k: int|
                0 <= k < i ==> (#[trigger] out@[k]).0@ == keys@[k]@ && out@[k].1 == m@[keys@[k]@],
        decreases keys@.len() - i,
    {
        if let Some(id) = m.get(&keys[i]) {
            out.push((keys[i].clone(), *id));
        } else {
            proof {
                assert(m@.contains_key(keys@[i as int].ident()));
                assert(false);
            }
        }
        i = i + 1;
    }
    proof {
        let s = pairs_of(out@);
        assert forall|a: int, b: int| 0 <= a < b < s.len() implies before(
            encode_utf8((#[trigger] s[a]).0),
            encode_utf8((#[trigger] s[b]).0),
        ) by {
            assert(s[a].0 == keys@[a].ident() && s[b].0 == keys@[b].ident());
        }
        assert forall|a: int| 0 <= a < s.len() implies m@.contains_key((#[trigger] s[a]).0)
            && m@[s[a].0] == s[a].1 by {
            assert(s[a].0 == keys@[a].ident());
        }
        assert forall|n: Seq<char>| #[trigger] m@.contains_key(n) implies has_name(s, n) by {
            let k = choose|k: int| 0 <= k < keys@.len() && (#[trigger] keys@[k]).ident() == n;
            assert(s[k].0 == n);
        }
    }
    out
}

fn raw_list(m: &OrdMap<String, ManifestId>) -> (out: RefsVec)
    ensures
        exists|s: Seq<(Seq<char>, ManifestId)>|
            listed(s, m@) && refs_of(out) == #[trigger] raw_refs(s),
        storable_refs(refs_of(out)),
{
    let list = list_of(m);
    let ghost s = pairs_of(list@);
    let mut out: RefsVec = Vec::new();
    let mut i: usize = 0;
    while i < list.len()
        invariant
            i <= list@.len(),
            out@.len() == i,
            s == pairs_of(list@),
            forall|k: int|
                0 <= k < i ==> (#[trigger] out@[k]).0@ == s[k].0 && out@[k].1 == s[k].1.0
                    && encode_utf8(out@[k].0@).len() <= usize::MAX,
        decreases list@.len() - i,
    {
        let name = list[i].0.clone();
        let n: usize = name.as_str().as_bytes().len();
        assert(n == encode_utf8(name@).len());
        assert(s[i as int] == (list@[i as int].0@, list@[i as int].1));
        out.push((name, list[i].1.0));
        i = i + 1;
    }
    proof {
        assert(refs_of(out) =~= raw_refs(s));
        assert(storable_refs(refs_of(out)));
    }
    out
}

fn map_from(v: &RefsVec) -> (m: OrdMap<String, ManifestId>)
    ensures
        m@ == refs_map(refs_of(*v)),
{
    let mut m: OrdMap<String, ManifestId> = OrdMap::new();
    let ghost all = refs_of(*v);
    let mut i: usize = 0;
    assert(all.take(0) =~= Seq::empty());
    while i < v.len()
        invariant
            i <= v@.len(),
            all == refs_of(*v),
            m@ == refs_map(all.take(i as int)),
        decreases v@.len() - i,
    {
        m.insert(v[i].0.clone(), ManifestId(v[i].1));
        proof {
            assert(all.take(i + 1).drop_last() =~= all.take(i as int));
            assert(all.take(i + 1).last() == all[i as int]);
        }
        i = i + 1;
    }
    assert(all.take(i as int) =~= all);
    m
}

impl BranchTree {
    /// The branches, by name.
    pub closed spec fn spec_branches(&self) -> Refs {
        self.branches@
    }

    /// The tags, by name.
    pub closed spec fn spec_tags(&self) -> Refs {
        self.tags@
    }

    /// An empty tree.
    pub fn new() -> (t: BranchTree)
        ensures
            t.spec_branches() == Map::<Seq<char>, ManifestId>::empty(),
            t.spec_tags() == Map::<Seq<char>, ManifestId>::empty(),
    {
        BranchTree { branches: OrdMap::new(), tags: OrdMap::new() }
    }

    /// A tree with one branch.
    pub fn rooted(branch: &str, at: ManifestId) -> (t: BranchTree)
        ensures
            t.spec_branches() == Map::<Seq<char>, ManifestId>::empty().insert(branch@, at),
            t.spec_tags() == Map::<Seq<char>, ManifestId>::empty(),
    {
        let mut t = BranchTree::new();
        t.branches.insert(branch.to_owned(), at);
        t
    }

    /// Where a branch points.
    pub fn head(&self, branch: &str) -> (r: Option<ManifestId>)
        ensures
            r == (if self.spec_branches().contains_key(branch@) {
                Some(self.spec_branches()[branch@])
            } else {
                None
            }),
    {
        match self.branches.get(&branch.to_owned()) {
            Some(id) => Some(*id),
            None => None,
        }
    }

    /// What a tag names.
    pub fn tagged(&self, tag: &str) -> (r: Option<ManifestId>)
        ensures
            r == (if self.spec_tags().contains_key(tag@) {
                Some(self.spec_tags()[tag@])
            } else {
                None
            }),
    {
        match self.tags.get(&tag.to_owned()) {
            Some(id) => Some(*id),
            None => None,
        }
    }

    /// Every branch, in order of name.
    pub fn branches(&self) -> (out: Vec<(String, ManifestId)>)
        ensures
            listed(pairs_of(out@), self.spec_branches()),
    {
        list_of(&self.branches)
    }

    /// Every tag, in order of name.
    pub fn tags(&self) -> (out: Vec<(String, ManifestId)>)
        ensures
            listed(pairs_of(out@), self.spec_tags()),
    {
        list_of(&self.tags)
    }

    /// Creates a branch. A name that is taken is refused.
    pub fn branch(&mut self, name: &str, at: ManifestId) -> (r: Result<(), PagerError>)
        ensures
            final(self).spec_tags() == old(self).spec_tags(),
            match r {
                Ok(()) => !old(self).spec_branches().contains_key(name@) && final(
                    self).spec_branches() == old(self).spec_branches().insert(name@, at),
                Err(e) => old(self).spec_branches().contains_key(name@) && final(
                    self).spec_branches() == old(self).spec_branches() && e@ == (Fault::RefExists {
                    kind: "branch"@,
                    name: name@,
                }),
            },
    {
        let name = name.to_owned();
        if self.branches.contains(&name) {
            return Err(PagerError::RefExists { kind: "branch", name });
        }
        self.branches.insert(name, at);
        Ok(())
    }

    /// Moves a branch, and gives back where it was.
    pub fn set_head(&mut self, branch: &str, to: ManifestId) -> (r: Result<ManifestId, PagerError>)
        ensures
            final(self).spec_tags() == old(self).spec_tags(),
            match r {
                Ok(previous) => old(self).spec_branches().contains_key(branch@) && previous == old(
                    self).spec_branches()[branch@] && final(self).spec_branches() == old(
                    self).spec_branches().insert(branch@, to),
                Err(e) => !old(self).spec_branches().contains_key(branch@) && final(
                    self).spec_branches() == old(self).spec_branches() && e@ == (Fault::NoSuchRef {
                    kind: "branch"@,
                    name: branch@,
                }),
            },
    {
        match self.head(branch) {
            Some(previous) => {
                self.branches.insert(branch.to_owned(), to);
                Ok(previous)
            },
            None => Err(PagerError::NoSuchRef { kind: "branch", name: branch.to_owned() }),
        }
    }

    /// Deletes a branch, and gives back where it was.
    pub fn delete_branch(&mut self, branch: &str) -> (r: Result<ManifestId, PagerError>)
        ensures
            final(self).spec_tags() == old(self).spec_tags(),
            match r {
                Ok(previous) => old(self).spec_branches().contains_key(branch@) && previous == old(
                    self).spec_branches()[branch@] && final(self).spec_branches() == old(
                    self).spec_branches().remove(branch@),
                Err(e) => !old(self).spec_branches().contains_key(branch@) && final(
                    self).spec_branches() == old(self).spec_branches() && e@ == (Fault::NoSuchRef {
                    kind: "branch"@,
                    name: branch@,
                }),
            },
    {
        match self.head(branch) {
            Some(previous) => {
                self.branches.remove(&branch.to_owned());
                Ok(previous)
            },
            None => Err(PagerError::NoSuchRef { kind: "branch", name: branch.to_owned() }),
        }
    }

    /// Names a state for good. Naming the same state again changes nothing; naming another one is
    /// refused.
    pub fn tag(&mut self, name: &str, at: ManifestId) -> (r: Result<(), PagerError>)
        ensures
            final(self).spec_branches() == old(self).spec_branches(),
            match r {
                Ok(()) => (!old(self).spec_tags().contains_key(name@) || old(
                    self).spec_tags()[name@] == at) && final(self).spec_tags() == old(
                    self).spec_tags().insert(name@, at),
                Err(e) => old(self).spec_tags().contains_key(name@) && old(self).spec_tags()[name@]
                    != at && final(self).spec_tags() == old(self).spec_tags() && e@
                    == (Fault::RefExists { kind: "tag"@, name: name@ }),
            },
    {
        match self.tagged(name) {
            Some(existing) => {
                if existing == at {
                    assert(self.tags@.insert(name@, at) =~= self.tags@);
                    return Ok(());
                }
                Err(PagerError::RefExists { kind: "tag", name: name.to_owned() })
            },
            None => {
                self.tags.insert(name.to_owned(), at);
                Ok(())
            },
        }
    }

    /// Moves a tag all the same, and gives back what it named.
    pub fn retag(&mut self, name: &str, at: ManifestId) -> (r: Option<ManifestId>)
        ensures
            final(self).spec_branches() == old(self).spec_branches(),
            final(self).spec_tags() == old(self).spec_tags().insert(name@, at),
            r == (if old(self).spec_tags().contains_key(name@) {
                Some(old(self).spec_tags()[name@])
            } else {
                None
            }),
    {
        let previous = self.tagged(name);
        self.tags.insert(name.to_owned(), at);
        previous
    }

    /// Every manifest that a branch or a tag points at, in order and once each: what a collection
    /// starts from.
    pub fn roots(&self) -> (out: Vec<ManifestId>)
        ensures
            keys_ascend(out@),
            out@.no_duplicates(),
            forall|id: ManifestId| #[trigger]
                out@.contains(id) <==> self.spec_branches().contains_value(id)
                    || self.spec_tags().contains_value(id),
    {
        let mut set: OrdMap<ManifestId, ()> = OrdMap::new();
        add_targets(&mut set, &self.branches);
        add_targets(&mut set, &self.tags);
        let out = set.keys();
        proof {
            assert forall|id: ManifestId| #[trigger] out@.contains(id) <==> set@.contains_key(
                id,
            ) by {
                if set@.contains_key(id) {
                    let k = choose|k: int| 0 <= k < out@.len() && (#[trigger] out@[k]).ident() == id;
                    assert(out@[k] == id);
                }
                if out@.contains(id) {
                    let k = choose|k: int| 0 <= k < out@.len() && out@[k] == id;
                    assert(out@[k].ident() == id);
                }
            }
            assert forall|i: int, j: int| 0 <= i < out@.len() && 0 <= j < out@.len() && i
                != j implies out@[i] != out@[j] by {
                assert(out@[i].ident() != out@[j].ident());
            }
        }
        out
    }

    /// How many branches there are.
    pub fn len(&self) -> (n: usize)
        ensures
            n == self.spec_branches().dom().len(),
    {
        self.branches.len()
    }

    /// Whether there are no branches.
    pub fn is_empty(&self) -> (r: bool)
        ensures
            r == (self.spec_branches().dom().len() == 0),
    {
        self.branches.len() == 0
    }

    /// The stored form.
    pub fn encode(&self) -> (r: Result<Vec<u8>, PagerError>)
        ensures
            r is Ok,
            stored_as(r->Ok_0@, self.spec_branches(), self.spec_tags()),
    {
        let branches = raw_list(&self.branches);
        let tags = raw_list(&self.tags);
        let ghost (b, t) = (refs_of(branches), refs_of(tags));
        match serialize_tree(&(branches, tags)) {
            Ok(bytes) => {
                proof {
                    let s = choose|s: Seq<(Seq<char>, ManifestId)>|
                        listed(s, self.branches@) && b == #[trigger] raw_refs(s);
                    let u = choose|u: Seq<(Seq<char>, ManifestId)>|
                        listed(u, self.tags@) && t == #[trigger] raw_refs(u);
                    assert(is_stored(bytes@, s, u, self.branches@, self.tags@));
                }
                Ok(bytes)
            },
            Err(source) => Err(PagerError::Codec { op: "encode", source }),
        }
    }

    /// Reads the stored form back.
    pub fn decode(bytes: &[u8]) -> (r: Result<BranchTree, PagerError>)
        ensures
            match r {
                Ok(t) => reads_as(bytes@, t.spec_branches(), t.spec_tags()),
                Err(e) => e@ == (Fault::Codec { op: "decode"@ }) && is_no_tree(bytes@) && forall|
                    b: Refs,
                    t: Refs,
                | !(#[trigger] reads_as(bytes@, b, t)),
            },
    {
        match deserialize_tree(bytes) {
            Ok((branches, tags)) => {
                let t = BranchTree { branches: map_from(&branches), tags: map_from(&tags) };
                proof {
                    assert(is_read(
                        bytes@,
                        refs_of(branches),
                        refs_of(tags),
                        t.branches@,
                        t.tags@,
                    ));
                }
                Ok(t)
            },
            Err(source) => Err(PagerError::Codec { op: "decode", source }),
        }
    }
}

impl Clone for BranchTree {
    fn clone(&self) -> (t: BranchTree)
        ensures
            t.spec_branches() == self.spec_branches(),
            t.spec_tags() == self.spec_tags(),
    {
        BranchTree { branches: self.branches.clone(), tags: self.tags.clone() }
    }
}

impl Default for BranchTree {
    fn default() -> (t: BranchTree)
        ensures
            t.spec_branches() == Map::<Seq<char>, ManifestId>::empty(),
            t.spec_tags() == Map::<Seq<char>, ManifestId>::empty(),
    {
        BranchTree::new()
    }
}

fn add_targets(set: &mut OrdMap<ManifestId, ()>, refs: &OrdMap<String, ManifestId>)
    ensures
        forall|id: ManifestId| #[trigger]
            final(set)@.contains_key(id) <==> old(set)@.contains_key(id) || refs@.contains_value(id),
{
    let list = list_of(refs);
    let ghost s = pairs_of(list@);
    let mut i: usize = 0;
    while i < list.len()
        invariant
            i <= list@.len(),
            s == pairs_of(list@),
            forall|id: ManifestId| #[trigger]
                set@.contains_key(id) <==> old(set)@.contains_key(id) || names_one(s, i as int, id),
        decreases list@.len() - i,
    {
        let ghost was = set@;
        set.insert(list[i].1, ());
        proof {
            assert(s[i as int].1 == list@[i as int].1);
            assert forall|id: ManifestId| names_one(s, i + 1, id) == (names_one(s, i as int, id)
                || id == s[i as int].1) by {
                if names_one(s, i as int, id) {
                    let k = choose|k: int| 0 <= k < i && (#[trigger] s[k]).1 == id;
                    assert(names_one(s, i + 1, id));
                }
                if names_one(s, i + 1, id) {
                    let k = choose|k: int| 0 <= k < i + 1 && (#[trigger] s[k]).1 == id;
                    assert(k < i ==> names_one(s, i as int, id));
                }
            }
        }
        i = i + 1;
    }
    proof {
        assert forall|id: ManifestId| names_one(s, i as int, id) == refs@.contains_value(id) by {
            if names_one(s, i as int, id) {
                let k = choose|k: int| 0 <= k < i && (#[trigger] s[k]).1 == id;
                assert(refs@.contains_key(s[k].0) && refs@[s[k].0] == id);
            }
            if refs@.contains_value(id) {
                let n = choose|n: Seq<char>| refs@.contains_key(n) && refs@[n] == id;
                assert(has_name(s, n));
                let k = choose|k: int| 0 <= k < s.len() && (#[trigger] s[k]).0 == n;
                assert(s[k].1 == id);
            }
        }
    }
}

/// One of the first `i` entries names the manifest.
spec fn names_one(s: Seq<(Seq<char>, ManifestId)>, i: int, id: ManifestId) -> bool {
    exists|k: int| 0 <= k < i && (#[trigger] s[k]).1 == id
}

/// The bytes are the stored form of these branches and tags.
pub open spec fn stored_as(bytes: Seq<u8>, branches: Refs, tags: Refs) -> bool {
    exists|s: Seq<(Seq<char>, ManifestId)>, u: Seq<(Seq<char>, ManifestId)>|
        is_stored(bytes, s, u, branches, tags)
}

/// The same, by these lists.
pub open spec fn is_stored(
    bytes: Seq<u8>,
    s: Seq<(Seq<char>, ManifestId)>,
    u: Seq<(Seq<char>, ManifestId)>,
    branches: Refs,
    tags: Refs,
) -> bool {
    &&& listed(s, branches)
    &&& listed(u, tags)
    &&& storable_refs(raw_refs(s))
    &&& storable_refs(raw_refs(u))
    &&& bytes == wire_tree(raw_refs(s), raw_refs(u))
}

/// The bytes begin with stored refs that amount to these branches and tags.
pub open spec fn reads_as(bytes: Seq<u8>, branches: Refs, tags: Refs) -> bool {
    exists|b: Seq<(Seq<char>, [u8; 32])>, t: Seq<(Seq<char>, [u8; 32])>|
        is_read(bytes, b, t, branches, tags)
}

/// The same, by these lists.
pub open spec fn is_read(
    bytes: Seq<u8>,
    b: Seq<(Seq<char>, [u8; 32])>,
    t: Seq<(Seq<char>, [u8; 32])>,
    branches: Refs,
    tags: Refs,
) -> bool {
    &&& storable_refs(b)
    &&& storable_refs(t)
    &&& prefixed(bytes, wire_tree(b, t))
    &&& branches == refs_map(b)
    &&& tags == refs_map(t)
}

/// The bytes begin with no stored refs.
pub open spec fn is_no_tree(bytes: Seq<u8>) -> bool {
    forall|b: Refs, t: Refs| !(#[trigger] reads_as(bytes, b, t))
}

/// What was stored reads back, as that and nothing else; and a tree has one stored form.
pub proof fn a_stored_tree_reads_back(
    bytes: Seq<u8>,
    other: Seq<u8>,
    branches: Refs,
    tags: Refs,
    b: Refs,
    t: Refs,
)
    requires
        stored_as(bytes, branches, tags),
    ensures
        reads_as(bytes, branches, tags),
        reads_as(bytes, b, t) ==> b == branches && t == tags,
        stored_as(other, branches, tags) ==> other == bytes,
{
    let (s, u) = choose|s: Seq<(Seq<char>, ManifestId)>, u: Seq<(Seq<char>, ManifestId)>|
        is_stored(bytes, s, u, branches, tags);
    lemma_refs_map(s, branches);
    lemma_refs_map(u, tags);
    assert(prefixed(bytes, bytes)) by {
        assert(bytes.take(bytes.len() as int) =~= bytes);
    }
    assert(is_read(bytes, raw_refs(s), raw_refs(u), branches, tags));
    if reads_as(bytes, b, t) {
        let (x, y) = choose|x: Seq<(Seq<char>, [u8; 32])>, y: Seq<(Seq<char>, [u8; 32])>|
            is_read(bytes, x, y, b, t);
        lemma_tree_delimits(bytes, raw_refs(s), raw_refs(u), x, y);
    }
    if stored_as(other, branches, tags) {
        let (v, w) = choose|v: Seq<(Seq<char>, ManifestId)>, w: Seq<(Seq<char>, ManifestId)>|
            is_stored(other, v, w, branches, tags);
        lemma_listed_unique(s, v, branches);
        lemma_listed_unique(u, w, tags);
    }
}

/// Every branch is listed, once, with what it points at, and the names go up byte by byte.
pub proof fn branches_are_listed_in_order(
    t: &BranchTree,
    out: Vec<(String, ManifestId)>,
    n: Seq<char>,
)
    requires
        call_ensures(BranchTree::branches, (t,), out),
    ensures
        t.spec_branches().contains_key(n) <==> exists|i: int|
            0 <= i < out@.len() && (#[trigger] out@[i]).0@ == n,
        forall|i: int|
            0 <= i < out@.len() ==> t.spec_branches().get((#[trigger] out@[i]).0@) == Some(
                out@[i].1,
            ),
        forall|i: int, j: int|
            0 <= i < j < out@.len() ==> before(
                encode_utf8((#[trigger] out@[i]).0@),
                encode_utf8((#[trigger] out@[j]).0@),
            ),
{
    let s = pairs_of(out@);
    assert forall|i: int| 0 <= i < out@.len() implies t.spec_branches().get(
        (#[trigger] out@[i]).0@,
    ) == Some(out@[i].1) by {
        assert(s[i] == (out@[i].0@, out@[i].1));
        assert(t.spec_branches().contains_key(s[i].0));
    }
    assert forall|i: int, j: int| 0 <= i < j < out@.len() implies before(
        encode_utf8((#[trigger] out@[i]).0@),
        encode_utf8((#[trigger] out@[j]).0@),
    ) by {
        assert(s[i].0 == out@[i].0@ && s[j].0 == out@[j].0@);
        assert(before(encode_utf8(s[i].0), encode_utf8(s[j].0)));
    }
    if t.spec_branches().contains_key(n) {
        assert(has_name(s, n));
        let i = choose|i: int| 0 <= i < s.len() && (#[trigger] s[i]).0 == n;
        assert(out@[i].0@ == n);
    }
}

/// A tree that was stored and is read again has the same branches and the same tags.
pub proof fn a_tree_survives_being_stored(
    t: &BranchTree,
    stored: Result<Vec<u8>, PagerError>,
    bytes: &[u8],
    r: Result<BranchTree, PagerError>,
)
    requires
        call_ensures(BranchTree::encode, (t,), stored),
        stored is Ok ==> bytes@ == stored->Ok_0@,
        call_ensures(BranchTree::decode, (bytes,), r),
    ensures
        stored is Ok,
        r is Ok,
        r->Ok_0.spec_branches() == t.spec_branches(),
        r->Ok_0.spec_tags() == t.spec_tags(),
{
    let (b, g) = (t.spec_branches(), t.spec_tags());
    a_stored_tree_reads_back(bytes@, bytes@, b, g, b, g);
    assert(reads_as(bytes@, b, g));
    if r is Ok {
        let u = r->Ok_0;
        assert(reads_as(bytes@, u.spec_branches(), u.spec_tags()));
        a_stored_tree_reads_back(bytes@, bytes@, b, g, u.spec_branches(), u.spec_tags());
    } else {
        assert(is_no_tree(bytes@));
    }
}

/// A tree gives for a name what the name stands for; its roots are what some branch or some tag stands
/// for; and it has as many branches as it lists.
pub proof fn a_tree_leads_to_what_it_names(
    t: &BranchTree,
    name: &str,
    head: Option<ManifestId>,
    tag: Option<ManifestId>,
    roots: Vec<ManifestId>,
    x: ManifestId,
    n: usize,
    empty: bool,
)
    requires
        call_ensures(BranchTree::head, (t, name), head),
        call_ensures(BranchTree::tagged, (t, name), tag),
        call_ensures(BranchTree::roots, (t,), roots),
        call_ensures(BranchTree::len, (t,), n),
        call_ensures(BranchTree::is_empty, (t,), empty),
    ensures
        head == t.spec_branches().get(name@),
        tag == t.spec_tags().get(name@),
        head is Some ==> roots@.contains(head.unwrap()),
        tag is Some ==> roots@.contains(tag.unwrap()),
        roots@.contains(x) ==> exists|s: Seq<char>|
            #![trigger t.spec_branches().get(s)]
            #![trigger t.spec_tags().get(s)]
            t.spec_branches().get(s) == Some(x) || t.spec_tags().get(s) == Some(x),
        roots@.no_duplicates(),
        n == t.spec_branches().dom().len() && (empty <==> n == 0),
{
    let (b, g) = (t.spec_branches(), t.spec_tags());
    if head is Some {
        assert(b.contains_value(head.unwrap()));
    }
    if tag is Some {
        assert(g.contains_value(tag.unwrap()));
    }
    if roots@.contains(x) {
        if b.contains_value(x) {
            let s = choose|s: Seq<char>| #[trigger] b.dom().contains(s) && b[s] == x;
            assert(b.get(s) == Some(x));
        } else {
            let s = choose|s: Seq<char>| #[trigger] g.dom().contains(s) && g[s] == x;
            assert(g.get(s) == Some(x));
        }
    }
}

/// A tree is stored as its branches and then its tags, each in the order of their names: how many there
/// are, and of each the length of the name, the name and the id; numbers with the lowest byte first.
pub proof fn a_tree_is_stored_name_by_name(
    t: &BranchTree,
    stored: Result<Vec<u8>, PagerError>,
    branches: Vec<(String, ManifestId)>,
    tags: Vec<(String, ManifestId)>,
)
    requires
        call_ensures(BranchTree::encode, (t,), stored),
        call_ensures(BranchTree::branches, (t,), branches),
        call_ensures(BranchTree::tags, (t,), tags),
    ensures
        stored is Ok,
        stored->Ok_0@ == spec_u64_to_le_bytes(branches@.len() as u64) + name_bytes(
            pairs_of(branches@),
        ) + (spec_u64_to_le_bytes(tags@.len() as u64) + name_bytes(pairs_of(tags@))),
{
    let (b, g) = (t.spec_branches(), t.spec_tags());
    let bytes = stored->Ok_0@;
    assert(stored_as(bytes, b, g));
    let (s, u) = choose|s: Seq<(Seq<char>, ManifestId)>, u: Seq<(Seq<char>, ManifestId)>|
        is_stored(bytes, s, u, b, g);
    lemma_listed_unique(s, pairs_of(branches@), b);
    lemma_listed_unique(u, pairs_of(tags@), g);
    lemma_name_bytes(s);
    lemma_name_bytes(u);
}

/// Names one after the other: the length, the name, and the id.
pub open spec fn name_bytes(s: Seq<(Seq<char>, ManifestId)>) -> Seq<u8>
    decreases s.len(),
{
    if s.len() == 0 {
        Seq::empty()
    } else {
        spec_u64_to_le_bytes(encode_utf8(s[0].0).len() as u64) + encode_utf8(s[0].0) + s[0].1.0@
            + name_bytes(s.skip(1))
    }
}

proof fn lemma_name_bytes(s: Seq<(Seq<char>, ManifestId)>)
    ensures
        wire_items(raw_refs(s), wire_ref_entry()) == name_bytes(s),
    decreases s.len(),
{
    let w = raw_refs(s);
    if s.len() > 0 {
        assert(w.skip(1) =~= raw_refs(s.skip(1)));
        assert(w[0] == (s[0].0, s[0].1.0));
        lemma_name_bytes(s.skip(1));
    }
}

} // verus!
