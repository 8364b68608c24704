//! A naive reference model of what a page store means: maps of pages to bytes, copied whole.

use crate::ordmap::{compare_bytes, Order};
use crate::page::LogicalPageNo;
use crate::pagemap::entries;
use std::collections::BTreeMap;
use vstd::prelude::*;

verus! {

/// The state of a database: these pages hold these bytes.
pub type ModelState = BTreeMap<LogicalPageNo, Vec<u8>>;

/// The handle of a frozen state.
pub type ModelSnapshotId = u64;

/// A state as a map to byte strings.
pub open spec fn contents(s: ModelState) -> Map<u64, Seq<u8>> {
    s@.map_values(|v: Vec<u8>| v@)
}

/// What a map has at a key.
pub open spec fn value_at<T>(m: Map<u64, T>, k: u64) -> Option<T> {
    if m.contains_key(k) {
        Some(m[k])
    } else {
        None
    }
}

/// The frozen states, which every store shares.
#[derive(Debug, Clone)]
pub struct ModelSnapshots {
    states: BTreeMap<ModelSnapshotId, ModelState>,
    next_id: ModelSnapshotId,
}

impl View for ModelSnapshots {
    type V = Map<u64, Map<u64, Seq<u8>>>;

    closed spec fn view(&self) -> Map<u64, Map<u64, Seq<u8>>> {
        self.states@.map_values(|s: ModelState| contents(s))
    }
}

impl Default for ModelSnapshots {
    fn default() -> (t: ModelSnapshots)
        ensures
            t@ == Map::<u64, Map<u64, Seq<u8>>>::empty(),
            t.next() == 0,
            t.wf(),
    {
        broadcast use vstd::std_specs::btree::group_btree_axioms;

        let t = ModelSnapshots { states: BTreeMap::new(), next_id: 0 };
        assert(t@ =~= Map::empty());
        t
    }
}

impl ModelSnapshots {
    /// The next handle.
    pub closed spec fn next(&self) -> u64 {
        self.next_id
    }

    /// Handles are given out in turn.
    pub open spec fn wf(&self) -> bool {
        forall|id: u64| #[trigger] self@.contains_key(id) ==> id < self.next()
    }

    /// No snapshots.
    pub fn new() -> (t: ModelSnapshots)
        ensures
            t@ == Map::<u64, Map<u64, Seq<u8>>>::empty(),
            t.next() == 0,
            t.wf(),
    {
        ModelSnapshots::default()
    }

    /// Freezes a state. Every handle that was given out before still gives what it gave.
    pub fn take(&mut self, state: &ModelState) -> (id: ModelSnapshotId)
        requires
            old(self).wf(),
            old(self).next() < u64::MAX,
        ensures
            final(self).wf(),
            id == old(self).next(),
            final(self).next() == id + 1,
            !old(self)@.contains_key(id),
            final(self)@ == old(self)@.insert(id, contents(*state)),
    {
        broadcast use vstd::std_specs::btree::group_btree_axioms;

        let id: u64 = self.next_id;
        self.next_id = self.next_id + 1;
        self.states.insert(id, state.clone());
        assert(self@ =~= old(self)@.insert(id, contents(*state)));
        id
    }

    /// The state that a snapshot froze.
    pub fn get(&self, id: ModelSnapshotId) -> (r: Option<&ModelState>)
        ensures
            match r {
                Some(s) => value_at(self@, id) == Some(contents(*s)),
                None => !self@.contains_key(id),
            },
    {
        broadcast use vstd::std_specs::btree::group_btree_axioms;

        self.states.get(&id)
    }

    /// One page of a snapshot.
    pub fn read_at(&self, id: ModelSnapshotId, page_no: LogicalPageNo) -> (r: Option<&[u8]>)
        ensures
            match r {
                Some(b) => self@.contains_key(id) && value_at(self@[id], page_no) == Some(b@),
                None => !self@.contains_key(id) || !self@[id].contains_key(page_no),
            },
    {
        broadcast use vstd::std_specs::btree::group_btree_axioms;

        match self.states.get(&id) {
            Some(s) => match s.get(&page_no) {
                Some(v) => Some(v.as_slice()),
                None => None,
            },
            None => None,
        }
    }

    /// The pages that differ between two snapshots, in ascending order; none where a handle is
    /// unknown.
    pub fn diff(&self, a: ModelSnapshotId, b: ModelSnapshotId) -> (out: Vec<LogicalPageNo>)
        ensures
            forall|i: int, j: int| 0 <= i < j < out@.len() ==> out@[i] < out@[j],
            forall|k: u64| #[trigger]
                out@.contains(k) <==> self@.contains_key(a) && self@.contains_key(b) && value_at(
                    self@[a],
                    k,
                ) != value_at(self@[b], k),
    {
        broadcast use vstd::std_specs::btree::group_btree_axioms;

        let x = match self.states.get(&a) {
            Some(x) => x,
            None => {
                return Vec::new();
            },
        };
        let y = match self.states.get(&b) {
            Some(y) => y,
            None => {
                return Vec::new();
            },
        };
        let mut numbers: BTreeMap<u64, ()> = BTreeMap::new();
        add_keys(&mut numbers, x);
        add_keys(&mut numbers, y);
        let all = entries(&numbers);
        let mut out: Vec<u64> = Vec::new();
        let mut i: usize = 0;
        proof {
            crate::pagemap::lemma_map_of_keys(all@);
        }
        while i < all.len()
            invariant
                i <= all@.len(),
                crate::pagemap::increasing(all@),
                forall|p: int, q: int| 0 <= p < q < out@.len() ==> out@[p] < out@[q],
                forall|p: int| 0 <= p < out@.len() && i < all@.len() ==> #[trigger] out@[p] < all@[i as int].0,
                forall|k: u64| #[trigger]
                    out@.contains(k) <==> value_at(contents(*x), k) != value_at(contents(*y), k)
                        && exists|j: int| 0 <= j < i && (#[trigger] all@[j]).0 == k,
            decreases all@.len() - i,
        {
            let (k, _) = all[i];
            let ghost before = out@;
            let differs = !same_value(x.get(&k), y.get(&k));
            if differs {
                out.push(k);
            }
            proof {
                assert forall|n: u64| #[trigger] out@.contains(n) <==> value_at(contents(*x), n)
                    != value_at(contents(*y), n) && exists|j: int|
                    0 <= j < i + 1 && (#[trigger] all@[j]).0 == n by {
                    if out@.contains(n) {
                        let p = choose|p: int| 0 <= p < out@.len() && out@[p] == n;
                        if p < before.len() {
                            assert(before[p] == n);
                            assert(before.contains(n));
                        } else {
                            assert(all@[i as int].0 == n);
                        }
                    }
                    if value_at(contents(*x), n) != value_at(contents(*y), n) && exists|j: int|
                        0 <= j < i + 1 && (#[trigger] all@[j]).0 == n {
                        let j = choose|j: int| 0 <= j < i + 1 && (#[trigger] all@[j]).0 == n;
                        if j < i {
                            assert(before.contains(n));
                            let p = choose|p: int| 0 <= p < before.len() && before[p] == n;
                            assert(out@[p] == n);
                        } else {
                            assert(out@[out@.len() - 1] == n);
                        }
                    }
                }
            }
            i = i + 1;
        }
        proof {
            assert forall|k: u64| #[trigger] out@.contains(k) <==> self@.contains_key(a)
                && self@.contains_key(b) && value_at(self@[a], k) != value_at(self@[b], k) by {
                if value_at(contents(*x), k) != value_at(contents(*y), k) {
                    assert(numbers@.contains_key(k));
                    assert(crate::pagemap::map_of(all@).contains_key(k));
                }
            }
        }
        out
    }
}

/// Adds the page numbers of a state to a set of them.
pub(crate) fn add_keys(numbers: &mut BTreeMap<u64, ()>, s: &ModelState)
    ensures
        final(numbers)@.dom() == old(numbers)@.dom().union(s@.dom()),
{
    broadcast use vstd::std_specs::btree::group_btree_axioms;

    let iter = s.iter();
    let ghost v = vstd::std_specs::iter::IteratorSpec::remaining(&iter);
    for (k, _b) in it: iter
        invariant
            it.seq() == vstd::std_specs::iter::IteratorSpec::remaining(&s.iter()),
            forall|k: u64| #[trigger]
                numbers@.contains_key(k) <==> old(numbers)@.contains_key(k) || exists|i: int|
                    0 <= i < it.index() && *(#[trigger] it.seq()[i]).0 == k,
    {
        numbers.insert(*k, ());
    }
    proof {
        assert forall|k: u64| numbers@.dom().contains(k) <==> old(numbers)@.dom().union(
            s@.dom(),
        ).contains(k) by {
            assert(numbers@.contains_key(k) <==> numbers@.dom().contains(k));
            if s@.contains_key(k) {
                assert(v.contains((&k, &s@[k])));
                let i = choose|i: int| 0 <= i < v.len() && v[i] == (&k, &s@[k]);
                assert(*v[i].0 == k);
            }
        }
        assert(numbers@.dom() =~= old(numbers)@.dom().union(s@.dom()));
    }
}

fn same_value(a: Option<&Vec<u8>>, b: Option<&Vec<u8>>) -> (r: bool)
    ensures
        r == match (a, b) {
            (Some(x), Some(y)) => x@ == y@,
            (None, None) => true,
            _ => false,
        },
{
    match (a, b) {
        (Some(x), Some(y)) => match compare_bytes(x.as_slice(), y.as_slice()) {
            Order::Same => true,
            Order::Before => {
                proof {
                    crate::ordmap::lemma_before_irreflexive(x@, y@);
                }
                false
            },
            Order::After => {
                proof {
                    crate::ordmap::lemma_before_irreflexive(y@, x@);
                }
                false
            },
        },
        (None, None) => true,
        _ => false,
    }
}

/// A store as the model has it: a head, which is a map.
#[derive(Debug, Clone)]
pub struct ModelStore {
    head: ModelState,
}

impl View for ModelStore {
    type V = Map<u64, Seq<u8>>;

    closed spec fn view(&self) -> Map<u64, Seq<u8>> {
        contents(self.head)
    }
}

impl Default for ModelStore {
    fn default() -> (s: ModelStore)
        ensures
            s@ == Map::<u64, Seq<u8>>::empty(),
    {
        broadcast use vstd::std_specs::btree::group_btree_axioms;

        let s = ModelStore { head: BTreeMap::new() };
        assert(s@ =~= Map::empty());
        s
    }
}

impl ModelStore {
    /// An empty store.
    pub fn new() -> (s: ModelStore)
        ensures
            s@ == Map::<u64, Seq<u8>>::empty(),
    {
        ModelStore::default()
    }

    /// A store with a copy of a frozen state.
    pub fn forked_from(state: &ModelState) -> (s: ModelStore)
        ensures
            s@ == contents(*state),
    {
        ModelStore { head: state.clone() }
    }

    /// A copy of the store.
    pub(crate) fn clone_of(&self) -> (s: ModelStore)
        ensures
            s@ == self@,
    {
        ModelStore { head: self.head.clone() }
    }

    /// Writes a page.
    pub fn write(&mut self, page_no: LogicalPageNo, bytes: Vec<u8>)
        ensures
            final(self)@ == old(self)@.insert(page_no, bytes@),
    {
        broadcast use vstd::std_specs::btree::group_btree_axioms;

        self.head.insert(page_no, bytes);
        assert(self@ =~= old(self)@.insert(page_no, bytes@));
    }

    /// Removes a page.
    pub fn remove(&mut self, page_no: LogicalPageNo)
        ensures
            final(self)@ == old(self)@.remove(page_no),
    {
        broadcast use vstd::std_specs::btree::group_btree_axioms;

        self.head.remove(&page_no);
        assert(self@ =~= old(self)@.remove(page_no));
    }

    /// Moves the head onto a frozen state.
    pub fn rewind(&mut self, state: &ModelState)
        ensures
            final(self)@ == contents(*state),
    {
        self.head = state.clone();
    }

    /// Reads a page.
    pub fn read(&self, page_no: LogicalPageNo) -> (r: Option<&[u8]>)
        ensures
            match r {
                Some(b) => value_at(self@, page_no) == Some(b@),
                None => !self@.contains_key(page_no),
            },
    {
        broadcast use vstd::std_specs::btree::group_btree_axioms;

        match self.head.get(&page_no) {
            Some(v) => Some(v.as_slice()),
            None => None,
        }
    }

    /// The current state.
    pub fn head(&self) -> (s: &ModelState)
        ensures
            contents(*s) == self@,
    {
        &self.head
    }
}

} // verus!
