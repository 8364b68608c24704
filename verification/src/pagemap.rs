//! Maps keyed by logical page number, and the one order in which their entries are listed.

use std::collections::BTreeMap;
use vstd::prelude::*;

verus! {

/// The keys go strictly up.
pub open spec fn increasing<V>(s: Seq<(u64, V)>) -> bool {
    forall|i: int, j: int| 0 <= i < j < s.len() ==> (#[trigger] s[i]).0 < (#[trigger] s[j]).0
}

/// The map that inserting these entries one after the other builds: the last one wins.
pub open spec fn map_of<V>(s: Seq<(u64, V)>) -> Map<u64, V>
    decreases s.len(),
{
    if s.len() == 0 {
        Map::empty()
    } else {
        map_of(s.drop_last()).insert(s.last().0, s.last().1)
    }
}

/// The entries of a map in ascending order of key.
pub open spec fn entries_of<V>(m: Map<u64, V>) -> Seq<(u64, V)> {
    choose|s: Seq<(u64, V)>| increasing(s) && map_of(s) == m
}

/// A key is in the map exactly when some entry has it.
pub proof fn lemma_map_of_keys<V>(s: Seq<(u64, V)>)
    ensures
        map_of(s).dom().finite(),
        forall|k: u64| #[trigger]
            map_of(s).contains_key(k) <==> exists|i: int| 0 <= i < s.len() && (#[trigger] s[i]).0 == k,
    decreases s.len(),
{
    if s.len() > 0 {
        let t = s.drop_last();
        lemma_map_of_keys(t);
        assert forall|k: u64| #[trigger] map_of(s).contains_key(k) <==> exists|i: int|
            0 <= i < s.len() && (#[trigger] s[i]).0 == k by {
            if map_of(s).contains_key(k) {
                if k == s.last().0 {
                    assert(s[s.len() - 1].0 == k);
                } else {
                    let i = choose|i: int| 0 <= i < t.len() && (#[trigger] t[i]).0 == k;
                    assert(s[i].0 == k);
                }
            }
            if exists|i: int| 0 <= i < s.len() && (#[trigger] s[i]).0 == k {
                let i = choose|i: int| 0 <= i < s.len() && (#[trigger] s[i]).0 == k;
                if i < t.len() {
                    assert(t[i].0 == k);
                }
            }
        }
    }
}

/// Where the keys go up, each entry is what the map holds at its key.
pub proof fn lemma_map_of_increasing<V>(s: Seq<(u64, V)>)
    requires
        increasing(s),
    ensures
        forall|i: int|
            0 <= i < s.len() ==> map_of(s).contains_key((#[trigger] s[i]).0) && map_of(s)[s[i].0]
                == s[i].1,
        map_of(s).dom().len() == s.len(),
    decreases s.len(),
{
    if s.len() > 0 {
        let t = s.drop_last();
        lemma_map_of_increasing(t);
        lemma_map_of_keys(t);
        lemma_map_of_keys(s);
        assert forall|i: int| 0 <= i < s.len() implies map_of(s).contains_key((#[trigger] s[i]).0)
            && map_of(s)[s[i].0] == s[i].1 by {
            if i < t.len() {
                assert(t[i] == s[i]);
                assert(s[i].0 < s[s.len() - 1].0);
            }
        }
        assert(!map_of(t).contains_key(s.last().0)) by {
            if map_of(t).contains_key(s.last().0) {
                let i = choose|i: int| 0 <= i < t.len() && (#[trigger] t[i]).0 == s.last().0;
                assert(s[i].0 < s[s.len() - 1].0);
            }
        }
        assert(map_of(s).dom() =~= map_of(t).dom().insert(s.last().0));
    } else {
        assert(map_of(s).dom() =~= Set::empty());
    }
}

/// One map has one ascending list of entries.
pub proof fn lemma_entries_unique<V>(a: Seq<(u64, V)>, b: Seq<(u64, V)>)
    requires
        increasing(a),
        increasing(b),
        map_of(a) == map_of(b),
    ensures
        a == b,
    decreases a.len(),
{
    lemma_map_of_increasing(a);
    lemma_map_of_increasing(b);
    lemma_map_of_keys(a);
    lemma_map_of_keys(b);
    if a.len() == 0 {
        assert(a =~= b);
    } else {
        let x = a.last();
        let y = b.last();
        assert(map_of(b).contains_key(a[a.len() - 1].0));
        assert(map_of(a).contains_key(b[b.len() - 1].0));
        let i = choose|i: int| 0 <= i < b.len() && (#[trigger] b[i]).0 == x.0;
        let j = choose|j: int| 0 <= j < a.len() && (#[trigger] a[j]).0 == y.0;
        if i < b.len() - 1 {
            assert(b[i].0 < b[b.len() - 1].0);
        }
        if j < a.len() - 1 {
            assert(a[j].0 < a[a.len() - 1].0);
        }
        assert(x.0 == y.0);
        assert(a[a.len() - 1].1 == b[b.len() - 1].1);
        let (ta, tb) = (a.drop_last(), b.drop_last());
        assert(!map_of(ta).contains_key(x.0)) by {
            lemma_map_of_keys(ta);
            if map_of(ta).contains_key(x.0) {
                let q = choose|q: int| 0 <= q < ta.len() && (#[trigger] ta[q]).0 == x.0;
                assert(a[q].0 < a[a.len() - 1].0);
            }
        }
        assert(!map_of(tb).contains_key(x.0)) by {
            lemma_map_of_keys(tb);
            if map_of(tb).contains_key(x.0) {
                let q = choose|q: int| 0 <= q < tb.len() && (#[trigger] tb[q]).0 == x.0;
                assert(b[q].0 < b[b.len() - 1].0);
            }
        }
        assert(map_of(ta) =~= map_of(a).remove(x.0));
        assert(map_of(tb) =~= map_of(b).remove(x.0));
        lemma_entries_unique(ta, tb);
        assert(a =~= ta.push(x));
        assert(b =~= tb.push(y));
    }
}

/// Listing a map and building it up again gives the same map.
pub proof fn lemma_entries_of<V>(s: Seq<(u64, V)>)
    requires
        increasing(s),
    ensures
        entries_of(map_of(s)) == s,
{
    lemma_entries_unique(entries_of(map_of(s)), s);
}

/// Every finite map has an ascending list of entries.
pub proof fn lemma_entries_exist<V>(m: Map<u64, V>)
    requires
        m.dom().finite(),
    ensures
        increasing(entries_of(m)),
        map_of(entries_of(m)) == m,
        entries_of(m).len() == m.dom().len(),
    decreases m.dom().len(),
{
    if m.dom().len() == 0 {
        assert(m =~= Map::empty());
        let s = Seq::<(u64, V)>::empty();
        assert(increasing(s) && map_of(s) == m);
        lemma_map_of_increasing(entries_of(m));
    } else {
        let top = lemma_greatest(m.dom());
        let rest = m.remove(top);
        lemma_entries_exist(rest);
        let t = entries_of(rest);
        let s = t.push((top, m[top]));
        lemma_map_of_keys(t);
        lemma_map_of_increasing(t);
        assert forall|i: int, j: int| 0 <= i < j < s.len() implies (#[trigger] s[i]).0 < (
        #[trigger] s[j]).0 by {
            assert(s[i] == t[i]);
            if j == t.len() {
                assert(rest.contains_key(t[i].0));
            } else {
                assert(s[j] == t[j]);
            }
        }
        assert(s.drop_last() =~= t);
        assert(map_of(s) =~= m);
        assert(increasing(s) && map_of(s) == m);
        lemma_map_of_increasing(entries_of(m));
    }
}

proof fn lemma_greatest(s: Set<u64>) -> (top: u64)
    requires
        s.finite(),
        s.len() > 0,
    ensures
        s.contains(top),
        forall|k: u64| s.contains(k) ==> k <= top,
    decreases s.len(),
{
    let k = s.choose();
    let rest = s.remove(k);
    if rest.len() == 0 {
        assert forall|j: u64| s.contains(j) implies j <= k by {
            if j != k {
                assert(rest.contains(j));
            }
        }
        k
    } else {
        let t = lemma_greatest(rest);
        if t < k {
            assert forall|j: u64| s.contains(j) implies j <= k by {
                if j != k {
                    assert(rest.contains(j));
                }
            }
            k
        } else {
            assert forall|j: u64| s.contains(j) implies j <= t by {
                if j != k {
                    assert(rest.contains(j));
                }
            }
            t
        }
    }
}

/// The entries of a map in ascending order of key.
pub fn entries<V: Copy>(m: &BTreeMap<u64, V>) -> (out: Vec<(u64, V)>)
    ensures
        increasing(out@),
        map_of(out@) == m@,
        out@ == entries_of(m@),
        out@.len() == m@.dom().len(),
{
    broadcast use vstd::std_specs::btree::group_btree_axioms;

    let mut out: Vec<(u64, V)> = Vec::new();
    let iter = m.iter();
    let ghost v = vstd::std_specs::iter::IteratorSpec::remaining(&iter);
    let ghost ks = v.map_values(|kv: (&u64, &V)| *kv.0);
    proof {
        vstd::std_specs::btree::axiom_increasing_seq_meaning(ks);
        assert(vstd::std_specs::btree::increasing_seq(ks));
    }
    for (k, v) in it: iter
        invariant
            it.seq() == vstd::std_specs::iter::IteratorSpec::remaining(&m.iter()),
            out@.len() == it.index(),
            forall|i: int|
                0 <= i < it.index() ==> (#[trigger] out@[i]).0 == *it.seq()[i].0 && out@[i].1
                    == *it.seq()[i].1,
    {
        out.push((*k, *v));
    }
    proof {
        assert forall|i: int, j: int| 0 <= i < j < out@.len() implies (#[trigger] out@[i]).0 < (
        #[trigger] out@[j]).0 by {
            assert(ks[i] == out@[i].0 && ks[j] == out@[j].0);
            assert(vstd::std_specs::cmp::OrdSpec::cmp_spec(&ks[i], &ks[j]) is Less);
        }
        lemma_map_of_increasing(out@);
        lemma_map_of_keys(out@);
        assert(map_of(out@) =~= m@) by {
            assert forall|k: u64| map_of(out@).contains_key(k) <==> m@.contains_key(k) by {
                if m@.contains_key(k) {
                    assert(v.contains((&k, &m@[k])));
                    let i = choose|i: int| 0 <= i < v.len() && v[i] == (&k, &m@[k]);
                    assert(out@[i].0 == k);
                }
            }
        }
        lemma_entries_of(out@);
    }
    out
}

/// The map that inserting these entries in turn builds.
pub fn from_entries<V: Copy>(s: &Vec<(u64, V)>) -> (m: BTreeMap<u64, V>)
    ensures
        m@ == map_of(s@),
{
    broadcast use vstd::std_specs::btree::group_btree_axioms;

    let mut m: BTreeMap<u64, V> = BTreeMap::new();
    let mut i: usize = 0;
    while i < s.len()
        invariant
            i <= s.len(),
            m@ == map_of(s@.take(i as int)),
        decreases s.len() - i,
    {
        let (k, v) = s[i];
        m.insert(k, v);
        assert(s@.take(i as int + 1).drop_last() =~= s@.take(i as int));
        i = i + 1;
    }
    assert(s@.take(s@.len() as int) =~= s@);
    m
}

} // verus!
