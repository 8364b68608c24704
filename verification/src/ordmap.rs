//! An ordered map whose keys are compared by their bytes, kept as one sorted vector.

use vstd::prelude::*;
use vstd::utf8::{encode_utf8, encode_utf8_decode_utf8};

verus! {

/// `a` comes before `b` in dictionary order.
pub open spec fn before(a: Seq<u8>, b: Seq<u8>) -> bool {
    exists|i: int| #[trigger] differ_at(a, b, i) && i < b.len() && (i == a.len() || a[i] < b[i])
}

/// The two agree on the first `i` bytes, and not on the next.
pub open spec fn differ_at(a: Seq<u8>, b: Seq<u8>, i: int) -> bool {
    &&& 0 <= i <= a.len()
    &&& i <= b.len()
    &&& forall|k: int| 0 <= k < i ==> a[k] == b[k]
    &&& i < a.len() && i < b.len() ==> a[i] != b[i]
}

pub proof fn lemma_before_irreflexive(a: Seq<u8>, b: Seq<u8>)
    requires
        before(a, b),
    ensures
        a != b,
        !before(b, a),
{
    let i = choose|i: int| #[trigger]
        differ_at(a, b, i) && i < b.len() && (i == a.len() || a[i] < b[i]);
    if before(b, a) {
        let j = choose|j: int| #[trigger]
            differ_at(b, a, j) && j < a.len() && (j == b.len() || b[j] < a[j]);
        if j < i {
            assert(a[j] == b[j]);
        } else if i < j {
            assert(b[i] == a[i]);
        }
    }
}

pub proof fn lemma_before_transitive(a: Seq<u8>, b: Seq<u8>, c: Seq<u8>)
    requires
        before(a, b),
        before(b, c),
    ensures
        before(a, c),
{
    let i = choose|i: int| #[trigger]
        differ_at(a, b, i) && i < b.len() && (i == a.len() || a[i] < b[i]);
    let j = choose|j: int| #[trigger]
        differ_at(b, c, j) && j < c.len() && (j == b.len() || b[j] < c[j]);
    let k = if i < j { i } else { j };
    assert(differ_at(a, c, k));
}

/// How two keys stand to each other.
pub enum Order {
    Before,
    Same,
    After,
}

/// Dictionary order of two byte strings.
pub fn compare_bytes(a: &[u8], b: &[u8]) -> (r: Order)
    ensures
        match r {
            Order::Before => before(a@, b@),
            Order::Same => a@ == b@,
            Order::After => before(b@, a@),
        },
{
    let n: usize = if a.len() < b.len() {
        a.len()
    } else {
        b.len()
    };
    let mut i: usize = 0;
    while i < n
        invariant
            i <= n,
            n <= a@.len(),
            n <= b@.len(),
            forall|k: int| 0 <= k < i ==> a@[k] == b@[k],
        decreases n - i,
    {
        if a[i] < b[i] {
            assert(differ_at(a@, b@, i as int));
            return Order::Before;
        }
        if b[i] < a[i] {
            assert(differ_at(b@, a@, i as int));
            return Order::After;
        }
        i = i + 1;
    }
    if a.len() < b.len() {
        assert(differ_at(a@, b@, i as int));
        Order::Before
    } else if b.len() < a.len() {
        assert(differ_at(b@, a@, i as int));
        Order::After
    } else {
        assert(a@ =~= b@);
        Order::Same
    }
}

/// What a key of an [`OrdMap`] has to offer: bytes that tell it apart and put it in order.
pub trait Key: Sized {
    /// What the key stands for.
    type Id;

    spec fn ident(&self) -> Self::Id;

    spec fn rank(id: Self::Id) -> Seq<u8>;

    proof fn rank_is_injective(a: Self::Id, b: Self::Id)
        requires
            Self::rank(a) == Self::rank(b),
        ensures
            a == b,
    ;

    fn rank_bytes(&self) -> (b: &[u8])
        ensures
            b@ == Self::rank(self.ident()),
    ;

    fn duplicate(&self) -> (k: Self)
        ensures
            k.ident() == self.ident(),
    ;
}

impl Key for String {
    type Id = Seq<char>;

    open spec fn ident(&self) -> Seq<char> {
        self@
    }

    open spec fn rank(id: Seq<char>) -> Seq<u8> {
        encode_utf8(id)
    }

    proof fn rank_is_injective(a: Seq<char>, b: Seq<char>) {
        encode_utf8_decode_utf8(a);
        encode_utf8_decode_utf8(b);
    }

    fn rank_bytes(&self) -> (b: &[u8]) {
        self.as_str().as_bytes()
    }

    fn duplicate(&self) -> (k: String) {
        self.clone()
    }
}

/// A map from keys to values, in the keys' order.
#[derive(Debug, PartialEq, Eq)]
pub struct OrdMap<K: Key, T> {
    entries: Vec<(K, T)>,
}

/// The keys go strictly up.
pub closed spec fn ascending<K: Key, T>(s: Seq<(K, T)>) -> bool {
    forall|i: int, j: int|
        0 <= i < j < s.len() ==> before(
            K::rank((#[trigger] s[i]).0.ident()),
            K::rank((#[trigger] s[j]).0.ident()),
        )
}

/// These keys, in strictly ascending order.
pub open spec fn keys_ascend<K: Key>(s: Seq<K>) -> bool {
    forall|i: int, j: int|
        0 <= i < j < s.len() ==> before(
            K::rank((#[trigger] s[i]).ident()),
            K::rank((#[trigger] s[j]).ident()),
        )
}

spec fn at<K: Key, T>(s: Seq<(K, T)>, id: K::Id, i: int) -> bool {
    0 <= i < s.len() && s[i].0.ident() == id
}

spec fn as_map<K: Key, T>(s: Seq<(K, T)>) -> Map<K::Id, T> {
    Map::new(|id: K::Id| exists|i: int| at(s, id, i), |id: K::Id| s[choose|i: int| at(s, id, i)].1)
}

proof fn lemma_at_unique<K: Key, T>(s: Seq<(K, T)>, id: K::Id, i: int)
    requires
        ascending(s),
        at(s, id, i),
    ensures
        as_map(s).contains_key(id),
        as_map(s)[id] == s[i].1,
{
    let j = choose|j: int| at(s, id, j);
    if i < j {
        lemma_before_irreflexive(K::rank(s[i].0.ident()), K::rank(s[j].0.ident()));
    } else if j < i {
        lemma_before_irreflexive(K::rank(s[j].0.ident()), K::rank(s[i].0.ident()));
    }
}

proof fn lemma_dom<K: Key, T>(s: Seq<(K, T)>)
    requires
        ascending(s),
    ensures
        as_map(s).dom().finite(),
        as_map(s).dom().len() == s.len(),
    decreases s.len(),
{
    if s.len() == 0 {
        assert(as_map(s).dom() =~= Set::empty());
    } else {
        let t = s.drop_last();
        lemma_dom(t);
        let id = s.last().0.ident();
        assert(!as_map(t).contains_key(id)) by {
            if as_map(t).contains_key(id) {
                let i = choose|i: int| at(t, id, i);
                lemma_before_irreflexive(
                    K::rank(s[i].0.ident()),
                    K::rank(s[s.len() - 1].0.ident()),
                );
            }
        }
        assert forall|k: K::Id| as_map(s).dom().contains(k) <==> as_map(t).dom().insert(
            id,
        ).contains(k) by {
            if as_map(s).dom().contains(k) {
                let i = choose|i: int| at(s, k, i);
                if i < t.len() {
                    assert(at(t, k, i));
                }
            }
            if as_map(t).dom().contains(k) {
                let i = choose|i: int| at(t, k, i);
                assert(at(s, k, i));
            }
            if k == id {
                assert(at(s, k, s.len() - 1));
            }
        }
        assert(as_map(s).dom() =~= as_map(t).dom().insert(id));
    }
}

impl<K: Key, T> View for OrdMap<K, T> {
    type V = Map<K::Id, T>;

    closed spec fn view(&self) -> Map<K::Id, T> {
        as_map(self.entries@)
    }
}

impl<K: Key, T: Copy> Clone for OrdMap<K, T> {
    fn clone(&self) -> (m: OrdMap<K, T>)
        ensures
            m@ == self@,
    {
        proof {
            use_type_invariant(self);
        }
        let ghost s = self.entries@;
        let mut entries: Vec<(K, T)> = Vec::new();
        let mut i: usize = 0;
        while i < self.entries.len()
            invariant
                s == self.entries@,
                entries@.len() == i <= s.len(),
                forall|j: int|
                    0 <= j < i ==> (#[trigger] entries@[j]).0.ident() == s[j].0.ident()
                        && entries@[j].1 == s[j].1,
            decreases s.len() - i,
        {
            let (key, value) = &self.entries[i];
            entries.push((key.duplicate(), *value));
            i = i + 1;
        }
        proof {
            let t = entries@;
            assert(ascending(t));
            assert forall|id: K::Id| #[trigger] as_map(t).contains_key(id) <==> as_map(
                s,
            ).contains_key(id) by {
                if as_map(t).contains_key(id) {
                    let j = choose|j: int| at(t, id, j);
                    assert(at(s, id, j));
                }
                if as_map(s).contains_key(id) {
                    let j = choose|j: int| at(s, id, j);
                    assert(t[j].0.ident() == s[j].0.ident());
                    assert(at(t, id, j));
                }
            }
            assert forall|id: K::Id| #[trigger] as_map(t).contains_key(id) implies as_map(t)[id]
                == as_map(s)[id] by {
                let j = choose|j: int| at(t, id, j);
                lemma_at_unique(t, id, j);
                lemma_at_unique(s, id, j);
            }
            assert(as_map(t) =~= as_map(s));
        }
        OrdMap { entries }
    }
}

impl<K: Key, T> OrdMap<K, T> {
    #[verifier::type_invariant]
    spec fn inv(self) -> bool {
        ascending(self.entries@)
    }

    /// A map with nothing in it.
    pub fn new() -> (m: OrdMap<K, T>)
        ensures
            m@ == Map::<K::Id, T>::empty(),
    {
        let m = OrdMap { entries: Vec::new() };
        assert(m@ =~= Map::<K::Id, T>::empty());
        m
    }

    /// How many keys the map has.
    pub fn len(&self) -> (n: usize)
        ensures
            self@.dom().finite(),
            n == self@.dom().len(),
    {
        proof {
            use_type_invariant(self);
            lemma_dom(self.entries@);
        }
        self.entries.len()
    }

    /// Where the key is, or where it would go.
    fn find(&self, key: &K) -> (r: (usize, bool))
        ensures
            r.0 <= self.entries@.len(),
            r.1 ==> at(self.entries@, key.ident(), r.0 as int),
            !r.1 ==> !self@.contains_key(key.ident()),
            forall|i: int|
                0 <= i < r.0 ==> before(
                    K::rank((#[trigger] self.entries@[i]).0.ident()),
                    K::rank(key.ident()),
                ),
            forall|i: int|
                r.0 <= i < self.entries@.len() && !r.1 ==> before(
                    K::rank(key.ident()),
                    K::rank((#[trigger] self.entries@[i]).0.ident()),
                ),
    {
        proof {
            use_type_invariant(self);
        }
        let mut lo: usize = 0;
        let mut hi: usize = self.entries.len();
        while lo < hi
            invariant
                lo <= hi <= self.entries@.len(),
                ascending(self.entries@),
                forall|i: int|
                    0 <= i < lo ==> before(
                        K::rank((#[trigger] self.entries@[i]).0.ident()),
                        K::rank(key.ident()),
                    ),
                forall|i: int|
                    hi <= i < self.entries@.len() ==> before(
                        K::rank(key.ident()),
                        K::rank((#[trigger] self.entries@[i]).0.ident()),
                    ),
            decreases hi - lo,
        {
            let mid: usize = lo + (hi - lo) / 2;
            let ghost m = K::rank(self.entries@[mid as int].0.ident());
            let ghost k = K::rank(key.ident());
            match compare_bytes(self.entries[mid].0.rank_bytes(), key.rank_bytes()) {
                Order::Before => {
                    proof {
                        assert forall|i: int| 0 <= i < mid + 1 implies before(
                            K::rank((#[trigger] self.entries@[i]).0.ident()),
                            k,
                        ) by {
                            if i < mid {
                                lemma_before_transitive(
                                    K::rank(self.entries@[i].0.ident()),
                                    m,
                                    k,
                                );
                            }
                        }
                    }
                    lo = mid + 1;
                },
                Order::Same => {
                    proof {
                        K::rank_is_injective(self.entries@[mid as int].0.ident(), key.ident());
                        assert(at(self.entries@, key.ident(), mid as int));
                    }
                    return (mid, true);
                },
                Order::After => {
                    proof {
                        assert forall|i: int| mid <= i < self.entries@.len() implies before(
                            k,
                            K::rank((#[trigger] self.entries@[i]).0.ident()),
                        ) by {
                            if i > mid {
                                lemma_before_transitive(
                                    k,
                                    m,
                                    K::rank(self.entries@[i].0.ident()),
                                );
                            }
                        }
                    }
                    hi = mid;
                },
            }
        }
        proof {
            if self@.contains_key(key.ident()) {
                let i = choose|i: int| at(self.entries@, key.ident(), i);
                if i < lo {
                    lemma_before_irreflexive(
                        K::rank(self.entries@[i].0.ident()),
                        K::rank(key.ident()),
                    );
                } else {
                    lemma_before_irreflexive(
                        K::rank(key.ident()),
                        K::rank(self.entries@[i].0.ident()),
                    );
                }
            }
        }
        (lo, false)
    }

    /// The value at a key.
    pub fn get(&self, key: &K) -> (r: Option<&T>)
        ensures
            match r {
                Some(v) => self@.contains_key(key.ident()) && *v == self@[key.ident()],
                None => !self@.contains_key(key.ident()),
            },
    {
        let (i, found) = self.find(key);
        if found {
            proof {
                use_type_invariant(self);
                lemma_at_unique(self.entries@, key.ident(), i as int);
            }
            Some(&self.entries[i].1)
        } else {
            None
        }
    }

    /// Whether the key is there.
    pub fn contains(&self, key: &K) -> (r: bool)
        ensures
            r == self@.contains_key(key.ident()),
    {
        self.get(key).is_some()
    }

    /// Puts a value at a key, in place of what was there.
    pub fn insert(&mut self, key: K, value: T)
        ensures
            final(self)@ == old(self)@.insert(key.ident(), value),
            final(self)@.dom().finite() && final(self)@.dom().len() <= usize::MAX,
    {
        let (i, found) = self.find(&key);
        proof {
            use_type_invariant(&*self);
        }
        let ghost id = key.ident();
        let mut entries: Vec<(K, T)> = Vec::new();
        std::mem::swap(&mut entries, &mut self.entries);
        let ghost s = entries@;
        if found {
            let _ = entries.remove(i);
            entries.insert(i, (key, value));
            proof {
                let t = entries@;
                assert(t =~= s.update(i as int, (key, value)));
                assert forall|a: int, b: int| 0 <= a < b < t.len() implies before(
                    K::rank((#[trigger] t[a]).0.ident()),
                    K::rank((#[trigger] t[b]).0.ident()),
                ) by {
                    assert(s[a].0.ident() == t[a].0.ident());
                    assert(s[b].0.ident() == t[b].0.ident());
                }
                lemma_insert_map(s, t, id, value, i as int);
            }
        } else {
            entries.insert(i, (key, value));
            proof {
                let t = entries@;
                assert(t =~= s.insert(i as int, (key, value)));
                assert forall|a: int, b: int| 0 <= a < b < t.len() implies before(
                    K::rank((#[trigger] t[a]).0.ident()),
                    K::rank((#[trigger] t[b]).0.ident()),
                ) by {
                    if a < i && b > i {
                        assert(t[a] == s[a] && t[b] == s[b - 1]);
                    } else if a > i {
                        assert(t[a] == s[a - 1] && t[b] == s[b - 1]);
                    } else if b < i {
                        assert(t[a] == s[a] && t[b] == s[b]);
                    } else if a == i {
                        assert(t[b] == s[b - 1]);
                    } else {
                        assert(t[a] == s[a]);
                    }
                }
                lemma_insert_map(s, t, id, value, i as int);
            }
        }
        proof {
            lemma_dom(entries@);
        }
        assert(entries.len() <= usize::MAX);
        self.entries = entries;
    }

    /// Takes a key out, if it is there.
    pub fn remove(&mut self, key: &K)
        ensures
            final(self)@ == old(self)@.remove(key.ident()),
    {
        let (i, found) = self.find(key);
        if !found {
            assert(self@ =~= self@.remove(key.ident()));
            return ;
        }
        proof {
            use_type_invariant(&*self);
        }
        let mut entries: Vec<(K, T)> = Vec::new();
        std::mem::swap(&mut entries, &mut self.entries);
        let ghost s = entries@;
        let _ = entries.remove(i);
        proof {
            let t = entries@;
            let id = key.ident();
            assert(t =~= s.remove(i as int));
            assert forall|a: int, b: int| 0 <= a < b < t.len() implies before(
                K::rank((#[trigger] t[a]).0.ident()),
                K::rank((#[trigger] t[b]).0.ident()),
            ) by {
                let a2 = if a < i { a } else { a + 1 };
                let b2 = if b < i { b } else { b + 1 };
                assert(t[a] == s[a2] && t[b] == s[b2]);
            }
            assert forall|k: K::Id| as_map(t).contains_key(k) <==> #[trigger] as_map(s).remove(
                id,
            ).contains_key(k) by {
                if as_map(t).contains_key(k) {
                    let j = choose|j: int| at(t, k, j);
                    let j2 = if j < i { j } else { j + 1 };
                    assert(at(s, k, j2));
                    if k == id {
                        if j2 < i {
                            lemma_before_irreflexive(
                                K::rank(s[j2].0.ident()),
                                K::rank(s[i as int].0.ident()),
                            );
                        } else {
                            lemma_before_irreflexive(
                                K::rank(s[i as int].0.ident()),
                                K::rank(s[j2].0.ident()),
                            );
                        }
                    }
                }
                if as_map(s).contains_key(k) && k != id {
                    let j = choose|j: int| at(s, k, j);
                    let j2 = if j < i { j } else { j - 1 };
                    assert(at(t, k, j2));
                }
            }
            assert forall|k: K::Id| #[trigger] as_map(t).contains_key(k) implies as_map(t)[k]
                == as_map(s)[k] by {
                let j = choose|j: int| at(t, k, j);
                let j2 = if j < i { j } else { j + 1 };
                assert(at(s, k, j2));
                lemma_at_unique(s, k, j2);
                lemma_at_unique(t, k, j);
            }
            assert(as_map(t) =~= as_map(s).remove(id));
        }
        self.entries = entries;
    }

    /// Empties the map.
    pub fn clear(&mut self)
        ensures
            final(self)@ == Map::<K::Id, T>::empty(),
    {
        *self = OrdMap::new();
    }

    /// Every key, in order.
    pub fn keys(&self) -> (out: Vec<K>)
        ensures
            keys_ascend(out@),
            out@.len() == self@.dom().len(),
            forall|i: int| 0 <= i < out@.len() ==> self@.contains_key((#[trigger] out@[i]).ident()),
            forall|id: K::Id| #[trigger]
                self@.contains_key(id) ==> exists|i: int|
                    0 <= i < out@.len() && (#[trigger] out@[i]).ident() == id,
            forall|i: int, j: int|
                0 <= i < j < out@.len() ==> (#[trigger] out@[i]).ident() != (
                #[trigger] out@[j]).ident(),
    {
        proof {
            use_type_invariant(self);
            lemma_dom(self.entries@);
        }
        let mut out: Vec<K> = Vec::new();
        let n: usize = self.entries.len();
        let mut i: usize = 0;
        while i < n
            invariant
                i <= n,
                n == self.entries@.len(),
                out@.len() == i,
                forall|k: int|
                    0 <= k < i ==> (#[trigger] out@[k]).ident() == self.entries@[k].0.ident(),
            decreases n - i,
        {
            out.push(self.entries[i].0.duplicate());
            i = i + 1;
        }
        proof {
            let s = self.entries@;
            assert forall|i: int, j: int| 0 <= i < j < out@.len() implies before(
                K::rank((#[trigger] out@[i]).ident()),
                K::rank((#[trigger] out@[j]).ident()),
            ) && out@[i].ident() != out@[j].ident() by {
                assert(out@[i].ident() == s[i].0.ident() && out@[j].ident() == s[j].0.ident());
                lemma_before_irreflexive(K::rank(s[i].0.ident()), K::rank(s[j].0.ident()));
            }
            assert forall|i: int| 0 <= i < out@.len() implies self@.contains_key(
                (#[trigger] out@[i]).ident(),
            ) by {
                assert(at(s, out@[i].ident(), i));
            }
            assert forall|id: K::Id| #[trigger] self@.contains_key(id) implies exists|i: int|
                0 <= i < out@.len() && (#[trigger] out@[i]).ident() == id by {
                let i = choose|i: int| at(s, id, i);
                assert(out@[i].ident() == id);
            }
        }
        out
    }
}

proof fn lemma_insert_map<K: Key, T>(
    s: Seq<(K, T)>,
    t: Seq<(K, T)>,
    id: K::Id,
    value: T,
    i: int,
)
    requires
        ascending(s),
        ascending(t),
        0 <= i < t.len(),
        t[i].0.ident() == id,
        t[i].1 == value,
        (t.len() == s.len() && s[i].0.ident() == id && forall|a: int|
            0 <= a < t.len() && a != i ==> t[a] == s[a]) || (t.len() == s.len() + 1 && forall|a: int|
            0 <= a < t.len() && a != i ==> t[a] == s[if a < i {
                a
            } else {
                a - 1
            }]),
    ensures
        as_map(t) == as_map(s).insert(id, value),
{
    let same = t.len() == s.len();
    assert(at(t, id, i));
    lemma_at_unique(t, id, i);
    assert forall|k: K::Id| as_map(t).contains_key(k) <==> #[trigger] as_map(s).insert(
        id,
        value,
    ).contains_key(k) by {
        if as_map(t).contains_key(k) && k != id {
            let j = choose|j: int| at(t, k, j);
            let j2 = if same || j < i { j } else { j - 1 };
            assert(at(s, k, j2));
        }
        if as_map(s).contains_key(k) {
            let j = choose|j: int| at(s, k, j);
            let j2 = if same || j < i { j } else { j + 1 };
            assert(t[j2].0.ident() == k);
            assert(at(t, k, j2));
        }
    }
    assert forall|k: K::Id| #[trigger] as_map(t).contains_key(k) && k != id implies as_map(t)[k]
        == as_map(s)[k] by {
        let j = choose|j: int| at(t, k, j);
        let j2 = if same || j < i { j } else { j - 1 };
        assert(at(s, k, j2));
        lemma_at_unique(s, k, j2);
        lemma_at_unique(t, k, j);
    }
    assert(as_map(t) =~= as_map(s).insert(id, value));
}

/// One sequence comes before another exactly where it is shorter and the other starts with it, or where
/// it has the smaller byte at the first place at which they differ.
pub proof fn order_is_decided_by_the_first_difference(a: Seq<u8>, b: Seq<u8>)
    ensures
        before(a, b) ==> !before(b, a) && a != b,
        a.len() < b.len() && b.take(a.len() as int) == a ==> before(a, b),
        forall|i: int|
            0 <= i < a.len() && i < b.len() && #[trigger] a.take(i) == b.take(i) && a[i] < b[i]
                ==> before(a, b),
        a != b ==> before(a, b) || before(b, a),
{
    if before(a, b) {
        lemma_before_irreflexive(a, b);
    }
    if a.len() < b.len() && b.take(a.len() as int) == a {
        assert forall|k: int| 0 <= k < a.len() implies a[k] == b[k] by {
            assert(b.take(a.len() as int)[k] == b[k]);
        }
        assert(differ_at(a, b, a.len() as int));
    }
    assert forall|i: int|
        0 <= i < a.len() && i < b.len() && #[trigger] a.take(i) == b.take(i) && a[i]
            < b[i] implies before(a, b) by {
        assert forall|k: int| 0 <= k < i implies a[k] == b[k] by {
            assert(a.take(i)[k] == b.take(i)[k]);
        }
        assert(differ_at(a, b, i));
    }
    if a != b {
        let i = lemma_first_difference(a, b, 0);
        assert(differ_at(a, b, i));
        assert(differ_at(b, a, i));
    }
}

/// Where two sequences first differ.
proof fn lemma_first_difference(a: Seq<u8>, b: Seq<u8>, i: int) -> (j: int)
    requires
        a != b,
        0 <= i <= a.len() && i <= b.len(),
        forall|k: int| 0 <= k < i ==> a[k] == b[k],
    ensures
        differ_at(a, b, j),
        j < a.len() || j < b.len(),
    decreases a.len() - i,
{
    if i < a.len() && i < b.len() && a[i] == b[i] {
        lemma_first_difference(a, b, i + 1)
    } else {
        if i == a.len() && i == b.len() {
            assert(a =~= b);
        }
        i
    }
}

} // verus!
