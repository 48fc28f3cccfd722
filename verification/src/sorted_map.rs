//! A map ordered by the text of its keys, which iterates in that order.
use vstd::prelude::*;

use crate::text::{
    lemma_seq_lt_asymmetric, lemma_seq_lt_irreflexive, lemma_seq_lt_total, lemma_seq_lt_transitive,
    rel_of, seq_lt, Rel,
};

verus! {

/// A key that is ordered by a text: distinct keys have distinct texts.
pub trait MapKey: Sized {
    spec fn key(&self) -> Seq<char>;

    fn key_compare(&self, other: &Self) -> (r: Rel)
        ensures
            r == rel_of(self.key(), other.key()),
    ;
}

/// An ordered map with at most one entry per key text, kept in increasing order of it.
#[derive(Debug)]
pub struct SortedMap<K: MapKey, V> {
    entries: Vec<(K, V)>,
}

/// Keys in strictly increasing order.
pub open spec fn increasing(keys: Seq<Seq<char>>) -> bool {
    forall|i: int, j: int| 0 <= i < j < keys.len() ==> seq_lt(#[trigger] keys[i], #[trigger] keys[j])
}

pub proof fn lemma_increasing_unique(keys: Seq<Seq<char>>, i: int, j: int)
    requires
        increasing(keys),
        0 <= i < keys.len(),
        0 <= j < keys.len(),
        keys[i] == keys[j],
    ensures
        i == j,
{
    if i < j {
        assert(seq_lt(keys[i], keys[j]));
        lemma_seq_lt_irreflexive(keys[i]);
    } else if j < i {
        assert(seq_lt(keys[j], keys[i]));
        lemma_seq_lt_irreflexive(keys[i]);
    }
}

/// Keys in increasing order are determined by the set of keys: two maps that hold the same
/// keys list them in the same order.
pub proof fn law_key_order_is_canonical(a: Seq<Seq<char>>, b: Seq<Seq<char>>)
    requires
        increasing(a),
        increasing(b),
        forall|x: Seq<char>| a.contains(x) <==> b.contains(x),
    ensures
        a == b,
    decreases a.len(),
{
    if a.len() == 0 {
        if b.len() > 0 {
            assert(a.contains(b[0]));
        }
        assert(a =~= b);
    } else {
        assert(b.contains(a[0]));
        assert(b.len() > 0);
        assert(a.contains(b[0]));
        let i = a.index_of(b[0]);
        let j = b.index_of(a[0]);
        if i > 0 && j > 0 {
            assert(seq_lt(a[0], a[i]));
            assert(seq_lt(b[0], b[j]));
            lemma_seq_lt_asymmetric(a[0], b[0]);
        }
        assert(a[0] == b[0]);
        let a1 = a.drop_first();
        let b1 = b.drop_first();
        assert(increasing(a1)) by {
            assert forall|p: int, q: int| 0 <= p < q < a1.len() implies seq_lt(#[trigger] a1[p], #[trigger] a1[q]) by {
                assert(a1[p] == a[p + 1] && a1[q] == a[q + 1]);
            }
        }
        assert(increasing(b1)) by {
            assert forall|p: int, q: int| 0 <= p < q < b1.len() implies seq_lt(#[trigger] b1[p], #[trigger] b1[q]) by {
                assert(b1[p] == b[p + 1] && b1[q] == b[q + 1]);
            }
        }
        assert forall|x: Seq<char>| a1.contains(x) <==> b1.contains(x) by {
            if a1.contains(x) {
                let p = a1.index_of(x);
                assert(a[p + 1] == x);
                assert(seq_lt(a[0], x));
                lemma_seq_lt_irreflexive(x);
                assert(b.contains(x));
                let q = b.index_of(x);
                assert(q != 0);
                assert(b1[q - 1] == x);
            }
            if b1.contains(x) {
                let p = b1.index_of(x);
                assert(b[p + 1] == x);
                assert(seq_lt(b[0], x));
                lemma_seq_lt_irreflexive(x);
                assert(a.contains(x));
                let q = a.index_of(x);
                assert(q != 0);
                assert(a1[q - 1] == x);
            }
        }
        law_key_order_is_canonical(a1, b1);
        assert(a =~= seq![a[0]] + a1);
        assert(b =~= seq![b[0]] + b1);
    }
}


/// The least text of a finite, non-empty set.
proof fn lemma_least_exists(s: Set<Seq<char>>) -> (m: Seq<char>)
    requires
        s.finite(),
        s.len() > 0,
    ensures
        s.contains(m),
        forall|x: Seq<char>| s.contains(x) && x != m ==> seq_lt(m, x),
    decreases s.len(),
{
    let a = s.choose();
    let rest = s.remove(a);
    if rest.len() == 0 {
        assert forall|x: Seq<char>| s.contains(x) && x != a implies seq_lt(a, x) by {
            assert(rest.contains(x));
        }
        a
    } else {
        let m = lemma_least_exists(rest);
        lemma_seq_lt_total(a, m);
        if seq_lt(a, m) {
            assert forall|x: Seq<char>| s.contains(x) && x != a implies seq_lt(a, x) by {
                if x != m {
                    assert(rest.contains(x));
                    lemma_seq_lt_transitive(a, m, x);
                }
            }
            a
        } else {
            m
        }
    }
}

/// Every finite set of texts is listed, once each, by a sequence in increasing order.
pub proof fn lemma_ordering_exists(s: Set<Seq<char>>) -> (keys: Seq<Seq<char>>)
    requires
        s.finite(),
    ensures
        increasing(keys),
        forall|x: Seq<char>| s.contains(x) <==> keys.contains(x),
    decreases s.len(),
{
    if s.len() == 0 {
        assert forall|x: Seq<char>| s.contains(x) <==> Seq::<Seq<char>>::empty().contains(x) by {
            if s.contains(x) {
                assert(s.remove(x).len() < s.len());
            }
        }
        Seq::empty()
    } else {
        let m = lemma_least_exists(s);
        let rest = lemma_ordering_exists(s.remove(m));
        let keys = seq![m] + rest;
        assert forall|i: int, j: int| 0 <= i < j < keys.len() implies seq_lt(#[trigger] keys[i], #[trigger] keys[j]) by {
            if i == 0 {
                assert(keys[j] == rest[j - 1]);
                assert(rest.contains(rest[j - 1]));
            } else {
                assert(keys[i] == rest[i - 1] && keys[j] == rest[j - 1]);
            }
        }
        assert forall|x: Seq<char>| s.contains(x) <==> keys.contains(x) by {
            if s.contains(x) && x != m {
                assert(rest.contains(x));
                let q = rest.index_of(x);
                assert(keys[q + 1] == x);
            }
            if s.contains(x) && x == m {
                assert(keys[0] == x);
            }
            if keys.contains(x) {
                let q = keys.index_of(x);
                if q > 0 {
                    assert(rest[q - 1] == x);
                }
            }
        }
        keys
    }
}

impl<K: MapKey, V> SortedMap<K, V> {
    pub closed spec fn keys(&self) -> Seq<Seq<char>> {
        self.entries@.map_values(|e: (K, V)| e.0.key())
    }

    pub closed spec fn values(&self) -> Seq<V> {
        self.entries@.map_values(|e: (K, V)| e.1)
    }

    pub open spec fn is_sorted(&self) -> bool {
        &&& increasing(self.keys())
        &&& self.values().len() == self.keys().len()
    }

    #[verifier::type_invariant]
    pub(crate) open spec fn inv(self) -> bool {
        self.is_sorted()
    }

    pub open spec fn view(&self) -> Map<Seq<char>, V> {
        Map::new(
            |k: Seq<char>| self.keys().contains(k),
            |k: Seq<char>| self.values()[self.keys().index_of(k)],
        )
    }

    /// What the map holds at the `i`-th key in order.
    pub proof fn lemma_view_at(&self, i: int)
        requires
            self.is_sorted(),
            0 <= i < self.keys().len(),
        ensures
            self@.contains_key(self.keys()[i]),
            self@[self.keys()[i]] == self.values()[i],
    {
        let k = self.keys()[i];
        assert(self.keys().contains(k));
        let j = self.keys().index_of(k);
        lemma_increasing_unique(self.keys(), i, j);
    }

    /// A key text is in the map exactly when it is one of its ordered keys.
    pub proof fn lemma_view_dom(&self)
        requires
            self.is_sorted(),
        ensures
            forall|k: Seq<char>| self@.contains_key(k) <==> self.keys().contains(k),
            forall|i: int|
                0 <= i < self.keys().len() ==> #[trigger] self@[self.keys()[i]] == self.values()[i],
    {
        assert forall|i: int| 0 <= i < self.keys().len() implies #[trigger] self@[self.keys()[i]]
            == self.values()[i] by {
            self.lemma_view_at(i);
        }
    }

    pub fn new() -> (m: Self)
        ensures
            m.keys() == Seq::<Seq<char>>::empty(),
            m@ == Map::<Seq<char>, V>::empty(),
    {
        let m = SortedMap { entries: Vec::new() };
        assert(m.keys() =~= Seq::<Seq<char>>::empty());
        assert(m@ =~= Map::<Seq<char>, V>::empty());
        m
    }

    pub fn len(&self) -> (n: usize)
        ensures
            n == self.keys().len(),
            self.is_sorted(),
    {
        proof {
            use_type_invariant(self);
        }
        self.entries.len()
    }

    pub fn key_at(&self, i: usize) -> (k: &K)
        requires
            i < self.keys().len(),
        ensures
            k.key() == self.keys()[i as int],
    {
        &self.entries[i].0
    }

    pub fn value_at(&self, i: usize) -> (v: &V)
        requires
            i < self.keys().len(),
        ensures
            *v == self.values()[i as int],
    {
        proof {
            use_type_invariant(self);
        }
        &self.entries[i].1
    }

    /// The position of `k` among the ordered keys.
    pub fn find(&self, k: &K) -> (r: Option<usize>)
        ensures
            match r {
                Some(i) => i < self.keys().len() && self.keys()[i as int] == k.key(),
                None => !self.keys().contains(k.key()),
            },
            self.is_sorted(),
    {
        proof {
            use_type_invariant(self);
        }
        let n = self.entries.len();
        let mut i: usize = 0;
        while i < n
            invariant
                n == self.keys().len(),
                i <= n,
                self.is_sorted(),
                forall|j: int| 0 <= j < i ==> self.keys()[j] != k.key(),
            decreases n - i,
        {
            if self.entries[i].0.key_compare(k) == Rel::Equal {
                return Some(i);
            }
            i = i + 1;
        }
        None
    }

    pub fn get(&self, k: &K) -> (r: Option<&V>)
        ensures
            match r {
                Some(v) => self@.contains_key(k.key()) && self@[k.key()] == *v,
                None => !self@.contains_key(k.key()),
            },
    {
        proof {
            use_type_invariant(self);
        }
        match self.find(k) {
            Some(i) => {
                proof {
                    self.lemma_view_at(i as int);
                }
                Some(&self.entries[i].1)
            },
            None => None,
        }
    }

    pub fn contains(&self, k: &K) -> (r: bool)
        ensures
            r == self@.contains_key(k.key()),
    {
        match self.find(k) {
            Some(i) => true,
            None => false,
        }
    }

    /// Replaces the value at the `i`-th key.
    pub fn set_value_at(&mut self, i: usize, v: V)
        requires
            i < old(self).keys().len(),
        ensures
            final(self).keys() == old(self).keys(),
            final(self).values() == old(self).values().update(i as int, v),
            final(self)@ == old(self)@.insert(old(self).keys()[i as int], v),
    {
        proof {
            use_type_invariant(&*self);
        }
        let ghost old_keys = self.keys();
        let ghost old_map = self@;
        let ghost old_values = self.values();
        let mut entries = Vec::new();
        std::mem::swap(&mut entries, &mut self.entries);
        let (k, _old_v) = entries.remove(i);
        entries.insert(i, (k, v));
        proof {
            let s = SortedMap { entries };
            assert(s.keys() =~= old_keys);
            assert(s.values() =~= old_values.update(i as int, v));
        }
        self.entries = entries;
        proof {
            assert(self.keys() =~= old_keys);
            assert(self.values() =~= old_values.update(i as int, v));
            self.lemma_view_dom();
            assert forall|k: Seq<char>| #[trigger] self@.contains_key(k) implies self@[k]
                == old_map.insert(old_keys[i as int], v)[k] by {
                let j = self.keys().index_of(k);
                self.lemma_view_at(j);
            }
            assert(self@ =~= old_map.insert(old_keys[i as int], v));
        }
    }

    /// Sets the value of `k`, in its place in the order.
    pub fn insert(&mut self, k: K, v: V)
        ensures
            final(self)@ == old(self)@.insert(k.key(), v),
    {
        proof {
            use_type_invariant(&*self);
            self.lemma_view_dom();
        }
        let ghost old_keys = self.keys();
        let ghost old_values = self.values();
        let ghost old_map = self@;
        let ghost kk = k.key();
        let mut entries = Vec::new();
        std::mem::swap(&mut entries, &mut self.entries);
        let n = entries.len();
        assert(entries@.map_values(|e: (K, V)| e.0.key()) =~= old_keys);
        let mut i: usize = 0;
        let mut found = false;
        while i < n
            invariant_except_break
                kk == k.key(),
                n == entries.len(),
                entries@.map_values(|e: (K, V)| e.0.key()) == old_keys,
                i <= n,
                !found,
                forall|j: int| 0 <= j < i ==> seq_lt(#[trigger] old_keys[j], kk),
            ensures
                kk == k.key(),
                n == entries.len(),
                entries@.map_values(|e: (K, V)| e.0.key()) == old_keys,
                i <= n,
                forall|j: int| 0 <= j < i ==> seq_lt(#[trigger] old_keys[j], kk),
                found ==> i < n && old_keys[i as int] == kk,
                !found ==> (i == n || seq_lt(kk, old_keys[i as int])),
            decreases n - i,
        {
            assert(old_keys[i as int] == entries@[i as int].0.key());
            let rel = entries[i].0.key_compare(&k);

            match rel {
                Rel::Less => {
                    i = i + 1;
                },
                Rel::Equal => {
                    found = true;
                    break ;
                },
                Rel::Greater => {
                    proof {
                        lemma_seq_lt_total(old_keys[i as int], kk);
                    }
                    break ;
                },
            }
        }
        if found {
            let _ = entries.remove(i);
            entries.insert(i, (k, v));
            proof {
                let s = SortedMap { entries };
                assert(s.keys() =~= old_keys);
                assert(s.values() =~= old_values.update(i as int, v));
            }
        } else {
            entries.insert(i, (k, v));
            proof {
                let s = SortedMap { entries };
                let nk = old_keys.insert(i as int, kk);
                assert(s.keys() =~= nk);
                assert(s.values() =~= old_values.insert(i as int, v));
                assert forall|a: int, b: int| 0 <= a < b < nk.len() implies seq_lt(
                    #[trigger] nk[a],
                    #[trigger] nk[b],
                ) by {
                    if b < i {
                    } else if b == i {
                    } else if a == i {
                        if b - 1 > i {
                            assert(seq_lt(old_keys[i as int], old_keys[b - 1]));
                            lemma_seq_lt_transitive(kk, old_keys[i as int], old_keys[b - 1]);
                        }
                    } else if a < i {
                        assert(seq_lt(old_keys[a], old_keys[b - 1]));
                    } else {
                        assert(seq_lt(old_keys[a - 1], old_keys[b - 1]));
                    }
                }
            }
        }
        self.entries = entries;
        proof {
            self.lemma_view_dom();
            if found {
                assert(self.keys() =~= old_keys);
                assert(self.values() =~= old_values.update(i as int, v));
                assert forall|key: Seq<char>| #[trigger] self@.contains_key(key) implies self@[key]
                    == old_map.insert(kk, v)[key] by {
                    let j = self.keys().index_of(key);
                    self.lemma_view_at(j);
                    if j != i {
                        assert(old_keys[j] != kk) by {
                            if old_keys[j] == kk {
                                lemma_increasing_unique(old_keys, j, i as int);
                            }
                        }
                    }
                }
                assert(self@ =~= old_map.insert(kk, v));
            } else {
                assert(self.keys() =~= old_keys.insert(i as int, kk));
                assert(self.values() =~= old_values.insert(i as int, v));
                assert forall|key: Seq<char>| self@.contains_key(key) <==> #[trigger] old_map.insert(
                    kk,
                    v,
                ).contains_key(key) by {
                    if self.keys().contains(key) {
                        let j = self.keys().index_of(key);
                        if j < i {
                            assert(old_keys[j] == key);
                        } else if j > i {
                            assert(old_keys[j - 1] == key);
                        }
                    }
                    if old_keys.contains(key) {
                        let j = old_keys.index_of(key);
                        if j < i {
                            assert(self.keys()[j] == key);
                        } else {
                            assert(self.keys()[j + 1] == key);
                        }
                    }
                    if key == kk {
                        assert(self.keys()[i as int] == key);
                    }
                }
                assert forall|key: Seq<char>| #[trigger] self@.contains_key(key) implies self@[key]
                    == old_map.insert(kk, v)[key] by {
                    let j = self.keys().index_of(key);
                    self.lemma_view_at(j);
                    if j < i {
                        assert(old_keys[j] == key);
                        assert(key != kk) by {
                            lemma_seq_lt_irreflexive(kk);
                        }
                        old_map_at(old_keys, old_values, old_map, j);
                    } else if j > i {
                        assert(old_keys[j - 1] == key);
                        assert(key != kk) by {
                            lemma_seq_lt_irreflexive(kk);
                            assert(seq_lt(self.keys()[i as int], self.keys()[j]));
                        }
                        old_map_at(old_keys, old_values, old_map, j - 1);
                    }
                }
                assert(self@ =~= old_map.insert(kk, v));
            }
        }
    }
}

impl<K: MapKey, V> SortedMap<K, V> {
    /// Drops the entry of `k`, if there is one.
    pub fn remove(&mut self, k: &K)
        ensures
            final(self)@ == old(self)@.remove(k.key()),
    {
        proof {
            use_type_invariant(&*self);
            self.lemma_view_dom();
        }
        let ghost old_keys = self.keys();
        let ghost old_values = self.values();
        let ghost old_map = self@;
        match self.find(k) {
            None => {
                assert(self@ =~= old_map.remove(k.key()));
            },
            Some(i) => {
                let mut entries = Vec::new();
                std::mem::swap(&mut entries, &mut self.entries);
                let _ = entries.remove(i);
                proof {
                    let s = SortedMap { entries };
                    assert(s.keys() =~= old_keys.remove(i as int));
                    assert(s.values() =~= old_values.remove(i as int));
                    assert forall|a: int, b: int| 0 <= a < b < s.keys().len() implies seq_lt(
                        #[trigger] s.keys()[a],
                        #[trigger] s.keys()[b],
                    ) by {
                        if b < i {
                        } else if a < i {
                            assert(seq_lt(old_keys[a], old_keys[b + 1]));
                        } else {
                            assert(seq_lt(old_keys[a + 1], old_keys[b + 1]));
                        }
                    }
                }
                self.entries = entries;
                proof {
                    let kk = k.key();
                    self.lemma_view_dom();
                    assert(self.keys() =~= old_keys.remove(i as int));
                    assert(self.values() =~= old_values.remove(i as int));
                    assert forall|key: Seq<char>| self@.contains_key(key) <==> #[trigger] old_map.remove(
                        kk,
                    ).contains_key(key) by {
                        if self.keys().contains(key) {
                            let j = self.keys().index_of(key);
                            if j < i {
                                assert(old_keys[j] == key);
                                if key == kk {
                                    lemma_increasing_unique(old_keys, j, i as int);
                                }
                            } else {
                                assert(old_keys[j + 1] == key);
                                if key == kk {
                                    lemma_increasing_unique(old_keys, j + 1, i as int);
                                }
                            }
                        }
                        if old_keys.contains(key) && key != kk {
                            let j = old_keys.index_of(key);
                            if j < i {
                                assert(self.keys()[j] == key);
                            } else {
                                assert(self.keys()[j - 1] == key);
                            }
                        }
                    }
                    assert forall|key: Seq<char>| #[trigger] self@.contains_key(key) implies self@[key]
                        == old_map.remove(kk)[key] by {
                        let j = self.keys().index_of(key);
                        self.lemma_view_at(j);
                        assert(old_map.remove(kk).contains_key(key));
                        if j < i {
                            assert(old_keys[j] == key);
                            old_map_at(old_keys, old_values, old_map, j);
                        } else {
                            assert(old_keys[j + 1] == key);
                            old_map_at(old_keys, old_values, old_map, j + 1);
                        }
                    }
                    assert(self@ =~= old_map.remove(kk));
                }
            },
        }
    }
}

proof fn old_map_at<V>(keys: Seq<Seq<char>>, values: Seq<V>, m: Map<Seq<char>, V>, j: int)
    requires
        0 <= j < keys.len(),
        forall|i: int| 0 <= i < keys.len() ==> #[trigger] m[keys[i]] == values[i],
    ensures
        m[keys[j]] == values[j],
{
}

} // verus!
