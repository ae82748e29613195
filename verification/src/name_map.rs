use vstd::prelude::*;

use crate::text::{lemma_str_lt_irreflexive, lemma_str_lt_total, lemma_str_lt_transitive, str_eq, str_less, str_lt};

verus! {

/// Every key orders strictly before the keys that follow it, so no key occurs twice.
pub open spec fn sorted_keys(ks: Seq<Seq<char>>) -> bool {
    forall|i: int, j: int| 0 <= i < j < ks.len() ==> str_lt(ks[i], ks[j])
}

/// The keys of `s` in ascending order.
pub open spec fn sorted_of(s: Set<Seq<char>>) -> Seq<Seq<char>> {
    choose|q: Seq<Seq<char>>| sorted_keys(q) && q.to_set() == s
}

pub proof fn lemma_sorted_no_duplicates(q: Seq<Seq<char>>)
    requires
        sorted_keys(q),
    ensures
        q.no_duplicates(),
{
    assert forall|i: int, j: int| 0 <= i < q.len() && 0 <= j < q.len() && i != j implies q[i]
        != q[j] by {
        if i < j {
            if q[i] == q[j] {
                lemma_str_lt_irreflexive(q[i]);
            }
        } else {
            if q[i] == q[j] {
                lemma_str_lt_irreflexive(q[i]);
            }
        }
    }
}

/// Two ascending sequences of the same keys are equal.
pub proof fn lemma_sorted_unique(a: Seq<Seq<char>>, b: Seq<Seq<char>>)
    requires
        sorted_keys(a),
        sorted_keys(b),
        a.to_set() == b.to_set(),
    ensures
        a == b,
    decreases a.len(),
{
    if a.len() == 0 {
        if b.len() > 0 {
            assert(b.to_set().contains(b[0]));
        }
        assert(a =~= b);
    } else {
        assert(a.to_set().contains(a[0]));
        assert(b.to_set().contains(a[0]));
        let j = choose|j: int| 0 <= j < b.len() && b[j] == a[0];
        assert(b.to_set().contains(b[0]));
        assert(a.to_set().contains(b[0]));
        let i = choose|i: int| 0 <= i < a.len() && a[i] == b[0];
        if i > 0 && j > 0 {
            crate::text::lemma_str_lt_asymmetric(a[0], a[i]);
        }
        assert(a[0] == b[0]);
        lemma_sorted_no_duplicates(a);
        lemma_sorted_no_duplicates(b);
        let a1 = a.drop_first();
        let b1 = b.drop_first();
        assert forall|x: Seq<char>| a1.to_set().contains(x) implies b1.to_set().contains(x) by {
            let k = choose|k: int| 0 <= k < a1.len() && a1[k] == x;
            assert(a[k + 1] == x);
            assert(a.to_set().contains(x));
            let m = choose|m: int| 0 <= m < b.len() && b[m] == x;
            assert(x != a[0]);
            assert(m != 0);
            assert(b1[m - 1] == x);
        }
        assert forall|x: Seq<char>| b1.to_set().contains(x) implies a1.to_set().contains(x) by {
            let k = choose|k: int| 0 <= k < b1.len() && b1[k] == x;
            assert(b[k + 1] == x);
            assert(b.to_set().contains(x));
            let m = choose|m: int| 0 <= m < a.len() && a[m] == x;
            assert(x != b[0]);
            assert(m != 0);
            assert(a1[m - 1] == x);
        }
        assert(a1.to_set() =~= b1.to_set());
        lemma_sorted_unique(a1, b1);
        assert(a =~= seq![a[0]] + a1);
        assert(b =~= seq![b[0]] + b1);
    }
}

/// An ascending sequence is the ascending order of its keys.
pub proof fn lemma_sorted_of(q: Seq<Seq<char>>)
    requires
        sorted_keys(q),
    ensures
        sorted_of(q.to_set()) == q,
{
    let r = sorted_of(q.to_set());
    assert(sorted_keys(q) && q.to_set() == q.to_set());
    lemma_sorted_unique(r, q);
}

/// The keys of a list of entries.
pub open spec fn keys_of<V>(entries: Seq<(String, V)>) -> Seq<Seq<char>> {
    entries.map_values(|e: (String, V)| e.0@)
}

/// A map from strings to values that keeps its keys in ascending string order, as
/// a `BTreeMap<String, V>` does.
#[derive(Debug)]
pub struct StrMap<V> {
    entries: Vec<(String, V)>,
}

impl<V> StrMap<V> {
    /// The keys, in the order of the entries.
    pub closed spec fn key_seq(&self) -> Seq<Seq<char>> {
        keys_of(self.entries@)
    }

    /// The values, in the order of the entries.
    pub closed spec fn value_seq(&self) -> Seq<V> {
        self.entries@.map_values(|e: (String, V)| e.1)
    }

    /// The keys are in ascending order.
    pub open spec fn sorted(&self) -> bool {
        sorted_keys(self.key_seq())
    }

    /// Every map keeps its keys in ascending order.
    #[verifier::type_invariant]
    pub open spec fn inv(&self) -> bool {
        self.sorted()
    }

    /// The value that belongs to `k`.
    pub open spec fn lookup(&self, k: Seq<char>) -> Option<V> {
        match self.key_seq().index_of_first(k) {
            Some(i) => Some(self.value_seq()[i]),
            None => None,
        }
    }

    /// The map that the entries stand for.
    pub open spec fn as_map(&self) -> Map<Seq<char>, V> {
        Map::new(|k: Seq<char>| self.lookup(k) is Some, |k: Seq<char>| self.lookup(k)->0)
    }

    /// The keys of the map are those of the entries.
    pub proof fn lemma_dom(&self)
        ensures
            self.as_map().dom() == self.key_seq().to_set(),
            forall|k: Seq<char>| #[trigger] self.key_seq().contains(k) <==> self.lookup(k) is Some,
    {
        assert forall|k: Seq<char>| #[trigger] self.key_seq().contains(k) <==> self.lookup(k) is Some by {
            self.key_seq().index_of_first_ensures(k);
        }
        assert(self.as_map().dom() =~= self.key_seq().to_set());
    }

    pub proof fn lemma_lengths(&self)
        ensures
            self.key_seq().len() == self.value_seq().len(),
    {
    }

    /// In a sorted map a key is found exactly where it stands.
    pub proof fn lemma_lookup_at(&self, i: int)
        requires
            self.sorted(),
            0 <= i < self.key_seq().len(),
        ensures
            self.lookup(self.key_seq()[i]) == Some(self.value_seq()[i]),
    {
        let ks = self.key_seq();
        ks.index_of_first_ensures(ks[i]);
        let j = ks.index_of_first(ks[i]).unwrap();
        if j < i {
            lemma_str_lt_irreflexive(ks[i]);
        }
    }

    /// An empty map.
    pub fn new() -> (m: Self)
        ensures
            m.key_seq() == Seq::<Seq<char>>::empty(),
            m.value_seq() == Seq::<V>::empty(),
            m.sorted(),
            forall|k: Seq<char>| m.lookup(k) is None,
            m.as_map() == Map::<Seq<char>, V>::empty(),
    {
        let m = StrMap { entries: Vec::new() };
        assert(m.key_seq() =~= Seq::<Seq<char>>::empty());
        assert(m.value_seq() =~= Seq::<V>::empty());
        assert forall|k: Seq<char>| m.lookup(k) is None by {
            m.key_seq().index_of_first_ensures(k);
        }
        assert(m.as_map() =~= Map::<Seq<char>, V>::empty());
        m
    }

    /// The number of entries.
    pub fn len(&self) -> (n: usize)
        ensures
            n == self.key_seq().len(),
            n == self.value_seq().len(),
    {
        self.entries.len()
    }

    /// The key of entry `i`.
    pub fn key_at(&self, i: usize) -> (k: &String)
        requires
            i < self.key_seq().len(),
        ensures
            k@ == self.key_seq()[i as int],
    {
        &self.entries[i].0
    }

    /// The value of entry `i`.
    pub fn value_at(&self, i: usize) -> (v: &V)
        requires
            i < self.key_seq().len(),
        ensures
            *v == self.value_seq()[i as int],
    {
        &self.entries[i].1
    }

    /// Adds an entry whose key orders after every key already there.
    pub fn push_back(&mut self, k: String, v: V)
        requires
            old(self).key_seq().len() == 0 || str_lt(old(self).key_seq().last(), k@),
        ensures
            final(self).key_seq() == old(self).key_seq().push(k@),
            final(self).value_seq() == old(self).value_seq().push(v),
            final(self).sorted(),
    {
        proof {
            use_type_invariant(&*self);
        }
        let ghost ks = self.key_seq();
        let ghost kv = k@;
        let mut entries = Vec::new();
        std::mem::swap(&mut entries, &mut self.entries);
        entries.push((k, v));
        assert(keys_of(entries@) =~= ks.push(kv));
        proof {
            assert forall|i: int, j: int| 0 <= i < j < ks.len() + 1 implies str_lt(
                keys_of(entries@)[i],
                keys_of(entries@)[j],
            ) by {
                if j == ks.len() && i < ks.len() - 1 {
                    lemma_str_lt_transitive(ks[i], ks.last(), kv);
                }
            }
        }
        self.entries = entries;
        assert(self.value_seq() =~= old(self).value_seq().push(v));
        proof {
            use_type_invariant(&*self);
        }
    }

    /// The position of the first entry whose key is `k`.
    pub fn find(&self, k: &str) -> (r: Option<usize>)
        ensures
            match r {
                Some(i) => self.key_seq().index_of_first(k@) == Some(i as int),
                None => self.key_seq().index_of_first(k@) is None,
            },
    {
        let ghost ks = self.key_seq();
        proof {
            ks.index_of_first_ensures(k@);
        }
        let mut i: usize = 0;
        while i < self.entries.len()
            invariant
                ks == self.key_seq(),
                i <= ks.len(),
                ks.len() == self.entries@.len(),
                forall|j: int| 0 <= j < i ==> ks[j] != k@,
                match ks.index_of_first(k@) {
                    Some(index) => {
                        &&& ks.contains(k@)
                        &&& 0 <= index < ks.len()
                        &&& ks[index] == k@
                        &&& forall|j: int| 0 <= j < index < ks.len() ==> ks[j] != k@
                    },
                    None => !ks.contains(k@),
                },
            decreases self.entries@.len() - i,
        {
            if str_eq(self.entries[i].0.as_str(), k) {
                assert(ks[i as int] == k@);
                return Some(i);
            }
            i = i + 1;
        }
        None
    }

    /// The value that belongs to `k`, if any.
    pub fn get(&self, k: &str) -> (r: Option<&V>)
        ensures
            match r {
                Some(v) => self.lookup(k@) == Some(*v),
                None => self.lookup(k@) is None,
            },
    {
        proof {
            self.key_seq().index_of_first_ensures(k@);
        }
        match self.find(k) {
            Some(i) => {
                assert(self.value_seq()[i as int] == self.entries@[i as int].1);
                Some(&self.entries[i].1)
            },
            None => None,
        }
    }

    /// Whether some entry has key `k`.
    pub fn contains_key(&self, k: &str) -> (r: bool)
        ensures
            r == self.lookup(k@) is Some,
            r == self.key_seq().contains(k@),
    {
        let ghost ks = self.key_seq();
        proof {
            ks.index_of_first_ensures(k@);
        }
        self.find(k).is_some()
    }

    /// Sets the value of `k` to `v`: an entry with key `k` is replaced, else a new
    /// entry is placed before the first key that does not order before `k`.
    pub fn insert(&mut self, k: String, v: V)
        ensures
            forall|q: Seq<char>| #[trigger] final(self).lookup(q) == if q == k@ {
                Some(v)
            } else {
                old(self).lookup(q)
            },
            final(self).as_map() == old(self).as_map().insert(k@, v),
            final(self).key_seq().to_set() == old(self).key_seq().to_set().insert(k@),
            old(self).key_seq().contains(k@) ==> final(self).key_seq() == old(self).key_seq(),
            final(self).sorted(),
    {
        proof {
            use_type_invariant(&*self);
        }
        let ghost ks = self.key_seq();
        let ghost vs = self.value_seq();
        let mut p: usize = 0;
        while p < self.entries.len() && str_less(self.entries[p].0.as_str(), k.as_str())
            invariant
                ks == self.key_seq(),
                vs == self.value_seq(),
                p <= ks.len(),
                ks.len() == self.entries@.len(),
                forall|j: int| 0 <= j < p ==> str_lt(ks[j], k@),
            decreases self.entries@.len() - p,
        {
            p = p + 1;
        }
        proof {
            assert forall|j: int| 0 <= j < p implies ks[j] != k@ by {
                if ks[j] == k@ {
                    lemma_str_lt_irreflexive(k@);
                }
            }
        }
        let replace = p < self.entries.len() && str_eq(self.entries[p].0.as_str(), k.as_str());
        let ghost kv = k@;
        let mut entries = Vec::new();
        std::mem::swap(&mut entries, &mut self.entries);
        if replace {
            assert(ks[p as int] == kv);
            entries.set(p, (k, v));
            assert(keys_of(entries@) =~= ks);
            self.entries = entries;
            let ghost ks2 = self.key_seq();
            let ghost vs2 = self.value_seq();
            assert(ks2 =~= ks);
            assert(vs2 =~= vs.update(p as int, v));
            assert forall|q: Seq<char>| #[trigger] self.lookup(q) == if q == kv {
                Some(v)
            } else {
                old(self).lookup(q)
            } by {
                ks.index_of_first_ensures(q);
                ks.index_of_first_ensures(kv);
            }
            assert(ks.contains(kv));
            assert(self.key_seq().to_set() =~= ks.to_set().insert(kv));
        } else {
            proof {
                if ks.contains(kv) {
                    let j = choose|j: int| 0 <= j < ks.len() && ks[j] == kv;
                    assert(j >= p);
                    assert(ks[p as int] != kv);
                    lemma_str_lt_total(ks[p as int], kv);
                    lemma_str_lt_transitive(kv, ks[p as int], ks[j]);
                    lemma_str_lt_irreflexive(kv);
                }
            }
            entries.insert(p, (k, v));
            let ghost ks2 = keys_of(entries@);
            assert(ks2 =~= ks.insert(p as int, kv));
            proof {
                if p < ks.len() {
                    lemma_str_lt_total(ks[p as int], kv);
                }
                assert forall|i: int, j: int| 0 <= i < j < ks2.len() implies str_lt(
                    ks2[i],
                    ks2[j],
                ) by {
                    if j < p {
                    } else if i < p && j == p {
                    } else if i < p && j > p {
                        assert(str_lt(ks[i], kv));
                        assert(str_lt(kv, ks[p as int]));
                        if j - 1 > p {
                            lemma_str_lt_transitive(kv, ks[p as int], ks[j - 1]);
                        }
                        lemma_str_lt_transitive(ks[i], kv, ks[j - 1]);
                    } else if i == p {
                        if j - 1 > p {
                            lemma_str_lt_transitive(kv, ks[p as int], ks[j - 1]);
                        }
                    } else {
                        assert(ks2[i] == ks[i - 1]);
                        assert(ks2[j] == ks[j - 1]);
                    }
                }
            }
            self.entries = entries;
            let ghost vs2 = self.value_seq();
            assert(vs2 =~= vs.insert(p as int, v));
            assert forall|q: Seq<char>| #[trigger] self.lookup(q) == if q == kv {
                Some(v)
            } else {
                old(self).lookup(q)
            } by {
                ks.index_of_first_ensures(q);
                ks2.index_of_first_ensures(q);
                if q == kv {
                    assert(ks2[p as int] == kv);
                } else {
                    if ks.contains(q) {
                        let i = ks.index_of_first(q).unwrap();
                        if i < p {
                            assert(ks2[i] == q);
                        } else {
                            assert(ks2[i + 1] == q);
                        }
                        let i2 = ks2.index_of_first(q).unwrap();
                        if i2 < p {
                            assert(ks[i2] == q);
                        } else if i2 > p {
                            assert(ks[i2 - 1] == q);
                        }
                    } else {
                        if ks2.contains(q) {
                            let i2 = ks2.index_of_first(q).unwrap();
                            if i2 < p {
                                assert(ks[i2] == q);
                            } else if i2 > p {
                                assert(ks[i2 - 1] == q);
                            }
                        }
                    }
                }
            }
            assert(self.key_seq().to_set() =~= ks.to_set().insert(kv)) by {
                assert forall|q: Seq<char>| self.key_seq().to_set().contains(q) implies ks.to_set().insert(kv).contains(q) by {
                    let i2 = choose|i2: int| 0 <= i2 < ks2.len() && ks2[i2] == q;
                    if i2 < p {
                        assert(ks[i2] == q);
                    } else if i2 > p {
                        assert(ks[i2 - 1] == q);
                    }
                }
                assert forall|q: Seq<char>| ks.to_set().insert(kv).contains(q) implies self.key_seq().to_set().contains(q) by {
                    if q == kv {
                        assert(ks2[p as int] == q);
                    } else {
                        let i = choose|i: int| 0 <= i < ks.len() && ks[i] == q;
                        if i < p {
                            assert(ks2[i] == q);
                        } else {
                            assert(ks2[i + 1] == q);
                        }
                    }
                }
            }
        }
        assert(self.as_map() =~= old(self).as_map().insert(kv, v));
        proof {
            use_type_invariant(&*self);
        }
    }
}

impl<V: Clone> Clone for StrMap<V> {
    /// The same keys in the same order, each value cloned.
    fn clone(&self) -> (r: Self)
        ensures
            r.key_seq() == self.key_seq(),
            r.value_seq().len() == self.value_seq().len(),
            forall|i: int| 0 <= i < r.value_seq().len() ==> cloned(
                self.value_seq()[i],
                #[trigger] r.value_seq()[i],
            ),
    {
        proof {
            use_type_invariant(self);
        }
        let ghost ks = self.key_seq();
        let ghost vs = self.value_seq();
        let mut entries: Vec<(String, V)> = Vec::new();
        let mut i: usize = 0;
        while i < self.entries.len()
            invariant
                ks == self.key_seq(),
                vs == self.value_seq(),
                ks.len() == self.entries@.len(),
                i <= ks.len(),
                keys_of(entries@) == ks.take(i as int),
                entries@.len() == i,
                forall|j: int| 0 <= j < i ==> cloned(vs[j], #[trigger] entries@[j].1),
            decreases ks.len() - i,
        {
            let k = self.entries[i].0.clone();
            let v = self.entries[i].1.clone();
            entries.push((k, v));
            assert(keys_of(entries@) =~= ks.take(i + 1));
            i = i + 1;
        }
        assert(ks.take(ks.len() as int) =~= ks);
        let r = StrMap { entries };
        assert forall|j: int| 0 <= j < r.value_seq().len() implies cloned(vs[j], #[trigger] r.value_seq()[j]) by {
            assert(r.value_seq()[j] == entries@[j].1);
        }
        r
    }
}

impl<V: View> StrMap<V> {
    /// The map, with each value taken by its view.
    pub open spec fn view_map(&self) -> Map<Seq<char>, V::V> {
        self.as_map().map_values(|v: V| v@)
    }
}

} // verus!
