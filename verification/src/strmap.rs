//! An ordered map from text keys to values: the entries stay in ascending
//! key order, the order in which `BTreeMap<String, _>` keeps them.

use crate::text::{chars_of, compare_text, key_lt, lemma_key_lt_irreflexive, lemma_key_lt_total,
    lemma_key_lt_transitive, KeyOrder};
use vstd::prelude::*;

verus! {

/// Whether the keys `ks` are strictly ascending.
pub open spec fn ascending(ks: Seq<Seq<char>>) -> bool {
    forall|i: int, j: int| 0 <= i < j < ks.len() ==> key_lt(#[trigger] ks[i], #[trigger] ks[j])
}

/// In strictly ascending keys, a key occurs at one index only.
pub proof fn lemma_ascending_unique(ks: Seq<Seq<char>>, i: int, j: int)
    requires
        ascending(ks),
        0 <= i < ks.len(),
        0 <= j < ks.len(),
        ks[i] == ks[j],
    ensures
        i == j,
{
    lemma_key_lt_irreflexive(ks[i]);
    if i < j {
        assert(key_lt(ks[i], ks[j]));
    } else if j < i {
        assert(key_lt(ks[j], ks[i]));
    }
}

/// One more element of a sequence's prefix.
pub proof fn lemma_take_contains<A>(s: Seq<A>, i: int, k: A)
    requires
        0 <= i < s.len(),
    ensures
        s.take(i + 1).contains(k) <==> s.take(i).contains(k) || k == s[i],
{
    let t1 = s.take(i + 1);
    let t0 = s.take(i);
    if t1.contains(k) {
        let j = choose|j: int| 0 <= j < t1.len() && t1[j] == k;
        if j < i {
            assert(t0[j] == k);
        }
    }
    if t0.contains(k) {
        let j = choose|j: int| 0 <= j < t0.len() && t0[j] == k;
        assert(t1[j] == k);
    }
    if k == s[i] {
        assert(t1[i] == k);
    }
}

/// A map from text keys to values, in ascending key order.
pub struct StrMap<V> {
    entries: Vec<(String, V)>,
}

/// The keys of the entries `es`, in order.
pub open spec fn entry_keys<V>(es: Seq<(String, V)>) -> Seq<Seq<char>> {
    es.map_values(|e: (String, V)| e.0@)
}

/// The index at which `k` stands among the keys `ks`.
pub open spec fn key_pos(ks: Seq<Seq<char>>, k: Seq<char>) -> int {
    choose|i: int| 0 <= i < ks.len() && ks[i] == k
}

/// The map that the entries `es` hold.
pub open spec fn entries_map<V: View>(es: Seq<(String, V)>) -> Map<Seq<char>, V::V> {
    Map::new(
        |k: Seq<char>| entry_keys(es).contains(k),
        |k: Seq<char>| es[key_pos(entry_keys(es), k)].1@,
    )
}

pub proof fn lemma_key_pos<V>(es: Seq<(String, V)>, i: int)
    requires
        ascending(entry_keys(es)),
        0 <= i < es.len(),
    ensures
        key_pos(entry_keys(es), es[i].0@) == i,
{
    let ks = entry_keys(es);
    assert(ks[i] == es[i].0@);
    let j = key_pos(ks, es[i].0@);
    lemma_ascending_unique(ks, i, j);
}

/// The value that the entries `es` give key `es[i].0`.
pub proof fn lemma_entries_map_at<V: View>(es: Seq<(String, V)>, i: int)
    requires
        ascending(entry_keys(es)),
        0 <= i < es.len(),
    ensures
        entries_map(es).contains_key(es[i].0@),
        entries_map(es)[es[i].0@] == es[i].1@,
{
    lemma_key_pos(es, i);
    assert(entry_keys(es)[i] == es[i].0@);
}

impl<V> StrMap<V> {
    /// The keys, in ascending order.
    pub closed spec fn keys(&self) -> Seq<Seq<char>> {
        entry_keys(self.entries@)
    }

    #[verifier::type_invariant]
    closed spec fn keys_ascending(&self) -> bool {
        ascending(entry_keys(self.entries@))
    }
}

impl<V: View> View for StrMap<V> {
    type V = Map<Seq<char>, V::V>;

    closed spec fn view(&self) -> Map<Seq<char>, V::V> {
        entries_map(self.entries@)
    }
}

impl<V: View> StrMap<V> {
    /// An empty map.
    pub fn new() -> (m: Self)
        ensures
            m@ == Map::<Seq<char>, V::V>::empty(),
            m.keys() == Seq::<Seq<char>>::empty(),
    {
        let m = StrMap { entries: Vec::new() };
        assert(m.keys() =~= Seq::<Seq<char>>::empty());
        assert(m@ =~= Map::<Seq<char>, V::V>::empty());
        m
    }

    /// The number of entries; the keys are ascending and are the map's keys.
    pub fn len(&self) -> (n: usize)
        ensures
            n == self.keys().len(),
            ascending(self.keys()),
            forall|k: Seq<char>| self@.contains_key(k) <==> self.keys().contains(k),
            self@.dom().finite(),
            self@.dom().len() == n,
    {
        proof {
            use_type_invariant(self);
            let ks = self.keys();
            assert(ks.no_duplicates()) by {
                assert forall|i: int, j: int|
                    0 <= i < ks.len() && 0 <= j < ks.len() && i != j implies ks[i] != ks[j] by {
                    if ks[i] == ks[j] {
                        lemma_ascending_unique(ks, i, j);
                    }
                }
            }
            ks.unique_seq_to_set();
            assert(self@.dom() =~= ks.to_set());
        }
        self.entries.len()
    }

    /// Whether the map has no entries.
    pub fn is_empty(&self) -> (b: bool)
        ensures
            b <==> self.keys().len() == 0,
            b <==> self@.dom() == Set::<Seq<char>>::empty(),
    {
        proof {
            use_type_invariant(self);
            if self.keys().len() > 0 {
                assert(self@.dom().contains(self.keys()[0]));
            } else {
                assert(self@.dom() =~= Set::<Seq<char>>::empty());
            }
        }
        self.entries.len() == 0
    }

    /// The entry at position `i` in key order.
    pub fn entry_at(&self, i: usize) -> (e: (&String, &V))
        requires
            i < self.keys().len(),
        ensures
            e.0@ == self.keys()[i as int],
            self@.contains_key(e.0@),
            self@[e.0@] == e.1@,
    {
        proof {
            use_type_invariant(self);
            lemma_entries_map_at(self.entries@, i as int);
        }
        let e = &self.entries[i];
        (&e.0, &e.1)
    }

    /// The position of `k` among the keys, if it is one of them.
    fn find(&self, k: &str) -> (r: Option<usize>)
        ensures
            match r {
                Some(i) => i < self.keys().len() && self.keys()[i as int] == k@,
                None => !self.keys().contains(k@),
            },
    {
        let kc = chars_of(k);
        let n = self.entries.len();
        let mut i: usize = 0;
        while i < n
            invariant
                n == self.entries.len(),
                i <= n,
                kc@ == k@,
                forall|j: int| 0 <= j < i ==> self.keys()[j] != k@,
            decreases n - i,
        {
            let ec = chars_of(self.entries[i].0.as_str());
            match compare_text(&ec, &kc) {
                KeyOrder::Equal => {
                    return Some(i);
                },
                _ => {},
            }
            i = i + 1;
        }
        None
    }

    /// Where `kc` belongs among the keys: the first position whose key is
    /// not below it, and whether the key there is `kc` itself.
    fn locate(&self, kc: &Vec<char>) -> (r: (usize, bool))
        ensures
            r.0 <= self.keys().len(),
            forall|j: int| 0 <= j < r.0 ==> key_lt(#[trigger] self.keys()[j], kc@),
            r.1 ==> r.0 < self.keys().len() && self.keys()[r.0 as int] == kc@,
            !r.1 ==> r.0 == self.keys().len() || key_lt(kc@, self.keys()[r.0 as int]),
    {
        let n = self.entries.len();
        let mut i: usize = 0;
        while i < n
            invariant
                n == self.entries.len(),
                i <= n,
                forall|j: int| 0 <= j < i ==> key_lt(#[trigger] self.keys()[j], kc@),
            decreases n - i,
        {
            let ec = chars_of(self.entries[i].0.as_str());
            match compare_text(&ec, kc) {
                KeyOrder::Less => {},
                KeyOrder::Equal => {
                    return (i, true);
                },
                KeyOrder::Greater => {
                    return (i, false);
                },
            }
            i = i + 1;
        }
        (i, false)
    }

    /// Sets key `k` to `v`, in place of any value it had.
    pub fn insert(&mut self, k: String, v: V)
        ensures
            final(self)@ == old(self)@.insert(k@, v@),
    {
        proof {
            use_type_invariant(&*self);
        }
        let kc = chars_of(k.as_str());
        let (p, found) = self.locate(&kc);
        let ghost ks = self.keys();
        let ghost old_es = self.entries@;
        let ghost old_map = self@;
        let mut es: Vec<(String, V)> = Vec::new();
        std::mem::swap(&mut es, &mut self.entries);
        assert(es@ == old_es);
        if found {
            es.remove(p);
        }
        let ghost k_view = k@;
        let ghost v_view = v@;
        es.insert(p, (k, v));
        proof {
            let nks = entry_keys(es@);
            if found {
                assert(nks =~= ks.update(p as int, k_view));
            } else {
                assert(nks =~= ks.insert(p as int, k_view));
                assert forall|i: int, j: int| 0 <= i < j < nks.len() implies key_lt(
                    #[trigger] nks[i],
                    #[trigger] nks[j],
                ) by {
                    if j < p {
                    } else if i > p {
                        assert(key_lt(ks[i - 1], ks[j - 1]));
                    } else if i == p {
                        if j - 1 > p {
                            assert(key_lt(ks[p as int], ks[j - 1]));
                            lemma_key_lt_transitive(k_view, ks[p as int], ks[j - 1]);
                        }
                    } else if j == p {
                        assert(key_lt(ks[i], k_view));
                    } else {
                        assert(key_lt(ks[i], ks[j - 1]));
                    }
                }
            }
            assert(ascending(nks));
            let target = old_map.insert(k_view, v_view);
            assert forall|q: Seq<char>| #[trigger] entries_map(es@).contains_key(q)
                <==> target.contains_key(q) by {
                if entries_map(es@).contains_key(q) {
                    let j = choose|j: int| 0 <= j < nks.len() && nks[j] == q;
                    if q != k_view {
                        if found {
                            assert(ks[j] == q);
                        } else if j < p {
                            assert(ks[j] == q);
                        } else {
                            assert(ks[j - 1] == q);
                        }
                    }
                }
                if target.contains_key(q) && q != k_view {
                    let j = choose|j: int| 0 <= j < ks.len() && ks[j] == q;
                    if found || j < p {
                        assert(nks[j] == q);
                    } else {
                        assert(nks[j + 1] == q);
                    }
                }
                if q == k_view {
                    assert(nks[p as int] == q);
                }
            }
            assert forall|q: Seq<char>| #[trigger] entries_map(es@).contains_key(q)
                implies entries_map(es@)[q] == target[q] by {
                let j = choose|j: int| 0 <= j < nks.len() && nks[j] == q;
                lemma_entries_map_at(es@, j);
                if j == p {
                    assert(es@[j].1@ == v_view);
                } else {
                    let oj = if found || j < p { j } else { j - 1 };
                    assert(es@[j] == old_es[oj]);
                    assert(ks[oj] == q);
                    lemma_entries_map_at(old_es, oj);
                    if q == k_view {
                        lemma_ascending_unique(nks, j, p as int);
                    }
                }
            }
            assert(entries_map(es@) =~= target);
        }
        self.entries = es;
    }

    /// Removes key `k`, giving back its value.
    pub fn remove(&mut self, k: &str) -> (r: Option<V>)
        ensures
            final(self)@ == old(self)@.remove(k@),
            match r {
                Some(v) => old(self)@.contains_key(k@) && old(self)@[k@] == v@,
                None => !old(self)@.contains_key(k@),
            },
    {
        proof {
            use_type_invariant(&*self);
        }
        match self.find(k) {
            None => {
                assert(self@ =~= self@.remove(k@));
                None
            },
            Some(p) => {
                let ghost ks = self.keys();
                let ghost old_es = self.entries@;
                let ghost old_map = self@;
                proof {
                    lemma_entries_map_at(old_es, p as int);
                }
                let mut es: Vec<(String, V)> = Vec::new();
                std::mem::swap(&mut es, &mut self.entries);
                let e = es.remove(p);
                proof {
                    let nks = entry_keys(es@);
                    assert(nks =~= ks.remove(p as int));
                    assert forall|i: int, j: int| 0 <= i < j < nks.len() implies key_lt(
                        #[trigger] nks[i],
                        #[trigger] nks[j],
                    ) by {
                        let oi = if i < p { i } else { i + 1 };
                        let oj = if j < p { j } else { j + 1 };
                        assert(key_lt(ks[oi], ks[oj]));
                    }
                    let target = old_map.remove(k@);
                    assert forall|q: Seq<char>| #[trigger] entries_map(es@).contains_key(q)
                        <==> target.contains_key(q) by {
                        if entries_map(es@).contains_key(q) {
                            let j = choose|j: int| 0 <= j < nks.len() && nks[j] == q;
                            let oj = if j < p { j } else { j + 1 };
                            assert(ks[oj] == q);
                            if q == k@ {
                                lemma_ascending_unique(ks, oj, p as int);
                            }
                        }
                        if target.contains_key(q) {
                            let j = choose|j: int| 0 <= j < ks.len() && ks[j] == q;
                            if j < p {
                                assert(nks[j] == q);
                            } else {
                                assert(j != p);
                                assert(nks[j - 1] == q);
                            }
                        }
                    }
                    assert forall|q: Seq<char>| #[trigger] entries_map(es@).contains_key(q)
                        implies entries_map(es@)[q] == target[q] by {
                        let j = choose|j: int| 0 <= j < nks.len() && nks[j] == q;
                        let oj = if j < p { j } else { j + 1 };
                        lemma_entries_map_at(es@, j);
                        assert(es@[j] == old_es[oj]);
                        lemma_entries_map_at(old_es, oj);
                    }
                    assert(entries_map(es@) =~= target);
                }
                self.entries = es;
                Some(e.1)
            },
        }
    }

    /// Whether `k` is a key.
    pub fn contains_key(&self, k: &str) -> (b: bool)
        ensures
            b == self@.contains_key(k@),
    {
        self.find(k).is_some()
    }

    /// The value of key `k`, if any.
    pub fn get(&self, k: &str) -> (r: Option<&V>)
        ensures
            match r {
                Some(v) => self@.contains_key(k@) && self@[k@] == v@,
                None => !self@.contains_key(k@),
            },
    {
        proof {
            use_type_invariant(self);
        }
        match self.find(k) {
            Some(i) => {
                proof {
                    lemma_entries_map_at(self.entries@, i as int);
                }
                Some(&self.entries[i].1)
            },
            None => None,
        }
    }

    /// The smallest key, if any.
    pub fn first_key(&self) -> (r: Option<&String>)
        ensures
            match r {
                Some(s) => {
                    &&& self@.contains_key(s@)
                    &&& self.keys()[0] == s@
                    &&& forall|k: Seq<char>| #[trigger]
                        self@.contains_key(k) ==> k == s@ || key_lt(s@, k)
                },
                None => self@.dom() == Set::<Seq<char>>::empty(),
            },
    {
        proof {
            use_type_invariant(self);
        }
        if self.entries.len() == 0 {
            assert(self@.dom() =~= Set::<Seq<char>>::empty());
            None
        } else {
            proof {
                let ks = self.keys();
                assert(ks[0] == self.entries@[0].0@);
                assert forall|k: Seq<char>| #[trigger] self@.contains_key(k) implies k == ks[0]
                    || key_lt(ks[0], k) by {
                    let j = choose|j: int| 0 <= j < ks.len() && ks[j] == k;
                    if j > 0 {
                        assert(key_lt(ks[0], ks[j]));
                    }
                }
            }
            Some(&self.entries[0].0)
        }
    }
}


impl StrMap<String> {
    /// The entries whose value is not `v`.
    pub fn without_value(&self, v: &str) -> (r: Self)
        ensures
            r@ == Map::new(
                |k: Seq<char>| self@.contains_key(k) && self@[k] != v@,
                |k: Seq<char>| self@[k],
            ),
    {
        let mut r: StrMap<String> = StrMap::new();
        let n = self.len();
        let ghost ks = self.keys();
        let ghost m = self@;
        for i in 0..n
            invariant
                n == ks.len(),
                ks == self.keys(),
                m == self@,
                forall|k: Seq<char>| m.contains_key(k) <==> ks.contains(k),
                forall|k: Seq<char>| #[trigger]
                    r@.contains_key(k) <==> ks.take(i as int).contains(k) && m[k] != v@,
                forall|k: Seq<char>| #[trigger] r@.contains_key(k) ==> r@[k] == m[k],
        {
            let (k, x) = self.entry_at(i);
            proof {
                assert forall|q: Seq<char>| ks.take(i + 1).contains(q) <==> ks.take(
                    i as int,
                ).contains(q) || q == ks[i as int] by {
                    lemma_take_contains(ks, i as int, q);
                }
            }
            let ghost before = r@;
            if !crate::text::same_text(x.as_str(), v) {
                r.insert(k.clone(), x.clone());
            }
            assert forall|q: Seq<char>| #[trigger]
                r@.contains_key(q) <==> ks.take(i + 1).contains(q) && m[q] != v@ by {
                lemma_take_contains(ks, i as int, q);
                assert(r@.contains_key(q) <==> before.contains_key(q) || (q == ks[i as int]
                    && m[q] != v@));
            }
        }
        assert(ks.take(n as int) =~= ks);
        assert(r@ =~= Map::new(
            |k: Seq<char>| self@.contains_key(k) && self@[k] != v@,
            |k: Seq<char>| self@[k],
        ));
        r
    }

    /// The same entries with every value `from` changed to `to`.
    pub fn with_value_replaced(&self, from: &str, to: &String) -> (r: Self)
        ensures
            r@ == self@.map_values(
                |x: Seq<char>|
                    if x == from@ {
                        to@
                    } else {
                        x
                    },
            ),
    {
        let mut r: StrMap<String> = StrMap::new();
        let n = self.len();
        let ghost ks = self.keys();
        let ghost m = self@;
        let ghost target = m.map_values(
            |x: Seq<char>|
                if x == from@ {
                    to@
                } else {
                    x
                },
        );
        for i in 0..n
            invariant
                n == ks.len(),
                ks == self.keys(),
                m == self@,
                target == m.map_values(
                    |x: Seq<char>|
                        if x == from@ {
                            to@
                        } else {
                            x
                        },
                ),
                forall|k: Seq<char>| m.contains_key(k) <==> ks.contains(k),
                forall|k: Seq<char>| #[trigger] r@.contains_key(k) <==> ks.take(i as int).contains(k),
                forall|k: Seq<char>| #[trigger] r@.contains_key(k) ==> r@[k] == target[k],
        {
            let (k, x) = self.entry_at(i);
            proof {
                assert forall|q: Seq<char>| ks.take(i + 1).contains(q) <==> ks.take(
                    i as int,
                ).contains(q) || q == ks[i as int] by {
                    lemma_take_contains(ks, i as int, q);
                }
            }
            let ghost before = r@;
            if crate::text::same_text(x.as_str(), from) {
                r.insert(k.clone(), to.clone());
            } else {
                r.insert(k.clone(), x.clone());
            }
            assert forall|q: Seq<char>| #[trigger] r@.contains_key(q) <==> ks.take(i + 1).contains(q) by {
                lemma_take_contains(ks, i as int, q);
                assert(r@.contains_key(q) <==> before.contains_key(q) || q == ks[i as int]);
            }
        }
        assert(ks.take(n as int) =~= ks);
        assert(r@ =~= target);
        r
    }
}

impl Clone for StrMap<String> {
    /// A copy with the same entries.
    fn clone(&self) -> (r: Self)
        ensures
            r@ == self@,
            r.keys() == self.keys(),
    {
        proof {
            use_type_invariant(self);
        }
        let n = self.entries.len();
        let mut es: Vec<(String, String)> = Vec::new();
        for i in 0..n
            invariant
                n == self.entries.len(),
                es@.len() == i,
                forall|j: int| 0 <= j < i ==> (#[trigger] es@[j]).0@ == self.entries@[j].0@
                    && es@[j].1@ == self.entries@[j].1@,
        {
            let e = &self.entries[i];
            let ghost before = es@;
            es.push((e.0.clone(), e.1.clone()));
            assert forall|j: int| 0 <= j < i + 1 implies (#[trigger] es@[j]).0@
                == self.entries@[j].0@ && es@[j].1@ == self.entries@[j].1@ by {
                if j < i {
                    assert(es@[j] == before[j]);
                }
            }
        }
        assert(entry_keys(es@) =~= entry_keys(self.entries@));
        proof {
            assert forall|q: Seq<char>| #[trigger] entries_map(es@).contains_key(q)
                implies entries_map(es@)[q] == entries_map(self.entries@)[q] by {
                let j = choose|j: int| 0 <= j < es@.len() && entry_keys(es@)[j] == q;
                lemma_entries_map_at(es@, j);
                lemma_entries_map_at(self.entries@, j);
            }
            assert(entries_map(es@) =~= entries_map(self.entries@));
        }
        StrMap { entries: es }
    }
}

} // verus!
