//! `StringMap`: a string-keyed map that remembers insertion order.
use vstd::prelude::*;

verus! {

broadcast use vstd::string::group_string_axioms;

/// A map from string keys to values with no duplicate keys. Entries keep
/// the order in which their keys were first inserted; iteration follows
/// that order.
#[derive(Debug, PartialEq, Eq)]
pub struct StringMap<V> {
    entries: Vec<(String, V)>,
}

/// The key views of a sequence of entries.
pub open spec fn keys_of<V>(s: Seq<(String, V)>) -> Seq<Seq<char>> {
    s.map_values(|e: (String, V)| e.0@)
}

/// The map that inserting `pairs` one by one produces (later pairs win).
pub open spec fn map_of_pairs<V>(pairs: Seq<(String, V)>) -> Map<Seq<char>, V>
    decreases pairs.len(),
{
    if pairs.len() == 0 {
        Map::empty()
    } else {
        map_of_pairs(pairs.drop_last()).insert(pairs.last().0@, pairs.last().1)
    }
}

impl<V> StringMap<V> {
    #[verifier::type_invariant]
    closed spec fn keys_unique(&self) -> bool {
        keys_of(self.entries@).no_duplicates()
    }

    /// The entries, in order.
    pub closed spec fn pairs(&self) -> Seq<(String, V)> {
        self.entries@
    }

    /// The keys, in order.
    pub open spec fn keys(&self) -> Seq<Seq<char>> {
        keys_of(self.pairs())
    }

    /// Position of `k` among the keys (meaningful when present).
    pub open spec fn index_of_key(&self, k: Seq<char>) -> int {
        self.keys().index_of(k)
    }

    /// An empty map.
    pub fn new() -> (r: Self)
        ensures
            r@ == Map::<Seq<char>, V>::empty(),
            r.pairs().len() == 0,
    {
        let r = StringMap { entries: Vec::new() };
        assert(r@ =~= Map::<Seq<char>, V>::empty());
        r
    }

    /// Number of entries.
    pub fn len(&self) -> (r: usize)
        ensures
            r == self.pairs().len(),
            r == self@.dom().len(),
            self.keys().no_duplicates(),
            self@.dom().finite(),
    {
        proof {
            use_type_invariant(self);
            self.lemma_len();
        }
        self.entries.len()
    }

    /// `true` when there are no entries.
    pub fn is_empty(&self) -> (r: bool)
        ensures
            r == (self.pairs().len() == 0),
            r == (self@.dom().len() == 0),
    {
        proof {
            use_type_invariant(self);
            self.lemma_len();
        }
        self.entries.len() == 0
    }

    /// The number of entries equals the number of keys in the map view.
    pub proof fn lemma_len(&self)
        requires
            self.keys().no_duplicates(),
        ensures
            self@.dom().len() == self.pairs().len(),
            self@.dom().finite(),
    {
        let ks = self.keys();
        assert(self@.dom() =~= ks.to_set());
        ks.unique_seq_to_set();
    }

    /// The keys of the map view are the keys of the entries.
    pub proof fn lemma_dom(&self)
        ensures
            self@.dom() == self.keys().to_set(),
    {
        assert(self@.dom() =~= self.keys().to_set());
    }

    /// The key of entry `i`.
    pub fn key_at(&self, i: usize) -> (r: &String)
        requires
            i < self.pairs().len(),
        ensures
            r == self.pairs()[i as int].0,
    {
        &self.entries[i].0
    }

    /// The value of entry `i`.
    pub fn value_at(&self, i: usize) -> (r: &V)
        requires
            i < self.pairs().len(),
        ensures
            r == self.pairs()[i as int].1,
    {
        &self.entries[i].1
    }

    fn find(&self, key: &str) -> (r: Option<usize>)
        ensures
            r matches Some(i) ==> i < self.pairs().len() && self.keys()[i as int] == key@,
            r is None ==> !self.keys().contains(key@),
    {
        let mut i: usize = 0;
        while i < self.entries.len()
            invariant
                i <= self.entries@.len(),
                forall|j: int| 0 <= j < i ==> self.keys()[j] != key@,
            decreases self.entries.len() - i,
        {
            if crate::text::str_eq(self.entries[i].0.as_str(), key) {
                return Some(i);
            }
            i += 1;
        }
        None
    }

    /// The value stored under `key`, if any.
    pub fn get(&self, key: &str) -> (r: Option<&V>)
        ensures
            r matches Some(v) ==> self@.contains_key(key@) && *v == self@[key@],
            r is None ==> !self@.contains_key(key@),
    {
        proof {
            use_type_invariant(self);
        }
        match self.find(key) {
            Some(i) => {
                proof {
                    self.lemma_view_at(i as int);
                }
                Some(&self.entries[i].1)
            },
            None => None,
        }
    }

    /// `true` when `key` is present.
    pub fn contains_key(&self, key: &str) -> (r: bool)
        ensures
            r == self@.contains_key(key@),
            self@.dom().finite(),
    {
        proof {
            use_type_invariant(self);
            self.lemma_len();
        }
        self.find(key).is_some()
    }

    /// Entry `i` is what the map view holds for its key.
    pub proof fn lemma_view_at(&self, i: int)
        requires
            0 <= i < self.pairs().len(),
            self.keys().no_duplicates(),
        ensures
            self@.contains_key(self.pairs()[i].0@),
            self@[self.pairs()[i].0@] == self.pairs()[i].1,
            self.index_of_key(self.pairs()[i].0@) == i,
    {
        let k = self.pairs()[i].0@;
        assert(self.keys()[i] == k);
        let j = self.keys().index_of(k);
        assert(0 <= j < self.keys().len() && self.keys()[j] == k);
        assert(j == i);
    }

    /// Inserts or overwrites `key`. A new key goes last; an existing key
    /// keeps its position.
    pub fn insert(&mut self, key: String, value: V)
        ensures
            final(self)@ == old(self)@.insert(key@, value),
            old(self)@.contains_key(key@) ==> final(self).keys() == old(self).keys(),
            !old(self)@.contains_key(key@) ==> final(self).keys() == old(self).keys().push(key@),
            old(self)@.dom().finite(),
            final(self)@.dom().finite(),
    {
        proof {
            use_type_invariant(&*self);
            self.lemma_len();
        }
        let found = self.find(key.as_str());
        let mut es: Vec<(String, V)> = Vec::new();
        std::mem::swap(&mut es, &mut self.entries);
        let ghost old_pairs = es@;
        match found {
            Some(i) => {
                es.set(i, (key, value));
                assert(keys_of(es@) =~= keys_of(old_pairs));
            },
            None => {
                es.push((key, value));
                assert(keys_of(es@) =~= keys_of(old_pairs).push(key@));
            },
        }
        self.entries = es;
        proof {
            let ok = keys_of(old_pairs);
            let nk = keys_of(self.entries@);
            assert forall|k: Seq<char>| #[trigger] self@.contains_key(k) == old(self)@.insert(key@, value).contains_key(k) by {
                if k == key@ {
                    if let Some(i) = found {
                        assert(nk[i as int] == k);
                    } else {
                        assert(nk[nk.len() - 1] == k);
                    }
                } else if ok.contains(k) {
                    let j = choose|j: int| 0 <= j < ok.len() && ok[j] == k;
                    assert(nk[j] == k);
                } else if nk.contains(k) {
                    let j = choose|j: int| 0 <= j < nk.len() && nk[j] == k;
                    if j < ok.len() {
                        assert(ok[j] == k);
                    }
                }
            }
            assert forall|k: Seq<char>| #[trigger] self@.contains_key(k) implies self@[k] == old(self)@.insert(key@, value)[k] by {
                let j = nk.index_of(k);
                assert(0 <= j < nk.len() && nk[j] == k);
                if k == key@ {
                    if let Some(i) = found {
                        assert(nk[i as int] == k);
                        assert(j == i);
                    } else {
                        assert(nk[nk.len() - 1] == k);
                        assert(j == nk.len() - 1);
                    }
                } else {
                    assert(j < ok.len());
                    assert(ok[j] == k);
                    let oj = ok.index_of(k);
                    assert(0 <= oj < ok.len() && ok[oj] == k);
                    assert(nk[oj] == k);
                    assert(oj == j);
                }
            }
        }
        assert(self@ =~= old(self)@.insert(key@, value));
        assert(self@.dom() =~= old(self)@.dom().insert(key@));
    }

    /// Builds a map from `pairs`, inserting in order; later duplicates win.
    pub fn from_pairs(pairs: Vec<(String, V)>) -> (r: Self)
        ensures
            r@ == map_of_pairs(pairs@),
    {
        let mut m = StringMap::new();
        let ghost all = pairs@;
        let mut rest = pairs;
        let mut rev: Vec<(String, V)> = Vec::new();
        // Reverse so that pairs can be taken from the end in their original order.
        while rest.len() > 0
            invariant
                rest@ + rev@.reverse() == all,
            decreases rest.len(),
        {
            let p = rest.pop().unwrap();
            let ghost r0 = rev@;
            rev.push(p);
            assert(rev@.reverse() =~= seq![p] + r0.reverse());
        }
        assert(rev@.reverse() == all);
        let ghost n = all.len();
        while rev.len() > 0
            invariant
                n == all.len(),
                rev@.len() <= n,
                rev@.reverse() == all.skip(n - rev@.len()),
                m@ == map_of_pairs(all.take(n - rev@.len())),
            decreases rev.len(),
        {
            let ghost k = n - rev@.len();
            let ghost before = rev@;
            let (key, value) = rev.pop().unwrap();
            assert(before == rev@.push((key, value)));
            assert(before.reverse() =~= seq![(key, value)] + rev@.reverse());
            assert(all.skip(k) =~= seq![all[k]] + all.skip(k + 1));
            assert((seq![(key, value)] + rev@.reverse()).skip(1) =~= rev@.reverse());
            assert(all.skip(k).skip(1) =~= all.skip(k + 1));
            assert(all[k] == (key, value)) by {
                assert(all.skip(k)[0] == all[k]);
            }
            m.insert(key, value);
            assert(all.take(k + 1).drop_last() =~= all.take(k));
            assert(all.take(k + 1).last() == all[k]);
            assert(rev@.reverse() =~= all.skip(n - rev@.len()));
        }
        assert(all.take(n as int) =~= all);
        m
    }
}

impl<V: Clone> Clone for StringMap<V> {
    /// A copy with the same keys in the same order, each value cloned.
    fn clone(&self) -> (r: Self)
        ensures
            r.keys() == self.keys(),
            r.pairs().len() == self.pairs().len(),
            forall|i: int| 0 <= i < self.pairs().len() ==> cloned(self.pairs()[i].1, #[trigger] r.pairs()[i].1),
    {
        proof {
            use_type_invariant(self);
        }
        let mut es: Vec<(String, V)> = Vec::new();
        let mut i: usize = 0;
        while i < self.entries.len()
            invariant
                i <= self.entries@.len(),
                es@.len() == i,
                keys_of(es@) == keys_of(self.entries@).take(i as int),
                forall|j: int| 0 <= j < i ==> cloned(self.entries@[j].1, #[trigger] es@[j].1),
            decreases self.entries.len() - i,
        {
            let k = self.entries[i].0.clone();
            let v = self.entries[i].1.clone();
            es.push((k, v));
            assert(keys_of(es@) =~= keys_of(self.entries@).take(i + 1));
            i += 1;
        }
        assert(keys_of(es@) =~= keys_of(self.entries@));
        StringMap { entries: es }
    }
}

impl StringMap<String> {
    /// A clone of a map of strings has the same view as the original.
    pub proof fn lemma_clone_same_view(&self, other: &Self)
        requires
            other.keys() == self.keys(),
            other.pairs().len() == self.pairs().len(),
            forall|i: int| 0 <= i < self.pairs().len() ==> cloned(self.pairs()[i].1, #[trigger] other.pairs()[i].1),
        ensures
            other@ == self@,
    {
        assert forall|i: int| 0 <= i < self.pairs().len() implies other.pairs()[i].1 == self.pairs()[i].1 by {
            assert(cloned(self.pairs()[i].1, other.pairs()[i].1));
        }
        assert(other@ =~= self@);
    }
}

impl<V> View for StringMap<V> {
    type V = Map<Seq<char>, V>;

    closed spec fn view(&self) -> Map<Seq<char>, V> {
        Map::new(
            |k: Seq<char>| keys_of(self.entries@).contains(k),
            |k: Seq<char>| self.entries@[keys_of(self.entries@).index_of(k)].1,
        )
    }
}

} // verus!
