//! A map keyed by strings, kept as a vector of entries in which no key occurs
//! twice, and viewed as a mathematical map from char sequences.
use vstd::prelude::*;
use crate::text::str_eq;

verus! {

/// A string-keyed map. Its entries hold distinct keys (see `wf`).
pub struct StrMap<V> {
    entries: Vec<(String, V)>,
}

impl<V> StrMap<V> {
    /// The keys in the order in which they stand in the entries.
    pub closed spec fn keys(&self) -> Seq<Seq<char>> {
        self.entries@.map_values(|e: (String, V)| e.0@)
    }

    /// The value stored at position `i` of the entries.
    pub closed spec fn value_seq(&self) -> Seq<V> {
        self.entries@.map_values(|e: (String, V)| e.1)
    }

    /// No key occurs twice.
    pub closed spec fn wf(&self) -> bool {
        self.keys().no_duplicates()
    }

    /// The position of key `k` among the entries.
    spec fn position_of(&self, k: Seq<char>) -> int {
        choose|i: int| 0 <= i < self.keys().len() && self.keys()[i] == k
    }

    proof fn lemma_position_of(&self, i: int)
        requires
            self.wf(),
            0 <= i < self.keys().len(),
        ensures
            self.position_of(self.keys()[i]) == i,
    {
        let k = self.keys()[i];
        assert(0 <= i < self.keys().len() && self.keys()[i] == k);
        let j = self.position_of(k);
        assert(0 <= j < self.keys().len() && self.keys()[j] == k);
    }

    /// The keys, the values and the view agree: `keys()` lists the view's keys
    /// without repetition, and position `i` holds the value of `keys()[i]`.
    pub proof fn lemma_entries(&self)
        requires
            self.wf(),
        ensures
            self.keys().no_duplicates(),
            self.keys().len() == self.value_seq().len(),
            self.keys().len() == self@.len(),
            self@.dom() == self.keys().to_set(),
            forall|k: Seq<char>| #[trigger] self@.contains_key(k) <==> self.keys().contains(k),
            forall|i: int|
                0 <= i < self.keys().len() ==> #[trigger] self@[self.keys()[i]]
                    == self.value_seq()[i],
    {
        assert(self@.dom() =~= self.keys().to_set());
        self.keys().unique_seq_to_set();
        assert forall|i: int| 0 <= i < self.keys().len() implies #[trigger] self@[self.keys()[i]]
            == self.value_seq()[i] by {
            self.lemma_position_of(i);
        }
    }

    /// An empty map.
    pub fn new() -> (m: Self)
        ensures
            m.wf(),
            m@ == Map::<Seq<char>, V>::empty(),
            m.keys() == Seq::<Seq<char>>::empty(),
    {
        let m = StrMap { entries: Vec::new() };
        assert(m.keys() =~= Seq::<Seq<char>>::empty());
        assert(m@ =~= Map::<Seq<char>, V>::empty());
        m
    }

    /// The number of keys.
    pub fn len(&self) -> (n: usize)
        requires
            self.wf(),
        ensures
            n == self@.len(),
            n == self.keys().len(),
    {
        proof {
            self.lemma_entries();
        }
        self.entries.len()
    }

    /// The position of `key` among the entries, if it is there.
    fn find(&self, key: &str) -> (r: Option<usize>)
        ensures
            match r {
                Some(i) => i < self.keys().len() && self.keys()[i as int] == key@,
                None => !self.keys().contains(key@),
            },
    {
        let mut i: usize = 0;
        while i < self.entries.len()
            invariant
                i <= self.entries@.len(),
                forall|j: int| 0 <= j < i ==> self.keys()[j] != key@,
            decreases self.entries@.len() - i,
        {
            if str_eq(self.entries[i].0.as_str(), key) {
                return Some(i);
            }
            i += 1;
        }
        None
    }

    /// `key` has a value.
    pub fn contains_key(&self, key: &str) -> (r: bool)
        requires
            self.wf(),
        ensures
            r == self@.contains_key(key@),
    {
        proof {
            self.lemma_entries();
        }
        self.find(key).is_some()
    }

    /// The value of `key`, if it has one.
    pub fn get(&self, key: &str) -> (r: Option<&V>)
        requires
            self.wf(),
        ensures
            match r {
                Some(v) => self@.contains_key(key@) && *v == self@[key@],
                None => !self@.contains_key(key@),
            },
    {
        proof {
            self.lemma_entries();
        }
        match self.find(key) {
            Some(i) => Some(&self.entries[i].1),
            None => None,
        }
    }

    /// The key at position `i` of the entries.
    pub fn key_at(&self, i: usize) -> (k: &String)
        requires
            i < self.keys().len(),
        ensures
            k@ == self.keys()[i as int],
    {
        &self.entries[i].0
    }

    /// The value at position `i` of the entries.
    pub fn value_at(&self, i: usize) -> (v: &V)
        requires
            i < self.keys().len(),
        ensures
            *v == self.value_seq()[i as int],
    {
        &self.entries[i].1
    }

    /// Gives `key` the value `value`, in place of any value it had. A key
    /// already there keeps its position; a new key goes last.
    pub fn insert(&mut self, key: String, value: V)
        requires
            old(self).wf(),
        ensures
            final(self).wf(),
            final(self)@ == old(self)@.insert(key@, value),
            old(self).keys().contains(key@) ==> final(self).keys() == old(self).keys(),
            !old(self).keys().contains(key@) ==> final(self).keys() == old(self).keys().push(key@),
            !old(self).keys().contains(key@) ==> final(self).value_seq() == old(
                self,
            ).value_seq().push(value),
    {
        let ghost k = key@;
        match self.find(key.as_str()) {
            Some(i) => {
                let ghost old_self = *self;
                self.entries.set(i, (key, value));
                assert(self.keys() =~= old_self.keys());
                proof {
                    assert forall|kk: Seq<char>| #[trigger]
                        self@.contains_key(kk) implies self@[kk] == old_self@.insert(k, value)[kk] by {
                        let j = old_self.position_of(kk);
                        assert(self.keys().contains(kk));
                        assert(0 <= j < self.keys().len() && self.keys()[j] == kk);
                        old_self.lemma_position_of(j);
                        self.lemma_position_of(j);
                        if j == i {
                        } else {
                            assert(kk != k);
                        }
                    }
                    assert(self@ =~= old_self@.insert(k, value));
                }
            },
            None => {
                let ghost old_self = *self;
                self.entries.push((key, value));
                assert(self.keys() =~= old_self.keys().push(k));
                assert(self.value_seq() =~= old_self.value_seq().push(value));
                proof {
                    let n = old_self.keys().len() as int;
                    assert forall|kk: Seq<char>| #[trigger]
                        self@.contains_key(kk) implies self@[kk] == old_self@.insert(k, value)[kk] by {
                        let j = self.position_of(kk);
                        assert(self.keys().contains(kk));
                        assert(0 <= j < self.keys().len() && self.keys()[j] == kk);
                        self.lemma_position_of(j);
                        if j == n {
                        } else {
                            old_self.lemma_position_of(j);
                            assert(old_self.keys()[j] == kk);
                        }
                    }
                    assert forall|kk: Seq<char>| #[trigger]
                        old_self@.insert(k, value).contains_key(kk) implies self@.contains_key(kk) by {
                        if kk != k {
                            let j = old_self.position_of(kk);
                            assert(old_self.keys().contains(kk));
                            assert(self.keys()[j] == kk);
                        } else {
                            assert(self.keys()[n] == kk);
                        }
                    }
                    assert(self@ =~= old_self@.insert(k, value));
                }
            },
        }
    }

    /// Takes `key` and its value out of the map, if it is there; the other
    /// keys keep their order.
    pub fn remove(&mut self, key: &str)
        requires
            old(self).wf(),
        ensures
            final(self).wf(),
            final(self)@ == old(self)@.remove(key@),
            forall|i: int|
                0 <= i < old(self).keys().len() && #[trigger] old(self).keys()[i] == key@
                    ==> final(self).keys() == old(self).keys().remove(i),
            !old(self).keys().contains(key@) ==> final(self).keys() == old(self).keys(),
    {
        let ghost k = key@;
        match self.find(key) {
            Some(i) => {
                let ghost old_self = *self;
                self.entries.remove(i);
                assert(self.keys() =~= old_self.keys().remove(i as int));
                assert forall|j: int|
                    0 <= j < old_self.keys().len() && #[trigger] old_self.keys()[j] == k implies j
                    == i by {
                    assert(old_self.keys().no_duplicates());
                }
                proof {
                    assert forall|kk: Seq<char>| #[trigger]
                        self@.contains_key(kk) implies self@[kk] == old_self@.remove(k)[kk] by {
                        let j = self.position_of(kk);
                        assert(self.keys().contains(kk));
                        assert(0 <= j < self.keys().len() && self.keys()[j] == kk);
                        self.lemma_position_of(j);
                        let oj = if j < i { j } else { j + 1 };
                        assert(old_self.keys()[oj] == kk);
                        old_self.lemma_position_of(oj);
                        assert(kk != k);
                    }
                    assert forall|kk: Seq<char>| #[trigger]
                        old_self@.remove(k).contains_key(kk) implies self@.contains_key(kk) by {
                        let oj = old_self.position_of(kk);
                        assert(old_self.keys().contains(kk));
                        assert(0 <= oj < old_self.keys().len() && old_self.keys()[oj] == kk);
                        assert(oj != i);
                        let j = if oj < i { oj } else { oj - 1 };
                        assert(self.keys()[j] == kk);
                    }
                    assert(self@ =~= old_self@.remove(k));
                }
            },
            None => {
                assert(self@ =~= self@.remove(k));
            },
        }
    }

    /// Takes every key out of the map.
    pub fn clear(&mut self)
        ensures
            final(self).wf(),
            final(self)@ == Map::<Seq<char>, V>::empty(),
            final(self).keys() == Seq::<Seq<char>>::empty(),
    {
        self.entries.clear();
        assert(self.keys() =~= Seq::<Seq<char>>::empty());
        assert(self@ =~= Map::<Seq<char>, V>::empty());
    }
}

impl<V> View for StrMap<V> {
    type V = Map<Seq<char>, V>;

    closed spec fn view(&self) -> Map<Seq<char>, V> {
        Map::new(
            |k: Seq<char>| self.keys().contains(k),
            |k: Seq<char>| self.value_seq()[self.position_of(k)],
        )
    }
}

} // verus!
