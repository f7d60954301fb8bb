//! A map from text keys to values, kept as two parallel lists with distinct keys.
use vstd::prelude::*;
use crate::text::same_text;

verus! {

/// A map keyed by text. Lookups compare keys by their characters; each key occurs once.
pub struct Table<V> {
    keys: Vec<String>,
    vals: Vec<V>,
}

impl<V> Table<V> {
    /// The keys, in the order the entries are kept.
    pub closed spec fn key_seq(&self) -> Seq<Seq<char>> {
        self.keys@.map_values(|k: String| k@)
    }

    /// The values, in the order the entries are kept.
    pub closed spec fn val_seq(&self) -> Seq<V> {
        self.vals@
    }

    /// As many keys as values, and no key twice.
    pub closed spec fn wf(&self) -> bool {
        &&& self.keys@.len() == self.vals@.len()
        &&& forall|i: int, j: int|
            0 <= i < self.keys@.len() && 0 <= j < self.keys@.len() && i != j
                ==> #[trigger] self.keys@[i]@ != #[trigger] self.keys@[j]@
    }

    /// The number of entries.
    pub open spec fn spec_len(&self) -> nat {
        self.key_seq().len()
    }

    /// Where `k` is kept.
    pub closed spec fn position(&self, k: Seq<char>) -> int {
        choose|i: int| 0 <= i < self.key_seq().len() && self.key_seq()[i] == k
    }

    proof fn lemma_position(&self, i: int)
        requires
            self.wf(),
            0 <= i < self.key_seq().len(),
        ensures
            self.position(self.key_seq()[i]) == i,
            self.val_seq().len() == self.key_seq().len(),
    {
        let k = self.key_seq()[i];
        assert(self.keys@[i]@ == k);
        let j = self.position(k);
        assert(self.keys@[j]@ == k);
    }

    /// Creates an empty table.
    pub fn new() -> (r: Self)
        ensures
            r.wf(),
            r@ == Map::<Seq<char>, V>::empty(),
            r.key_seq() == Seq::<Seq<char>>::empty(),
    {
        let r = Table { keys: Vec::new(), vals: Vec::new() };
        assert(r@ =~= Map::<Seq<char>, V>::empty());
        r
    }

    /// The number of entries.
    pub fn len(&self) -> (r: usize)
        requires
            self.wf(),
        ensures
            r == self.spec_len(),
            r == self@.len(),
    {
        proof {
            self.lemma_keys_finite();
        }
        self.keys.len()
    }

    proof fn lemma_keys_finite(&self)
        requires
            self.wf(),
        ensures
            self@.dom() == self.key_seq().to_set(),
            self@.len() == self.key_seq().len(),
    {
        assert(self@.dom() =~= self.key_seq().to_set());
        assert(self.key_seq().no_duplicates()) by {
            assert forall|i: int, j: int| 0 <= i < self.key_seq().len() && 0 <= j < self.key_seq().len() && i != j
                implies self.key_seq()[i] != self.key_seq()[j] by {
                assert(self.keys@[i]@ != self.keys@[j]@);
            }
        }
        self.key_seq().unique_seq_to_set();
    }

    /// Where `k` is kept, if it is.
    pub fn find(&self, k: &str) -> (r: Option<usize>)
        requires
            self.wf(),
        ensures
            r is Some <==> self@.contains_key(k@),
            r matches Some(i) ==> i < self.spec_len() && self.key_seq()[i as int] == k@
                && self@[k@] == self.val_seq()[i as int],
    {
        let mut i: usize = 0;
        while i < self.keys.len()
            invariant
                i <= self.keys@.len(),
                self.wf(),
                forall|j: int| 0 <= j < i ==> self.key_seq()[j] != k@,
            decreases self.keys@.len() - i,
        {
            assert(self.key_seq()[i as int] == self.keys@[i as int]@);
            if same_text(self.keys[i].as_str(), k) {
                proof { self.lemma_position(i as int); }
                return Some(i);
            }
            i = i + 1;
        }
        proof {
            if self.key_seq().contains(k@) {
                let j = self.key_seq().index_of(k@);
                assert(self.key_seq()[j] == k@);
            }
        }
        None
    }
}

impl<V> Table<V> {
    /// Whether `k` has an entry.
    pub fn contains_key(&self, k: &str) -> (r: bool)
        requires
            self.wf(),
        ensures
            r == self@.contains_key(k@),
    {
        self.find(k).is_some()
    }

    /// The value kept under `k`, if any.
    pub fn get(&self, k: &str) -> (r: Option<&V>)
        requires
            self.wf(),
        ensures
            match r {
                Some(v) => self@.contains_key(k@) && *v == self@[k@],
                None => !self@.contains_key(k@),
            },
    {
        match self.find(k) {
            Some(i) => Some(&self.vals[i]),
            None => None,
        }
    }

    /// The key of the entry kept at `i`.
    pub fn key_at(&self, i: usize) -> (r: &String)
        requires
            self.wf(),
            i < self.spec_len(),
        ensures
            r@ == self.key_seq()[i as int],
            self@.contains_key(r@),
    {
        assert(self.key_seq()[i as int] == self.keys@[i as int]@);
        &self.keys[i]
    }

    /// The value of the entry kept at `i`.
    pub fn value_at(&self, i: usize) -> (r: &V)
        requires
            self.wf(),
            i < self.spec_len(),
        ensures
            *r == self.val_seq()[i as int],
            *r == self@[self.key_seq()[i as int]],
    {
        proof { self.lemma_position(i as int); }
        &self.vals[i]
    }

    /// Keeps `v` under `k`, in place of any value kept there before.
    pub fn insert(&mut self, k: String, v: V)
        requires
            old(self).wf(),
        ensures
            final(self).wf(),
            final(self)@ == old(self)@.insert(k@, v),
    {
        let ghost ok = k@;
        match self.find(k.as_str()) {
            Some(i) => {
                self.vals.set(i, v);
                proof {
                    assert(self.key_seq() =~= old(self).key_seq());
                    assert forall|j: int| 0 <= j < self.key_seq().len() implies
                        self.val_seq()[self.position(self.key_seq()[j])] == old(self)@.insert(ok, v)[self.key_seq()[j]] by {
                        self.lemma_position(j);
                        old(self).lemma_position(j);
                    }
                    assert(self@ =~= old(self)@.insert(ok, v));
                }
            },
            None => {
                self.keys.push(k);
                self.vals.push(v);
                proof {
                    assert(self.key_seq() =~= old(self).key_seq().push(ok));
                    assert forall|i: int, j: int|
                        0 <= i < self.keys@.len() && 0 <= j < self.keys@.len() && i != j
                            implies #[trigger] self.keys@[i]@ != #[trigger] self.keys@[j]@ by {
                        if i < old(self).keys@.len() && j < old(self).keys@.len() {
                            assert(old(self).keys@[i]@ != old(self).keys@[j]@);
                        } else if i < old(self).keys@.len() {
                            assert(old(self).key_seq()[i] == old(self).keys@[i]@);
                        } else {
                            assert(old(self).key_seq()[j] == old(self).keys@[j]@);
                        }
                    }
                    assert forall|j: int| 0 <= j < self.key_seq().len() implies
                        self.val_seq()[self.position(self.key_seq()[j])] == old(self)@.insert(ok, v)[self.key_seq()[j]] by {
                        self.lemma_position(j);
                        if j < old(self).key_seq().len() {
                            old(self).lemma_position(j);
                        }
                    }
                    assert forall|kk: Seq<char>| #[trigger] self@.contains_key(kk) implies
                        old(self)@.insert(ok, v).contains_key(kk) && self@[kk] == old(self)@.insert(ok, v)[kk] by {
                        let j = self.key_seq().index_of(kk);
                        assert(self.key_seq()[j] == kk);
                    }
                    assert forall|kk: Seq<char>| #[trigger] old(self)@.insert(ok, v).contains_key(kk) implies
                        self@.contains_key(kk) by {
                        if kk == ok {
                            assert(self.key_seq()[self.key_seq().len() - 1] == ok);
                        } else {
                            let j = old(self).key_seq().index_of(kk);
                            assert(self.key_seq()[j] == kk);
                        }
                    }
                    assert(self@ =~= old(self)@.insert(ok, v));
                }
            },
        }
    }

    /// Removes the entry of `k` and gives back its value, if there was one.
    pub fn take(&mut self, k: &str) -> (r: Option<V>)
        requires
            old(self).wf(),
        ensures
            final(self).wf(),
            final(self)@ == old(self)@.remove(k@),
            match r {
                Some(v) => old(self)@.contains_key(k@) && v == old(self)@[k@],
                None => !old(self)@.contains_key(k@),
            },
    {
        match self.find(k) {
            Some(i) => {
                let _ = self.keys.remove(i);
                let v = self.vals.remove(i);
                proof {
                    assert(self.key_seq() =~= old(self).key_seq().remove(i as int));
                    assert forall|a: int, b: int|
                        0 <= a < self.keys@.len() && 0 <= b < self.keys@.len() && a != b
                            implies #[trigger] self.keys@[a]@ != #[trigger] self.keys@[b]@ by {
                        let a0 = if a < i { a } else { a + 1 };
                        let b0 = if b < i { b } else { b + 1 };
                        assert(old(self).keys@[a0]@ != old(self).keys@[b0]@);
                    }
                    assert forall|j: int| 0 <= j < self.key_seq().len() implies
                        self.val_seq()[self.position(self.key_seq()[j])] == old(self)@.remove(k@)[self.key_seq()[j]] by {
                        self.lemma_position(j);
                        let j0 = if j < i { j } else { j + 1 };
                        old(self).lemma_position(j0);
                        assert(old(self).key_seq()[j0] == self.key_seq()[j]);
                        assert(old(self).key_seq()[j0] != k@);
                    }
                    assert forall|kk: Seq<char>| self@.contains_key(kk) <==> old(self)@.remove(k@).contains_key(kk) by {
                        if self.key_seq().contains(kk) {
                            let j = self.key_seq().index_of(kk);
                            let j0 = if j < i { j } else { j + 1 };
                            assert(old(self).key_seq()[j0] == kk);
                            assert(old(self).key_seq()[j0] != k@) by {
                                old(self).lemma_position(j0);
                            }
                        }
                        if old(self).key_seq().contains(kk) && kk != k@ {
                            let j0 = old(self).key_seq().index_of(kk);
                            assert(j0 != i);
                            let j = if j0 < i { j0 } else { j0 - 1 };
                            assert(self.key_seq()[j] == kk);
                        }
                    }
                    assert(self@ =~= old(self)@.remove(k@));
                }
                Some(v)
            },
            None => {
                assert(self@ =~= old(self)@.remove(k@));
                None
            },
        }
    }

    /// Removes every entry.
    pub fn clear(&mut self)
        requires
            old(self).wf(),
        ensures
            final(self).wf(),
            final(self)@ == Map::<Seq<char>, V>::empty(),
    {
        self.keys.clear();
        self.vals.clear();
        assert(self@ =~= Map::<Seq<char>, V>::empty());
    }
}

impl<V> View for Table<V> {
    type V = Map<Seq<char>, V>;

    /// The table as a map from keys to values.
    open spec fn view(&self) -> Map<Seq<char>, V> {
        Map::new(
            |k: Seq<char>| self.key_seq().contains(k),
            |k: Seq<char>| self.val_seq()[self.position(k)],
        )
    }
}

} // verus!
