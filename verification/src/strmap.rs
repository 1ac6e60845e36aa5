use vstd::prelude::*;

verus! {

/// True when `k` is the view of some key in the pair sequence.
pub open spec fn has_key<V>(s: Seq<(String, V)>, k: Seq<char>) -> bool {
    exists|i: int| 0 <= i < s.len() && #[trigger] s[i].0@ == k
}

/// Index of the pair whose key has view `k` (meaningful only when `has_key`).
pub open spec fn index_of_key<V>(s: Seq<(String, V)>, k: Seq<char>) -> int {
    choose|i: int| 0 <= i < s.len() && #[trigger] s[i].0@ == k
}

/// Value paired with the key whose view is `k` (meaningful only when `has_key`).
pub open spec fn value_of<V>(s: Seq<(String, V)>, k: Seq<char>) -> V {
    s[index_of_key(s, k)].1
}

/// No two pairs share a key.
pub open spec fn keys_unique<V>(s: Seq<(String, V)>) -> bool {
    forall|i: int, j: int| 0 <= i < j < s.len() ==> #[trigger] s[i].0@ != #[trigger] s[j].0@
}

/// A string-keyed map stored as a vector of key/value pairs with pairwise
/// distinct keys; it denotes the finite map `Map<Seq<char>, V>`.
pub struct StrMap<V> {
    pairs: Vec<(String, V)>,
}

impl<V> StrMap<V> {
    pub closed spec fn view(&self) -> Map<Seq<char>, V> {
        Map::new(|k: Seq<char>| has_key(self.pairs@, k), |k: Seq<char>| value_of(self.pairs@, k))
    }

    /// Well-formedness: keys are pairwise distinct.
    pub closed spec fn wf(&self) -> bool {
        keys_unique(self.pairs@)
    }

    /// The pair sequence backing the map, for iteration-style access.
    pub closed spec fn spec_pairs(&self) -> Seq<(String, V)> {
        self.pairs@
    }

    pub fn new() -> (r: StrMap<V>)
        ensures
            r.wf(),
            r@ == Map::<Seq<char>, V>::empty(),
            r.spec_pairs() == Seq::<(String, V)>::empty(),
    {
        let r = StrMap { pairs: Vec::new() };
        proof {
            assert(r@ =~= Map::<Seq<char>, V>::empty());
        }
        r
    }

    pub fn len(&self) -> (n: usize)
        requires
            self.wf(),
        ensures
            n == self.spec_pairs().len(),
            n == self@.dom().len(),
    {
        proof {
            self.lemma_dom_len();
        }
        self.pairs.len()
    }

    /// Number of entries, as the length of the backing sequence.
    proof fn lemma_dom_len(&self)
        requires
            self.wf(),
        ensures
            self@.dom().finite(),
            self@.dom().len() == self.pairs@.len(),
    {
        self.lemma_dom_len_rec(self.pairs@, self@);
    }

    proof fn lemma_dom_len_rec(&self, sub: Seq<(String, V)>, m_sub: Map<Seq<char>, V>)
        requires
            keys_unique(sub),
            m_sub == Map::new(|k: Seq<char>| has_key(sub, k), |k: Seq<char>| value_of(sub, k)),
        ensures
            m_sub.dom().finite(),
            m_sub.dom().len() == sub.len(),
        decreases sub.len(),
    {
        if sub.len() == 0 {
            assert(m_sub.dom() =~= Set::<Seq<char>>::empty());
        } else {
            let s2 = sub.drop_last();
            let m2 = Map::new(|k: Seq<char>| has_key(s2, k), |k: Seq<char>| value_of(s2, k));
            self.lemma_dom_len_rec(s2, m2);
            assert(m_sub.dom() =~= m2.dom().insert(sub.last().0@)) by {
                assert forall|k: Seq<char>| m_sub.dom().contains(k) implies
                    m2.dom().contains(k) || k == sub.last().0@ by {
                    let i = choose|i: int| 0 <= i < sub.len() && #[trigger] sub[i].0@ == k;
                    if i < sub.len() - 1 {
                        assert(s2[i].0@ == k);
                    }
                }
                assert forall|k: Seq<char>| m2.dom().contains(k) implies m_sub.dom().contains(k) by {
                    let i = choose|i: int| 0 <= i < s2.len() && #[trigger] s2[i].0@ == k;
                    assert(sub[i].0@ == k);
                }
                assert(sub[sub.len() - 1].0@ == sub.last().0@);
            }
            assert(!m2.dom().contains(sub.last().0@)) by {
                if has_key(s2, sub.last().0@) {
                    let i = choose|i: int| 0 <= i < s2.len() && #[trigger] s2[i].0@ == sub.last().0@;
                    assert(sub[i].0@ == sub[sub.len() - 1].0@);
                }
            }
            vstd::set::axiom_set_insert_finite(m2.dom(), sub.last().0@);
            vstd::set::axiom_set_insert_len(m2.dom(), sub.last().0@);
        }
    }

    /// Key of the `i`-th stored pair.
    pub fn key_at(&self, i: usize) -> (k: &String)
        requires
            self.wf(),
            i < self.spec_pairs().len(),
        ensures
            k@ == self.spec_pairs()[i as int].0@,
            self@.contains_key(k@),
            self@[k@] == self.spec_pairs()[i as int].1,
    {
        proof {
            self.lemma_entry_at(i as int);
        }
        &self.pairs[i].0
    }

    /// Value of the `i`-th stored pair.
    pub fn value_at(&self, i: usize) -> (v: &V)
        requires
            self.wf(),
            i < self.spec_pairs().len(),
        ensures
            v == self.spec_pairs()[i as int].1,
            self@.contains_key(self.spec_pairs()[i as int].0@),
            self@[self.spec_pairs()[i as int].0@] == self.spec_pairs()[i as int].1,
    {
        proof {
            self.lemma_entry_at(i as int);
        }
        &self.pairs[i].1
    }

    /// Each stored pair is an entry of the denoted map.
    pub proof fn lemma_entry_at(&self, i: int)
        requires
            self.wf(),
            0 <= i < self.spec_pairs().len(),
        ensures
            self@.contains_key(self.spec_pairs()[i].0@),
            self@[self.spec_pairs()[i].0@] == self.spec_pairs()[i].1,
    {
        let s = self.pairs@;
        let k = s[i].0@;
        assert(has_key(s, k));
        let j = index_of_key(s, k);
        assert(0 <= j < s.len() && s[j].0@ == k);
        if i != j {
            if i < j {
                assert(s[i].0@ != s[j].0@);
            } else {
                assert(s[j].0@ != s[i].0@);
            }
        }
    }

    /// Every key of the denoted map is the key of some stored pair.
    pub proof fn lemma_key_has_index(&self, k: Seq<char>)
        requires
            self.wf(),
            self@.contains_key(k),
        ensures
            0 <= index_of_key(self.spec_pairs(), k) < self.spec_pairs().len(),
            self.spec_pairs()[index_of_key(self.spec_pairs(), k)].0@ == k,
            self.spec_pairs()[index_of_key(self.spec_pairs(), k)].1 == self@[k],
    {
    }

    pub fn contains_key(&self, key: &String) -> (r: bool)
        requires
            self.wf(),
        ensures
            r == self@.contains_key(key@),
    {
        self.get(key).is_some()
    }

    pub fn get(&self, key: &String) -> (r: Option<&V>)
        requires
            self.wf(),
        ensures
            match r {
                Some(v) => self@.contains_key(key@) && *v == self@[key@],
                None => !self@.contains_key(key@),
            },
    {
        let n = self.pairs.len();
        for i in 0..n
            invariant
                n == self.pairs@.len(),
                self.wf(),
                forall|j: int| 0 <= j < i ==> #[trigger] self.pairs@[j].0@ != key@,
        {
            if self.pairs[i].0.eq(key) {
                proof {
                    self.lemma_entry_at(i as int);
                }
                return Some(&self.pairs[i].1);
            }
        }
        proof {
            if self@.contains_key(key@) {
                let i = choose|i: int| 0 <= i < self.pairs@.len() && #[trigger] self.pairs@[i].0@ == key@;
                assert(self.pairs@[i].0@ != key@);
            }
        }
        None
    }

    /// Insert `value` under `key`, overwriting an existing entry.
    pub fn insert(&mut self, key: String, value: V)
        requires
            old(self).wf(),
        ensures
            final(self).wf(),
            final(self)@ =~= old(self)@.insert(key@, value),
    {
        let n = self.pairs.len();
        for i in 0..n
            invariant
                n == self.pairs@.len(),
                self.wf(),
                *self == *old(self),
                forall|j: int| 0 <= j < i ==> #[trigger] self.pairs@[j].0@ != key@,
        {
            if self.pairs[i].0.eq(&key) {
                let ghost s_old = self.pairs@;
                self.pairs.set(i, (key, value));
                proof {
                    let s = self.pairs@;
                    assert forall|p: int, q: int| 0 <= p < q < s.len() implies s[p].0@ != s[q].0@ by {
                        assert(s_old[p].0@ != s_old[q].0@);
                    }
                    assert forall|k2: Seq<char>| true implies
                        (has_key(s, k2) <==> old(self)@.insert(s[i as int].0@, value).contains_key(k2)) by {
                        if has_key(s, k2) {
                            let j = choose|j: int| 0 <= j < s.len() && #[trigger] s[j].0@ == k2;
                            if j != i {
                                assert(s_old[j].0@ == k2);
                            }
                        }
                        if old(self)@.contains_key(k2) {
                            let j = choose|j: int| 0 <= j < s_old.len() && #[trigger] s_old[j].0@ == k2;
                            if j != i {
                                assert(s[j].0@ == k2);
                            } else {
                                assert(s[i as int].0@ == k2);
                            }
                        }
                    }
                    assert forall|k2: Seq<char>| has_key(s, k2) implies
                        value_of(s, k2) == old(self)@.insert(s[i as int].0@, value)[k2] by {
                        let j = index_of_key(s, k2);
                        if j == i {
                        } else {
                            assert(s[j] == s_old[j]);
                            assert(s_old[j].0@ == k2);
                            let j2 = index_of_key(s_old, k2);
                            if j2 < j {
                                assert(s_old[j2].0@ != s_old[j].0@);
                            } else if j2 > j {
                                assert(s_old[j].0@ != s_old[j2].0@);
                            }
                            assert(j2 == j);
                            if i < j {
                                assert(s_old[i as int].0@ != s_old[j].0@);
                            } else {
                                assert(s_old[j].0@ != s_old[i as int].0@);
                            }
                        }
                    }
                    assert(final(self)@ =~= old(self)@.insert(key@, value));
                }
                return;
            }
        }
        let ghost s_old = self.pairs@;
        self.pairs.push((key, value));
        proof {
            let s = self.pairs@;
            assert forall|p: int, q: int| 0 <= p < q < s.len() implies s[p].0@ != s[q].0@ by {
                if q < s.len() - 1 {
                    assert(s_old[p].0@ != s_old[q].0@);
                } else {
                    assert(s_old[p].0@ != s.last().0@);
                }
            }
            assert forall|k2: Seq<char>| true implies
                (has_key(s, k2) <==> old(self)@.insert(s.last().0@, value).contains_key(k2)) by {
                if has_key(s, k2) {
                    let j = choose|j: int| 0 <= j < s.len() && #[trigger] s[j].0@ == k2;
                    if j < s.len() - 1 {
                        assert(s_old[j].0@ == k2);
                    }
                }
                if old(self)@.contains_key(k2) {
                    let j = choose|j: int| 0 <= j < s_old.len() && #[trigger] s_old[j].0@ == k2;
                    assert(s[j].0@ == k2);
                }
            }
            assert forall|k2: Seq<char>| has_key(s, k2) implies
                value_of(s, k2) == old(self)@.insert(s.last().0@, value)[k2] by {
                let j = index_of_key(s, k2);
                if j == s.len() - 1 {
                } else {
                    assert(s_old[j].0@ == k2);
                    let j2 = index_of_key(s_old, k2);
                    if j2 < j {
                        assert(s_old[j2].0@ != s_old[j].0@);
                    } else if j2 > j {
                        assert(s_old[j].0@ != s_old[j2].0@);
                    }
                    assert(s_old[j].0@ != s.last().0@);
                }
            }
            assert(final(self)@ =~= old(self)@.insert(key@, value));
        }
    }

    /// Remove the entry under `key`, if any.
    pub fn remove(&mut self, key: &String)
        requires
            old(self).wf(),
        ensures
            final(self).wf(),
            final(self)@ =~= old(self)@.remove(key@),
    {
        let n = self.pairs.len();
        for i in 0..n
            invariant
                n == self.pairs@.len(),
                self.wf(),
                *self == *old(self),
                forall|j: int| 0 <= j < i ==> #[trigger] self.pairs@[j].0@ != key@,
        {
            if self.pairs[i].0.eq(key) {
                let ghost s_old = self.pairs@;
                let _ = self.pairs.remove(i);
                proof {
                    let s = self.pairs@;
                    assert(s =~= s_old.subrange(0, i as int) + s_old.subrange(i as int + 1, s_old.len() as int));
                    assert forall|p: int, q: int| 0 <= p < q < s.len() implies s[p].0@ != s[q].0@ by {
                        let p2: int = if p < i { p } else { p + 1 };
                        let q2: int = if q < i { q } else { q + 1 };
                        assert(s[p] == s_old[p2]);
                        assert(s[q] == s_old[q2]);
                        assert(s_old[p2].0@ != s_old[q2].0@);
                    }
                    assert forall|k2: Seq<char>| true implies
                        (has_key(s, k2) <==> old(self)@.remove(key@).contains_key(k2)) by {
                        if has_key(s, k2) {
                            let j = choose|j: int| 0 <= j < s.len() && #[trigger] s[j].0@ == k2;
                            let j2: int = if j < i { j } else { j + 1 };
                            assert(s_old[j2].0@ == k2);
                            if j2 == i {
                            } else {
                                if j2 < i {
                                    assert(s_old[j2].0@ != s_old[i as int].0@);
                                } else {
                                    assert(s_old[i as int].0@ != s_old[j2].0@);
                                }
                            }
                        }
                        if old(self)@.contains_key(k2) && k2 != key@ {
                            let j = choose|j: int| 0 <= j < s_old.len() && #[trigger] s_old[j].0@ == k2;
                            assert(j != i);
                            let j2: int = if j < i { j } else { j - 1 };
                            assert(s[j2] == s_old[j]);
                            assert(s[j2].0@ == k2);
                        }
                    }
                    assert forall|k2: Seq<char>| has_key(s, k2) implies
                        value_of(s, k2) == old(self)@.remove(key@)[k2] by {
                        let j = index_of_key(s, k2);
                        let j2: int = if j < i { j } else { j + 1 };
                        assert(s[j] == s_old[j2]);
                        assert(s_old[j2].0@ == k2);
                        let j3 = index_of_key(s_old, k2);
                        if j3 < j2 {
                            assert(s_old[j3].0@ != s_old[j2].0@);
                        } else if j3 > j2 {
                            assert(s_old[j2].0@ != s_old[j3].0@);
                        }
                        assert(j3 == j2);
                    }
                    assert(final(self)@ =~= old(self)@.remove(key@));
                }
                return;
            }
        }
        proof {
            if self@.contains_key(key@) {
                let i = choose|i: int| 0 <= i < self.pairs@.len() && #[trigger] self.pairs@[i].0@ == key@;
                assert(self.pairs@[i].0@ != key@);
            }
            assert(final(self)@ =~= old(self)@.remove(key@));
        }
    }
}

} // verus!
