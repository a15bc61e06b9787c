//! A table from text keys to values, each key at most once.
use vstd::prelude::*;
use crate::text::same_text;

verus! {

/// The index of the first `k` in `ks`, or -1.
pub open spec fn position(ks: Seq<Seq<char>>, k: Seq<char>) -> int
    decreases ks.len(),
{
    if ks.len() == 0 {
        -1
    } else if ks.last() == k {
        let i = position(ks.drop_last(), k);
        if i >= 0 {
            i
        } else {
            ks.len() - 1
        }
    } else {
        position(ks.drop_last(), k)
    }
}

pub proof fn lemma_position(ks: Seq<Seq<char>>, k: Seq<char>)
    ensures
        position(ks, k) >= 0 ==> position(ks, k) < ks.len() && ks[position(ks, k)] == k,
        position(ks, k) < 0 ==> position(ks, k) == -1 && !ks.contains(k),
        ks.contains(k) ==> position(ks, k) >= 0,
    decreases ks.len(),
{
    if ks.len() > 0 {
        let t = ks.drop_last();
        lemma_position(t, k);
        if ks.contains(k) {
            let j = choose|j: int| 0 <= j < ks.len() && ks[j] == k;
            if j < ks.len() - 1 {
                assert(t[j] == k);
            }
        }
        if !t.contains(k) && ks.last() != k {
            assert forall|j: int| 0 <= j < ks.len() implies ks[j] != k by {
                if j < ks.len() - 1 {
                    assert(t[j] == ks[j]);
                }
            }
        }
    }
}

/// A table from text keys to values.
pub struct Table<V> {
    keys: Vec<String>,
    vals: Vec<V>,
}

impl<V> Table<V> {
    pub closed spec fn key_texts(&self) -> Seq<Seq<char>> {
        self.keys@.map_values(|s: String| s@)
    }

    /// The keys are distinct and each has its value.
    pub closed spec fn wf(&self) -> bool {
        &&& self.keys@.len() == self.vals@.len()
        &&& forall|i: int, j: int|
            0 <= i < j < self.keys@.len() ==> #[trigger] self.keys@[i]@ != #[trigger] self.keys@[j]@
    }

    /// The table as a map from key texts to values.
    pub closed spec fn view(&self) -> Map<Seq<char>, V> {
        Map::new(
            |k: Seq<char>| self.key_texts().contains(k),
            |k: Seq<char>| self.vals@[position(self.key_texts(), k)],
        )
    }

    /// An empty table.
    pub fn new() -> (t: Self)
        ensures
            t.wf(),
            t.view() == Map::<Seq<char>, V>::empty(),
    {
        let t = Table { keys: Vec::new(), vals: Vec::new() };
        proof {
            assert(t.key_texts() =~= Seq::<Seq<char>>::empty());
            assert(t.view() =~= Map::<Seq<char>, V>::empty());
        }
        t
    }

    proof fn lemma_index(&self, i: int)
        requires
            self.wf(),
            0 <= i < self.keys@.len(),
        ensures
            self.view().contains_key(self.keys@[i]@),
            self.view()[self.keys@[i]@] == self.vals@[i],
            position(self.key_texts(), self.keys@[i]@) == i,
    {
        let ks = self.key_texts();
        assert(ks[i] == self.keys@[i]@);
        lemma_position(ks, self.keys@[i]@);
        let p = position(ks, self.keys@[i]@);
        if p != i {
            assert(ks[p] == self.keys@[p]@);
            if p < i {
                assert(self.keys@[p]@ != self.keys@[i]@);
            } else {
                assert(self.keys@[i]@ != self.keys@[p]@);
            }
        }
    }

    /// Where `key` is held, if it is.
    fn find(&self, key: &str) -> (r: Option<usize>)
        requires
            self.wf(),
        ensures
            match r {
                Some(i) => i < self.keys@.len() && self.keys@[i as int]@ == key@
                    && self.view().contains_key(key@) && self.view()[key@] == self.vals@[i as int],
                None => !self.view().contains_key(key@),
            },
    {
        let mut i: usize = 0;
        while i < self.keys.len()
            invariant
                self.wf(),
                i <= self.keys@.len(),
                forall|j: int| 0 <= j < i ==> #[trigger] self.keys@[j]@ != key@,
            decreases self.keys@.len() - i,
        {
            if same_text(self.keys[i].as_str(), key) {
                proof {
                    self.lemma_index(i as int);
                }
                return Some(i);
            }
            i += 1;
        }
        proof {
            let ks = self.key_texts();
            if ks.contains(key@) {
                let j = choose|j: int| 0 <= j < ks.len() && ks[j] == key@;
                assert(ks[j] == self.keys@[j]@);
            }
        }
        None
    }

    /// Whether `key` has a value.
    pub fn contains_key(&self, key: &str) -> (r: bool)
        requires
            self.wf(),
        ensures
            r == self.view().contains_key(key@),
    {
        self.find(key).is_some()
    }

    /// The value of `key`.
    pub fn get(&self, key: &str) -> (r: Option<&V>)
        requires
            self.wf(),
        ensures
            match r {
                Some(v) => self.view().contains_key(key@) && *v == self.view()[key@],
                None => !self.view().contains_key(key@),
            },
    {
        match self.find(key) {
            Some(i) => Some(&self.vals[i]),
            None => None,
        }
    }

    /// Gives `key` the value `v`.
    pub fn insert(&mut self, key: String, v: V)
        requires
            old(self).wf(),
        ensures
            final(self).wf(),
            final(self).view() == old(self).view().insert(key@, v),
    {
        let ghost old_t = *self;
        match self.find(key.as_str()) {
            Some(i) => {
                self.vals.set(i, v);
                proof {
                    assert(self.keys@ == old_t.keys@);
                    assert(self.key_texts() =~= old_t.key_texts());
                    assert forall|k: Seq<char>| #[trigger]
                        self.view().contains_key(k) implies self.view()[k] == old_t.view().insert(
                        key@,
                        v,
                    )[k] by {
                        let ks = self.key_texts();
                        lemma_position(ks, k);
                        let p = position(ks, k);
                        assert(ks[p] == self.keys@[p]@);
                        if k == key@ {
                            old_t.lemma_index(i as int);
                        }
                    }
                    assert(self.view() =~= old_t.view().insert(key@, v));
                }
            },
            None => {
                let ghost kv = key@;
                self.keys.push(key);
                self.vals.push(v);
                proof {
                    let ks = self.key_texts();
                    let oks = old_t.key_texts();
                    assert(ks =~= oks.push(kv));
                    assert(ks.drop_last() =~= oks);
                    lemma_position(oks, kv);
                    assert forall|i: int, j: int|
                        0 <= i < j < self.keys@.len() implies #[trigger] self.keys@[i]@
                        != #[trigger] self.keys@[j]@ by {
                        if j == self.keys@.len() - 1 {
                            assert(oks[i] == old_t.keys@[i]@);
                        }
                    }
                    assert forall|k: Seq<char>| #[trigger]
                        self.view().contains_key(k) implies self.view()[k] == old_t.view().insert(
                        kv,
                        v,
                    )[k] by {
                        lemma_position(oks, k);
                        if k != kv {
                            assert(oks.contains(k));
                        }
                    }
                    assert forall|k: Seq<char>| #[trigger]
                        old_t.view().insert(kv, v).contains_key(k) implies self.view().contains_key(
                        k,
                    ) by {
                        if k != kv {
                            let j = choose|j: int| 0 <= j < oks.len() && oks[j] == k;
                            assert(ks[j] == k);
                        } else {
                            assert(ks[ks.len() - 1] == kv);
                        }
                    }
                    assert(self.view() =~= old_t.view().insert(kv, v));
                }
            },
        }
    }

    /// Takes the value of `key` out of the table.
    pub fn remove(&mut self, key: &str) -> (r: Option<V>)
        requires
            old(self).wf(),
        ensures
            final(self).wf(),
            final(self).view() == old(self).view().remove(key@),
            match r {
                Some(v) => old(self).view().contains_key(key@) && v == old(self).view()[key@],
                None => !old(self).view().contains_key(key@),
            },
    {
        let ghost old_t = *self;
        match self.find(key) {
            Some(i) => {
                self.keys.remove(i);
                let v = self.vals.remove(i);
                proof {
                    let ks = self.key_texts();
                    let oks = old_t.key_texts();
                    assert(ks =~= oks.remove(i as int));
                    assert forall|a: int, b: int|
                        0 <= a < b < self.keys@.len() implies #[trigger] self.keys@[a]@
                        != #[trigger] self.keys@[b]@ by {
                        let a2 = if a < i {
                            a
                        } else {
                            a + 1
                        };
                        let b2 = if b < i {
                            b
                        } else {
                            b + 1
                        };
                        assert(self.keys@[a] == old_t.keys@[a2]);
                        assert(self.keys@[b] == old_t.keys@[b2]);
                    }
                    assert forall|k: Seq<char>| #[trigger]
                        self.view().contains_key(k) implies old_t.view().remove(key@).contains_key(
                        k,
                    ) && self.view()[k] == old_t.view().remove(key@)[k] by {
                        lemma_position(ks, k);
                        let p = position(ks, k);
                        assert(ks[p] == self.keys@[p]@);
                        let p2 = if p < i {
                            p
                        } else {
                            p + 1
                        };
                        assert(self.keys@[p] == old_t.keys@[p2]);
                        assert(self.vals@[p] == old_t.vals@[p2]);
                        old_t.lemma_index(p2);
                        if k == key@ {
                            assert(old_t.keys@[p2]@ == old_t.keys@[i as int]@);
                        }
                    }
                    assert forall|k: Seq<char>| #[trigger]
                        old_t.view().remove(key@).contains_key(k) implies self.view().contains_key(
                        k,
                    ) by {
                        let j = choose|j: int| 0 <= j < oks.len() && oks[j] == k;
                        assert(oks[j] == old_t.keys@[j]@);
                        assert(j != i);
                        let j2 = if j < i {
                            j
                        } else {
                            j - 1
                        };
                        assert(self.keys@[j2] == old_t.keys@[j]);
                        assert(ks[j2] == k);
                    }
                    assert(self.view() =~= old_t.view().remove(key@));
                }
                Some(v)
            },
            None => {
                proof {
                    assert(self.view() =~= old_t.view().remove(key@));
                }
                None
            },
        }
    }
}

} // verus!
