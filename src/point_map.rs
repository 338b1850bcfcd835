use vstd::prelude::*;

use crate::types::Position;

verus! {

/// A finite map from points to values, kept as two parallel vectors with distinct keys.
pub struct PointMap<V> {
    keys: Vec<Position>,
    vals: Vec<V>,
}

impl<V: Copy> PointMap<V> {
    /// Keys are distinct and each has one value.
    pub closed spec fn wf(&self) -> bool {
        &&& self.keys@.len() == self.vals@.len()
        &&& self.keys@.no_duplicates()
    }

    /// The points in the map, in order of first insertion.
    pub closed spec fn key_seq(&self) -> Seq<Position> {
        self.keys@
    }

    /// The map from each key to its value.
    pub closed spec fn view(&self) -> Map<Position, V> {
        Map::new(
            |p: Position| self.keys@.contains(p),
            |p: Position| self.vals@[self.keys@.index_of(p)],
        )
    }

    proof fn lemma_index(&self, i: int)
        requires
            self.wf(),
            0 <= i < self.keys@.len(),
        ensures
            self@.contains_key(self.keys@[i]),
            self@[self.keys@[i]] == self.vals@[i],
    {
        let p = self.keys@[i];
        assert(self.keys@.contains(p));
        let j = self.keys@.index_of(p);
        assert(self.keys@[j] == p);
    }

    /// The key sequence lists exactly the keys of the map, once each.
    pub proof fn lemma_keys(&self)
        requires
            self.wf(),
        ensures
            self.key_seq().no_duplicates(),
            forall|p: Position| #[trigger] self@.contains_key(p) <==> self.key_seq().contains(p),
    {
    }

    /// An empty map.
    pub fn new() -> (m: Self)
        ensures
            m.wf(),
            m@ == Map::<Position, V>::empty(),
    {
        let m = PointMap { keys: Vec::new(), vals: Vec::new() };
        assert(m@ =~= Map::<Position, V>::empty());
        m
    }

    /// Number of keys.
    pub fn len(&self) -> (n: usize)
        requires
            self.wf(),
        ensures
            n == self@.dom().len(),
            n == self.key_seq().len(),
    {
        proof {
            self.keys@.unique_seq_to_set();
            assert(self@.dom() =~= self.keys@.to_set());
        }
        self.keys.len()
    }

    fn find(&self, p: Position) -> (r: Option<usize>)
        requires
            self.wf(),
        ensures
            match r {
                Some(i) => i < self.keys@.len() && self.keys@[i as int] == p,
                None => !self.keys@.contains(p),
            },
    {
        let mut i: usize = 0;
        while i < self.keys.len()
            invariant
                i <= self.keys@.len(),
                forall|j: int| 0 <= j < i ==> self.keys@[j] != p,
            decreases self.keys@.len() - i,
        {
            if self.keys[i] == p {
                return Some(i);
            }
            i += 1;
        }
        None
    }

    /// The value at `p`, if any.
    pub fn get(&self, p: Position) -> (r: Option<V>)
        requires
            self.wf(),
        ensures
            match r {
                Some(v) => self@.contains_key(p) && self@[p] == v,
                None => !self@.contains_key(p),
            },
    {
        match self.find(p) {
            Some(i) => {
                proof {
                    self.lemma_index(i as int);
                }
                Some(self.vals[i])
            },
            None => None,
        }
    }

    /// Sets the value at `p`.
    pub fn insert(&mut self, p: Position, v: V)
        requires
            old(self).wf(),
        ensures
            final(self).wf(),
            final(self)@ == old(self)@.insert(p, v),
            final(self).key_seq().to_set() == old(self).key_seq().to_set().insert(p),
    {
        let ghost before = *self;
        match self.find(p) {
            Some(i) => {
                self.vals.set(i, v);
                proof {
                    assert forall|q: Position| #[trigger] self@.contains_key(q) implies self@[q]
                        == before@.insert(p, v)[q] by {
                        let j = self.keys@.index_of(q);
                        assert(self.keys@.contains(q));
                        assert(self.keys@[j] == q);
                        if q == p {
                            assert(j == i);
                        } else {
                            before.lemma_index(j);
                        }
                    }
                    assert(self@ =~= before@.insert(p, v));
                    assert(self.keys@.to_set() =~= before.keys@.to_set().insert(p));
                }
            },
            None => {
                self.keys.push(p);
                self.vals.push(v);
                proof {
                    assert forall|a: int, b: int|
                        0 <= a < b < self.keys@.len() implies self.keys@[a] != self.keys@[b] by {
                        if b == self.keys@.len() - 1 {
                            assert(before.keys@.contains(self.keys@[a]) || a == b);
                        }
                    }
                    assert forall|q: Position| #[trigger] self@.contains_key(q) implies self@[q]
                        == before@.insert(p, v)[q] by {
                        let j = self.keys@.index_of(q);
                        assert(self.keys@.contains(q));
                        assert(self.keys@[j] == q);
                        if q == p {
                            assert(j == self.keys@.len() - 1);
                        } else {
                            assert(j < before.keys@.len());
                            before.lemma_index(j);
                        }
                    }
                    assert forall|q: Position| #[trigger] before@.insert(p, v).contains_key(q) implies self@.contains_key(q) by {
                        if q != p && before.keys@.contains(q) {
                            let j = before.keys@.index_of(q);
                            assert(self.keys@[j] == q);
                        }
                        if q == p {
                            assert(self.keys@[self.keys@.len() - 1] == q);
                        }
                    }
                    assert(self@ =~= before@.insert(p, v));
                    assert(self.keys@.to_set() =~= before.keys@.to_set().insert(p));
                }
            },
        }
    }
}

} // verus!
