use vstd::multiset::Multiset;
use vstd::prelude::*;

use crate::types::Position;

verus! {

broadcast use vstd::seq_lib::group_to_multiset_ensures, vstd::multiset::group_multiset_axioms;

/// A queue entry: a tentative distance and the point it belongs to.
pub type Entry = (u128, Position);

/// A binary min-heap of entries, ordered by distance alone.
pub struct MinHeap {
    items: Vec<Entry>,
}

/// Index of the parent of the entry at index `j` in the implicit binary tree.
pub open spec fn parent(j: int) -> int {
    (j - 1) / 2
}

/// Replacing one element of a sequence replaces it in the multiset of its elements.
proof fn lemma_update_multiset(s: Seq<Entry>, i: int, v: Entry)
    requires
        0 <= i < s.len(),
    ensures
        s.update(i, v).to_multiset() == s.to_multiset().remove(s[i]).insert(v),
{
    let t = s.update(i, v);
    assert(t.remove(i) =~= s.remove(i));
    assert(t.to_multiset().remove(v) == s.to_multiset().remove(s[i]));
    assert(t.contains(v)) by {
        assert(t[i] == v);
    }
    assert(t.to_multiset() =~= t.to_multiset().remove(v).insert(v));
}

/// Exchanging two elements keeps the multiset of elements.
proof fn lemma_swap_multiset(s: Seq<Entry>, i: int, j: int)
    requires
        0 <= i < s.len(),
        0 <= j < s.len(),
    ensures
        s.update(i, s[j]).update(j, s[i]).to_multiset() == s.to_multiset(),
{
    let t = s.update(i, s[j]);
    lemma_update_multiset(s, i, s[j]);
    lemma_update_multiset(t, j, s[i]);
    if i == j {
        assert(t.update(j, s[i]) =~= s);
    } else {
        assert(t[j] == s[j]);
        assert(s.to_multiset().remove(s[i]).insert(s[j]).remove(s[j]).insert(s[i]) =~= s.to_multiset()) by {
            assert(s.contains(s[i]));
        }
    }
}

impl MinHeap {
    /// Each entry's distance is at least its parent's.
    pub closed spec fn wf(&self) -> bool {
        forall|j: int| 0 < j < self.items@.len() ==> self.items@[parent(j)].0 <= #[trigger] self.items@[j].0
    }

    /// The entries, with their multiplicities.
    pub closed spec fn view(&self) -> Multiset<Entry> {
        self.items@.to_multiset()
    }

    proof fn lemma_root_min(&self, j: int)
        requires
            self.wf(),
            0 <= j < self.items@.len(),
        ensures
            self.items@[0].0 <= self.items@[j].0,
        decreases j,
    {
        if j > 0 {
            self.lemma_root_min(parent(j));
        }
    }

    /// An empty heap.
    pub fn new() -> (h: Self)
        ensures
            h.wf(),
            h@ == Multiset::<Entry>::empty(),
    {
        let h = MinHeap { items: Vec::new() };
        assert(h.items@ =~= Seq::<Entry>::empty());
        h
    }

    /// Number of entries.
    pub fn len(&self) -> (n: usize)
        ensures
            n == self@.len(),
    {
        self.items.len()
    }

    fn swap(&mut self, a: usize, b: usize)
        requires
            a < old(self).items@.len(),
            b < old(self).items@.len(),
        ensures
            final(self).items@ == old(self).items@.update(a as int, old(self).items@[b as int]).update(
                b as int,
                old(self).items@[a as int],
            ),
            final(self)@ == old(self)@,
    {
        let ghost s = self.items@;
        let x: Entry = self.items[a];
        let y: Entry = self.items[b];
        self.items.set(a, y);
        self.items.set(b, x);
        proof {
            lemma_swap_multiset(s, a as int, b as int);
        }
    }

    /// Adds an entry.
    pub fn push(&mut self, e: Entry)
        requires
            old(self).wf(),
        ensures
            final(self).wf(),
            final(self)@ == old(self)@.insert(e),
    {
        self.items.push(e);
        let mut i: usize = self.items.len() - 1;
        let mut done: bool = false;
        while !done && i > 0
            invariant
                i < self.items@.len(),
                self@ == old(self)@.insert(e),
                forall|j: int| 0 < j < self.items@.len() && j != i ==> self.items@[parent(j)].0 <= #[trigger] self.items@[j].0,
                forall|j: int|
                    0 < j < self.items@.len() && parent(j) == i && i > 0 ==> self.items@[parent(i as int)].0
                        <= #[trigger] self.items@[j].0,
                done ==> (i > 0 ==> self.items@[parent(i as int)].0 <= self.items@[i as int].0),
            decreases 2 * i + if done { 0int } else { 1int },
        {
            let p: usize = (i - 1) / 2;
            if self.items[p].0 <= self.items[i].0 {
                done = true;
            } else {
                self.swap(p, i);
                i = p;
            }
        }
    }

    /// Removes and returns an entry of least distance.
    pub fn pop(&mut self) -> (r: Entry)
        requires
            old(self).wf(),
            old(self)@.len() > 0,
        ensures
            final(self).wf(),
            old(self)@.contains(r),
            final(self)@ == old(self)@.remove(r),
            forall|x: Entry| #[trigger] old(self)@.contains(x) ==> r.0 <= x.0,
    {
        let ghost s = self.items@;
        proof {
            assert forall|x: Entry| #[trigger] s.to_multiset().contains(x) implies s[0].0 <= x.0 by {
                let j = choose|j: int| 0 <= j < s.len() && s[j] == x;
                self.lemma_root_min(j);
            }
            assert(s.contains(s[0]));
        }
        let r: Entry = self.items[0];
        let last: Entry = self.items.pop().unwrap();
        proof {
            assert(s =~= self.items@.push(last));
        }
        if self.items.len() == 0 {
            proof {
                assert(self@ =~= s.to_multiset().remove(r));
            }
            return r;
        }
        let ghost t = self.items@;
        self.items.set(0, last);
        proof {
            lemma_update_multiset(t, 0, last);
            assert(self@ =~= s.to_multiset().remove(r));
        }
        let n: usize = self.items.len();
        let mut i: usize = 0;
        let mut done: bool = false;
        while !done
            invariant
                n == self.items@.len(),
                i < n,
                self@ == s.to_multiset().remove(r),
                forall|j: int| 0 < j < n && parent(j) != i ==> self.items@[parent(j)].0 <= #[trigger] self.items@[j].0,
                forall|j: int|
                    0 < j < n && parent(j) == i && i > 0 ==> self.items@[parent(i as int)].0 <= #[trigger] self.items@[j].0,
                done ==> forall|j: int| 0 < j < n && parent(j) == i ==> self.items@[i as int].0 <= #[trigger] self.items@[j].0,
            decreases 2 * (n - i) + if done { 0int } else { 1int },
        {
            let mut m: usize = i;
            if i < n / 2 {
                let l: usize = 2 * i + 1;
                if self.items[l].0 < self.items[m].0 {
                    m = l;
                }
                if l + 1 < n && self.items[l + 1].0 < self.items[m].0 {
                    m = l + 1;
                }
            }
            if m == i {
                done = true;
            } else {
                self.swap(i, m);
                i = m;
            }
        }
        r
    }
}

} // verus!
