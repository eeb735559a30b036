//! A binary min-heap of `(key, cell)` pairs, ordered lexicographically.
//!
//! This is the priority queue of the priority-flood: among equal keys
//! the smaller cell index comes out first.

use vstd::prelude::*;
use vstd::seq_lib::*;
use vstd::multiset::*;

verus! {

broadcast use vstd::seq_lib::group_to_multiset_ensures;

/// Lexicographic order on `(key, cell)` pairs.
pub open spec fn pair_le(a: (u32, usize), b: (u32, usize)) -> bool {
    a.0 < b.0 || (a.0 == b.0 && a.1 <= b.1)
}

pub open spec fn parent(i: int) -> int {
    (i - 1) / 2
}

/// Binary min-heap stored in a vector (children of `i` at `2i+1`, `2i+2`).
pub struct MinHeap {
    data: Vec<(u32, usize)>,
}

impl MinHeap {
    /// The pairs held, as a multiset.
    pub closed spec fn contents(&self) -> Multiset<(u32, usize)> {
        self.data@.to_multiset()
    }

    /// Heap order: no pair is smaller than its parent.
    pub closed spec fn wf(&self) -> bool {
        forall|i: int| 0 < i < self.data@.len() ==> #[trigger] pair_le(self.data@[parent(i)], self.data@[i])
    }

    proof fn lemma_root_min(&self, j: int)
        requires
            self.wf(),
            0 <= j < self.data@.len(),
        ensures
            pair_le(self.data@[0], self.data@[j]),
        decreases j,
    {
        if j > 0 {
            self.lemma_root_min(parent(j));
            assert(pair_le(self.data@[parent(j)], self.data@[j]));
        }
    }

    pub fn new() -> (h: Self)
        ensures
            h.wf(),
            h.contents() =~= Multiset::<(u32, usize)>::empty(),
    {
        let h = MinHeap { data: Vec::new() };
        proof {
            assert(h.data@ =~= Seq::<(u32, usize)>::empty());
            assert(h.data@.to_multiset().len() == 0);
        }
        h
    }

    pub fn len(&self) -> (n: usize)
        ensures
            n == self.contents().len(),
    {
        self.data.len()
    }

    fn swap(&mut self, i: usize, j: usize)
        requires
            i < old(self).data@.len(),
            j < old(self).data@.len(),
        ensures
            final(self).data@ == old(self).data@.update(i as int, old(self).data@[j as int]).update(
                j as int,
                old(self).data@[i as int],
            ),
            final(self).contents() == old(self).contents(),
    {
        let a = self.data[i];
        let b = self.data[j];
        let ghost s = self.data@;
        self.data.set(i, b);
        self.data.set(j, a);
        proof {
            let s1 = s.update(i as int, b);
            assert(s1.to_multiset() == s.to_multiset().insert(b).remove(a));
            assert(s1.update(j as int, a).to_multiset() == s1.to_multiset().insert(a).remove(s1[j as int]));
            assert(self.data@ == s1.update(j as int, a));
            if i == j {
                assert(s1[j as int] == b);
            } else {
                assert(s1[j as int] == b);
            }
            assert(s.to_multiset().contains(a));
            assert(s.to_multiset().insert(b).remove(a).insert(a).remove(b) =~= s.to_multiset());
        }
    }

    /// Add a pair.
    pub fn push(&mut self, x: (u32, usize))
        requires
            old(self).wf(),
        ensures
            final(self).wf(),
            final(self).contents() == old(self).contents().insert(x),
    {
        let ghost c0 = self.contents();
        self.data.push(x);
        proof {
            assert(self.contents() == c0.insert(x));
        }
        let mut i = self.data.len() - 1;
        while i > 0
            invariant
                0 <= i < self.data@.len(),
                self.contents() == c0.insert(x),
                forall|j: int| 0 < j < self.data@.len() && j != i ==> #[trigger] pair_le(self.data@[parent(j)], self.data@[j]),
                i > 0 ==> forall|j: int| 0 < j < self.data@.len() && parent(j) == i ==> pair_le(self.data@[parent(i as int)], #[trigger] self.data@[j]),
            ensures
                self.contents() == c0.insert(x),
                forall|j: int| 0 < j < self.data@.len() ==> #[trigger] pair_le(self.data@[parent(j)], self.data@[j]),
            decreases i,
        {
            let p = (i - 1) / 2;
            let di = self.data[i];
            let dp = self.data[p];
            if di.0 < dp.0 || (di.0 == dp.0 && di.1 < dp.1) {
                let ghost old_d = self.data@;
                self.swap(i, p);
                proof {
                    assert forall|j: int| 0 < j < self.data@.len() && j != p implies #[trigger] pair_le(self.data@[parent(j)], self.data@[j]) by {
                        if j == i as int {
                        } else if parent(j) == i as int {
                            assert(pair_le(old_d[parent(i as int)], old_d[j]));
                        } else if parent(j) == p as int {
                            assert(pair_le(old_d[p as int], old_d[j]));
                        } else {
                            assert(pair_le(old_d[parent(j)], old_d[j]));
                        }
                    }
                    if p > 0 {
                        assert forall|j: int| 0 < j < self.data@.len() && parent(j) == p implies pair_le(self.data@[parent(p as int)], #[trigger] self.data@[j]) by {
                            assert(pair_le(old_d[parent(p as int)], old_d[p as int]));
                            if j != i as int {
                                assert(pair_le(old_d[p as int], old_d[j]));
                            }
                        }
                    }
                }
                i = p;
            } else {
                proof {
                    assert forall|j: int| 0 < j < self.data@.len() implies #[trigger] pair_le(self.data@[parent(j)], self.data@[j]) by {
                        if j == i as int {
                            assert(parent(j) == p as int);
                        }
                    }
                }
                break;
            }
        }
    }

    /// Remove and return the smallest pair, or `None` when empty.
    pub fn pop(&mut self) -> (res: Option<(u32, usize)>)
        requires
            old(self).wf(),
        ensures
            final(self).wf(),
            match res {
                None => old(self).contents().len() == 0 && final(self).contents() == old(self).contents(),
                Some(x) => {
                    &&& old(self).contents().contains(x)
                    &&& final(self).contents() == old(self).contents().remove(x)
                    &&& forall|y: (u32, usize)| #[trigger] old(self).contents().contains(y) ==> pair_le(x, y)
                },
            },
    {
        if self.data.len() == 0 {
            return None;
        }
        let ghost s0 = self.data@;
        let x = self.data[0];
        proof {
            assert forall|y: (u32, usize)| #[trigger] s0.to_multiset().contains(y) implies pair_le(x, y) by {
                let j = choose|j: int| 0 <= j < s0.len() && s0[j] == y;
                self.lemma_root_min(j);
            }
            assert(s0.to_multiset().contains(x)) by {
                assert(s0.contains(x));
            }
        }
        let last = self.data.len() - 1;
        self.swap(0, last);
        let ghost s1 = self.data@;
        let popped = self.data.pop();
        proof {
            assert(s1 == self.data@.push(x));
            assert(s1.to_multiset() == self.data@.to_multiset().insert(x));
            assert(self.contents() =~= s0.to_multiset().remove(x));
        }
        let ghost c1 = self.contents();
        let n = self.data.len();
        let mut i: usize = 0;
        while i < n
            invariant
                n == self.data@.len(),
                i < n || n == 0,
                self.contents() == c1,
                forall|j: int| 0 < j < self.data@.len() && parent(j) != i ==> #[trigger] pair_le(self.data@[parent(j)], self.data@[j]),
                i > 0 ==> forall|j: int| 0 < j < self.data@.len() && parent(j) == i ==> pair_le(self.data@[parent(i as int)], #[trigger] self.data@[j]),
            ensures
                self.contents() == c1,
                forall|j: int| 0 < j < self.data@.len() ==> #[trigger] pair_le(self.data@[parent(j)], self.data@[j]),
            decreases n - i,
        {
            let l = if i <= (n - 1) / 2 { 2 * i + 1 } else { n };
            if l >= n {
                proof {
                    assert forall|j: int| 0 < j < self.data@.len() implies #[trigger] pair_le(self.data@[parent(j)], self.data@[j]) by {
                        if parent(j) == i as int {
                            assert(j >= 2 * i + 1);
                        }
                    }
                }
                break;
            }
            let r = l + 1;
            let mut m = l;
            if r < n {
                let dl = self.data[l];
                let dr = self.data[r];
                if dr.0 < dl.0 || (dr.0 == dl.0 && dr.1 < dl.1) {
                    m = r;
                }
            }
            let di = self.data[i];
            let dm = self.data[m];
            if dm.0 < di.0 || (dm.0 == di.0 && dm.1 < di.1) {
                let ghost old_d = self.data@;
                proof {
                    assert(parent(l as int) == i as int);
                    assert(parent(r as int) == i as int);
                    assert forall|j: int| 0 < j < n && parent(j) == i implies j == l || j == r by {}
                }
                self.swap(i, m);
                proof {
                    assert forall|j: int| 0 < j < self.data@.len() && parent(j) != m implies #[trigger] pair_le(self.data@[parent(j)], self.data@[j]) by {
                        if j == m as int {
                        } else if parent(j) == i as int {
                            // the sibling of m
                            assert(pair_le(old_d[m as int], old_d[j]));
                        } else if j == i as int {
                            assert(pair_le(old_d[parent(i as int)], old_d[m as int]));
                        } else {
                            assert(pair_le(old_d[parent(j)], old_d[j]));
                        }
                    }
                    assert forall|j: int| 0 < j < self.data@.len() && parent(j) == m implies pair_le(self.data@[parent(m as int)], #[trigger] self.data@[j]) by {
                        assert(pair_le(old_d[m as int], old_d[j]));
                    }
                }
                i = m;
            } else {
                proof {
                    assert forall|j: int| 0 < j < n && parent(j) == i implies j == l || j == r by {}
                    assert forall|j: int| 0 < j < self.data@.len() implies #[trigger] pair_le(self.data@[parent(j)], self.data@[j]) by {
                        if parent(j) == i as int {
                            assert(pair_le(self.data@[m as int], self.data@[j]));
                        }
                    }
                }
                break;
            }
        }
        Some(x)
    }
}

} // verus!
