use std::rc::Rc;
use vstd::prelude::*;

use crate::sums::{
    fits_i32, lemma_window_bound, lemma_window_concat, lemma_window_empty, lemma_window_full,
    seq_sum, window_total, zeros,
};

verus! {

/// One node of a persistent segment tree over the index range
/// `[left_bound, right_bound)`.
///
/// A node is never changed once other nodes refer to it: an update copies the
/// nodes on the path to the updated index and shares every other subtree with
/// the tree it started from.
pub struct SegmentTree {
    pub left_bound: usize,
    pub right_bound: usize,
    /// The sum of the values at all indices of the range.
    pub sum: i32,
    /// `None` for a leaf (a range of one index); otherwise the nodes over
    /// `[left_bound, mid)` and `[mid, right_bound)`.
    pub children: Option<(Rc<SegmentTree>, Rc<SegmentTree>)>,
}

impl SegmentTree {
    /// The index at which the range is split between the two children.
    pub open spec fn mid(&self) -> int {
        (self.left_bound + self.right_bound) / 2
    }

    /// The shape of the tree follows from its range, and each inner node's
    /// sum is the sum of its children's.
    pub open spec fn wf(&self) -> bool
        decreases self,
    {
        &&& self.left_bound < self.right_bound
        &&& match self.children {
            None => self.right_bound - self.left_bound == 1,
            Some((l, r)) => {
                &&& self.right_bound - self.left_bound > 1
                &&& l.left_bound == self.left_bound
                &&& l.right_bound == self.mid()
                &&& r.left_bound == self.mid()
                &&& r.right_bound == self.right_bound
                &&& l.wf()
                &&& r.wf()
                &&& self.sum == l.sum + r.sum
            },
        }
    }

    /// The values at the indices of the range, in order: element `i` is the
    /// value at index `left_bound + i`.
    pub open spec fn values(&self) -> Seq<int>
        decreases self,
    {
        match self.children {
            None => seq![self.sum as int],
            Some((l, r)) => l.values() + r.values(),
        }
    }

    /// The sum of the values at the indices in both the node's range and
    /// `[qlo, qhi)`.
    pub open spec fn window_sum(&self, qlo: int, qhi: int) -> int {
        window_total(self.values(), self.left_bound as int, qlo, qhi)
    }

    /// The values after `value` is added at index `position`.
    pub open spec fn added_values(&self, position: int, value: int) -> Seq<int> {
        let i = position - self.left_bound;
        self.values().update(i, self.values()[i] + value)
    }

    /// Every node on the path from this node to the leaf of `position` can
    /// take `value` on its sum without leaving the range of `i32`.
    pub open spec fn path_fits(&self, position: int, value: int) -> bool
        decreases self,
    {
        &&& fits_i32(self.sum + value)
        &&& match self.children {
            None => true,
            Some((l, r)) => if l.left_bound <= position < l.right_bound {
                l.path_fits(position, value)
            } else {
                r.path_fits(position, value)
            },
        }
    }

    /// `self` was made from `old` by copying the path to `position`: at each
    /// node of the path, the child off the path is the very same subtree.
    pub open spec fn shares_off_path(&self, old: SegmentTree, position: int) -> bool
        decreases self,
    {
        &&& self.left_bound == old.left_bound
        &&& self.right_bound == old.right_bound
        &&& match (self.children, old.children) {
            (None, None) => true,
            (Some((nl, nr)), Some((ol, or))) => if ol.left_bound <= position < ol.right_bound {
                nr == or && nl.shares_off_path(*ol, position)
            } else {
                nl == ol && nr.shares_off_path(*or, position)
            },
            _ => false,
        }
    }

    /// A well-formed node has one value per index, each an `i32`, and its
    /// sum is their sum.
    pub proof fn lemma_values(&self)
        requires
            self.wf(),
        ensures
            self.values().len() == self.right_bound - self.left_bound,
            seq_sum(self.values()) == self.sum,
            forall|i: int| 0 <= i < self.values().len() ==> fits_i32(#[trigger] self.values()[i]),
        decreases self,
    {
        match self.children {
            None => {
                assert(self.values().drop_last() =~= Seq::<int>::empty());
                assert(seq_sum(Seq::<int>::empty()) == 0);
            },
            Some((l, r)) => {
                l.lemma_values();
                r.lemma_values();
                crate::sums::lemma_sum_concat(l.values(), r.values());
                let v = self.values();
                assert forall|i: int| 0 <= i < v.len() implies fits_i32(#[trigger] v[i]) by {
                    if i < l.values().len() {
                        assert(v[i] == l.values()[i]);
                    } else {
                        assert(v[i] == r.values()[i - l.values().len()]);
                    }
                }
            },
        }
    }

    /// An inner node's window sum is the sum of its children's.
    pub proof fn lemma_window_split(&self, qlo: int, qhi: int)
        requires
            self.wf(),
            self.children is Some,
        ensures
            self.children matches Some((l, r)) && self.window_sum(qlo, qhi) == l.window_sum(
                qlo,
                qhi,
            ) + r.window_sum(qlo, qhi),
    {
        if let Some((l, r)) = self.children {
            l.lemma_values();
            lemma_window_concat(l.values(), r.values(), self.left_bound as int, qlo, qhi);
        }
    }

    /// Builds the tree over `[left_bound, right_bound)` with every value zero.
    pub fn new(left_bound: usize, right_bound: usize) -> (r: SegmentTree)
        requires
            left_bound < right_bound,
        ensures
            r.wf(),
            r.left_bound == left_bound,
            r.right_bound == right_bound,
            r.sum == 0,
            r.values() == zeros((right_bound - left_bound) as nat),
        decreases right_bound - left_bound,
    {
        if left_bound + 1 < right_bound {
            let t = left_bound + (right_bound - left_bound) / 2;
            let left_child = SegmentTree::new(left_bound, t);
            let right_child = SegmentTree::new(t, right_bound);
            let r = SegmentTree {
                left_bound,
                right_bound,
                sum: 0,
                children: Some((Rc::new(left_child), Rc::new(right_child))),
            };
            assert(r.values() =~= zeros((right_bound - left_bound) as nat));
            r
        } else {
            let r = SegmentTree { left_bound, right_bound, sum: 0, children: None };
            assert(r.values() =~= zeros(1));
            r
        }
    }

    /// Whether `value` can be added at `position` without overflowing the sum
    /// of a node.
    pub fn can_add(&self, position: usize, value: i32) -> (r: bool)
        requires
            self.wf(),
        ensures
            r == self.path_fits(position as int, value as int),
        decreases self.right_bound - self.left_bound,
    {
        let s = self.sum as i64 + value as i64;
        if s < i32::MIN as i64 || s > i32::MAX as i64 {
            return false;
        }
        match &self.children {
            None => true,
            Some((l, r)) => {
                if l.left_bound <= position && position < l.right_bound {
                    l.can_add(position, value)
                } else {
                    r.can_add(position, value)
                }
            },
        }
    }

    /// The tree after `value` is added at `position`, made by copying the
    /// nodes on the path to `position`; `self` is left as it was.
    pub fn updated(&self, position: usize, value: i32) -> (r: SegmentTree)
        requires
            self.wf(),
            self.left_bound <= position < self.right_bound,
            self.path_fits(position as int, value as int),
        ensures
            r.wf(),
            r.sum == self.sum + value,
            r.values() == self.added_values(position as int, value as int),
            r.shares_off_path(*self, position as int),
        decreases self.right_bound - self.left_bound,
    {
        proof {
            self.lemma_values();
        }
        let sum = self.sum + value;
        match &self.children {
            None => {
                let r = SegmentTree {
                    left_bound: self.left_bound,
                    right_bound: self.right_bound,
                    sum,
                    children: None,
                };
                assert(r.values() =~= self.added_values(position as int, value as int));
                r
            },
            Some((l, rc)) => {
                proof {
                    l.lemma_values();
                }
                if l.left_bound <= position && position < l.right_bound {
                    let new_left = l.updated(position, value);
                    let r = SegmentTree {
                        left_bound: self.left_bound,
                        right_bound: self.right_bound,
                        sum,
                        children: Some((Rc::new(new_left), rc.clone())),
                    };
                    assert(r.values() =~= self.added_values(position as int, value as int));
                    r
                } else {
                    let new_right = rc.updated(position, value);
                    let r = SegmentTree {
                        left_bound: self.left_bound,
                        right_bound: self.right_bound,
                        sum,
                        children: Some((l.clone(), Rc::new(new_right))),
                    };
                    assert(r.values() =~= self.added_values(position as int, value as int));
                    r
                }
            },
        }
    }

    /// Adds `value` at `position`, copying the nodes on the path to it so that
    /// trees sharing subtrees with this one do not change.
    pub fn add(&mut self, position: usize, value: i32)
        requires
            old(self).wf(),
            old(self).left_bound <= position < old(self).right_bound,
            old(self).path_fits(position as int, value as int),
        ensures
            final(self).wf(),
            final(self).sum == old(self).sum + value,
            final(self).values() == old(self).added_values(position as int, value as int),
            final(self).shares_off_path(*old(self), position as int),
    {
        *self = self.updated(position, value);
    }

    /// The sum over `[left_bound, right_bound)` of this tree, which cannot
    /// overflow: there are at most 2^64 values, each an `i32`.
    pub fn window(&self, left_bound: usize, right_bound: usize) -> (r: i128)
        requires
            self.wf(),
        ensures
            r == self.window_sum(left_bound as int, right_bound as int),
        decreases self.right_bound - self.left_bound,
    {
        proof {
            self.lemma_values();
        }
        if left_bound <= self.left_bound && self.right_bound <= right_bound {
            proof {
                lemma_window_full(
                    self.values(),
                    self.left_bound as int,
                    left_bound as int,
                    right_bound as int,
                );
            }
            return self.sum as i128;
        }
        let lo = if left_bound > self.left_bound {
            left_bound
        } else {
            self.left_bound
        };
        let hi = if right_bound < self.right_bound {
            right_bound
        } else {
            self.right_bound
        };
        if lo >= hi {
            proof {
                lemma_window_empty(
                    self.values(),
                    self.left_bound as int,
                    left_bound as int,
                    right_bound as int,
                );
            }
            return 0;
        }
        match &self.children {
            Some((l, r)) => {
                let a = l.window(left_bound, right_bound);
                let b = r.window(left_bound, right_bound);
                proof {
                    self.lemma_window_split(left_bound as int, right_bound as int);
                    l.lemma_values();
                    r.lemma_values();
                    lemma_window_bound(
                        l.values(),
                        l.left_bound as int,
                        left_bound as int,
                        right_bound as int,
                    );
                    lemma_window_bound(
                        r.values(),
                        r.left_bound as int,
                        left_bound as int,
                        right_bound as int,
                    );
                    assert(l.values().len() * 0x8000_0000 <= 0x1_0000_0000_0000_0000 * 0x8000_0000)
                        by (nonlinear_arith)
                        requires
                            l.values().len() <= 0x1_0000_0000_0000_0000,
                    ;
                    assert(r.values().len() * 0x8000_0000 <= 0x1_0000_0000_0000_0000 * 0x8000_0000)
                        by (nonlinear_arith)
                        requires
                            r.values().len() <= 0x1_0000_0000_0000_0000,
                    ;
                }
                a + b
            },
            None => {
                // A leaf holds one index, so it lies either inside the query
                // range or outside it; both cases have returned above.
                proof {
                    assert(false);
                }
                0
            },
        }
    }

    /// The sum of the values at the indices in both this tree's range and
    /// `[left_bound, right_bound)`.
    pub fn sum(&self, left_bound: usize, right_bound: usize) -> (r: i32)
        requires
            self.wf(),
            fits_i32(self.window_sum(left_bound as int, right_bound as int)),
        ensures
            r == self.window_sum(left_bound as int, right_bound as int),
    {
        self.window(left_bound, right_bound) as i32
    }
}

} // verus!
