use vstd::prelude::*;

use crate::segment_tree::SegmentTree;
use crate::sums::{fits_i32, lemma_window_update, lemma_window_zeros, zeros};

verus! {

/// Why an operation on a [`PersistentSegmentTree`] was refused.
#[derive(Debug, Clone, Copy, PartialEq, Eq, Structural)]
pub enum TreeError {
    /// The version number names no version.
    VersionOutOfRange,
    /// The position lies outside the tree's index range. Such a position has
    /// no meaningful place in the tree, so it is refused rather than added to
    /// an arbitrary leaf.
    PositionOutOfRange,
    /// A sum would leave the range of `i32`.
    Overflow,
}

/// The point update that made a version: `value` added at `position` to
/// version `base`.
pub struct Edit {
    pub base: usize,
    pub position: usize,
    pub value: i32,
}

/// A sequence of segment trees over one index range. Version 0 holds only
/// zeros; every later version was made from an earlier one by one point
/// update, and shares with it every subtree off the updated path.
pub struct PersistentSegmentTree {
    /// The root of each version, in the order the versions were made.
    pub roots: Vec<SegmentTree>,
    /// The update that made each version after the first: entry `k - 1`
    /// made version `k`.
    pub edits: Ghost<Seq<Edit>>,
}

impl PersistentSegmentTree {
    /// The lower bound of the index range.
    pub open spec fn lo(&self) -> int {
        self.roots@[0].left_bound as int
    }

    /// The upper bound (exclusive) of the index range.
    pub open spec fn hi(&self) -> int {
        self.roots@[0].right_bound as int
    }

    /// Every version covers the same range, version 0 holds only zeros, and
    /// every later version is its base with one value added, sharing the
    /// base's subtrees off the updated path.
    pub open spec fn wf(&self) -> bool {
        &&& self.roots@.len() >= 1
        &&& self.edits@.len() + 1 == self.roots@.len()
        &&& self.roots@[0].values() == zeros((self.hi() - self.lo()) as nat)
        &&& forall|k: int|
            0 <= k < self.roots@.len() ==> {
                &&& (#[trigger] self.roots@[k]).wf()
                &&& self.roots@[k].left_bound == self.lo()
                &&& self.roots@[k].right_bound == self.hi()
            }
        &&& forall|k: int|
            1 <= k < self.roots@.len() ==> {
                let e = #[trigger] self.edits@[k - 1];
                &&& e.base < k
                &&& self.lo() <= e.position < self.hi()
                &&& self.roots@[k].values() == self.roots@[e.base as int].added_values(
                    e.position as int,
                    e.value as int,
                )
                &&& self.roots@[k].shares_off_path(self.roots@[e.base as int], e.position as int)
            }
    }

    /// The sum over the indices in `[qlo, qhi)` in version `v`.
    pub open spec fn version_sum(&self, v: int, qlo: int, qhi: int) -> int {
        self.roots@[v].window_sum(qlo, qhi)
    }

    /// The total of the values added, at positions in `[qlo, qhi)`, by the
    /// chain of updates that leads from version 0 to version `v`.
    pub open spec fn chain_total(&self, v: int, qlo: int, qhi: int) -> int
        decreases v,
    {
        if v <= 0 || v > self.edits@.len() {
            0
        } else {
            let e = self.edits@[v - 1];
            let before = if e.base < v {
                self.chain_total(e.base as int, qlo, qhi)
            } else {
                0
            };
            before + if qlo <= e.position < qhi {
                e.value as int
            } else {
                0
            }
        }
    }

    /// `self` still holds every version of `earlier`, unchanged.
    pub open spec fn keeps_versions_of(&self, earlier: &PersistentSegmentTree) -> bool {
        &&& earlier.roots@.len() <= self.roots@.len()
        &&& forall|k: int|
            0 <= k < earlier.roots@.len() ==> #[trigger] self.roots@[k] == earlier.roots@[k]
    }

    /// Builds version 0 over `[left_bound, right_bound)`, with every value
    /// zero.
    pub fn new(left_bound: usize, right_bound: usize) -> (r: PersistentSegmentTree)
        requires
            left_bound < right_bound,
        ensures
            r.wf(),
            r.roots@.len() == 1,
            r.lo() == left_bound,
            r.hi() == right_bound,
            forall|qlo: int, qhi: int| #[trigger] r.version_sum(0, qlo, qhi) == 0,
    {
        let r = PersistentSegmentTree {
            roots: vec![SegmentTree::new(left_bound, right_bound)],
            edits: Ghost(Seq::empty()),
        };
        assert forall|qlo: int, qhi: int| #[trigger] r.version_sum(0, qlo, qhi) == 0 by {
            lemma_window_zeros((right_bound - left_bound) as nat, left_bound as int, qlo, qhi);
        }
        r
    }

    /// Makes a new version from version `version` by adding `value` at
    /// `position`, and returns its number. The new version copies only the
    /// nodes on the path to `position`; no earlier version changes.
    pub fn add(&mut self, position: usize, value: i32, version: usize) -> (r: Result<
        usize,
        TreeError,
    >)
        requires
            old(self).wf(),
        ensures
            final(self).wf(),
            final(self).lo() == old(self).lo(),
            final(self).hi() == old(self).hi(),
            final(self).keeps_versions_of(old(self)),
            version >= old(self).roots@.len() ==> r == Err::<usize, TreeError>(
                TreeError::VersionOutOfRange,
            ),
            version < old(self).roots@.len() && !(old(self).lo() <= position < old(self).hi())
                ==> r == Err::<usize, TreeError>(TreeError::PositionOutOfRange),
            version < old(self).roots@.len() && old(self).lo() <= position < old(self).hi()
                && !old(self).roots@[version as int].path_fits(position as int, value as int)
                ==> r == Err::<usize, TreeError>(TreeError::Overflow),
            r is Err ==> *final(self) == *old(self),
            version < old(self).roots@.len() && old(self).lo() <= position < old(self).hi()
                && old(self).roots@[version as int].path_fits(position as int, value as int)
                ==> {
                &&& r == Ok::<usize, TreeError>(old(self).roots@.len() as usize)
                &&& final(self).roots@.len() == old(self).roots@.len() + 1
                &&& final(self).roots@.last().values() == old(self).roots@[version as int].added_values(
                    position as int,
                    value as int,
                )
                &&& final(self).roots@.last().shares_off_path(
                    old(self).roots@[version as int],
                    position as int,
                )
                &&& final(self).edits@ == old(self).edits@.push(
                    (Edit { base: version, position, value }),
                )
            },
    {
        if version >= self.roots.len() {
            return Err(TreeError::VersionOutOfRange);
        }
        if position < self.roots[0].left_bound || position >= self.roots[0].right_bound {
            return Err(TreeError::PositionOutOfRange);
        }
        assert(self.roots@[version as int].wf());
        if !self.roots[version].can_add(position, value) {
            return Err(TreeError::Overflow);
        }
        let root = self.roots[version].updated(position, value);
        let ghost before = *self;
        self.roots.push(root);
        self.edits = Ghost(self.edits@.push(Edit { base: version, position, value }));
        assert forall|k: int| 1 <= k < self.roots@.len() implies {
            let e = #[trigger] self.edits@[k - 1];
            &&& e.base < k
            &&& self.lo() <= e.position < self.hi()
            &&& self.roots@[k].values() == self.roots@[e.base as int].added_values(
                e.position as int,
                e.value as int,
            )
            &&& self.roots@[k].shares_off_path(self.roots@[e.base as int], e.position as int)
        } by {
            if k < before.roots@.len() {
                assert(self.edits@[k - 1] == before.edits@[k - 1]);
                assert(self.roots@[k] == before.roots@[k]);
                let e = before.edits@[k - 1];
                assert(self.roots@[e.base as int] == before.roots@[e.base as int]);
            }
        }
        Ok(self.roots.len() - 1)
    }

    /// The sum over the indices in `[left_bound, right_bound)` in version
    /// `version`.
    pub fn sum(&self, version: usize, left_bound: usize, right_bound: usize) -> (r: Result<
        i32,
        TreeError,
    >)
        requires
            self.wf(),
        ensures
            version >= self.roots@.len() ==> r == Err::<i32, TreeError>(
                TreeError::VersionOutOfRange,
            ),
            version < self.roots@.len() && !fits_i32(
                self.version_sum(version as int, left_bound as int, right_bound as int),
            ) ==> r == Err::<i32, TreeError>(TreeError::Overflow),
            version < self.roots@.len() && fits_i32(
                self.version_sum(version as int, left_bound as int, right_bound as int),
            ) ==> (r matches Ok(x) && x == self.version_sum(
                version as int,
                left_bound as int,
                right_bound as int,
            )),
    {
        if version >= self.roots.len() {
            return Err(TreeError::VersionOutOfRange);
        }
        assert(self.roots@[version as int].wf());
        let total = self.roots[version].window(left_bound, right_bound);
        if total < i32::MIN as i128 || total > i32::MAX as i128 {
            Err(TreeError::Overflow)
        } else {
            Ok(total as i32)
        }
    }
}

/// In every version, the sum over a range equals the
/// total of the values that the chain of updates leading to that version
/// added at positions in the range.
pub proof fn lemma_version_sum(t: &PersistentSegmentTree, v: int, qlo: int, qhi: int)
    requires
        t.wf(),
        0 <= v < t.roots@.len(),
    ensures
        t.version_sum(v, qlo, qhi) == t.chain_total(v, qlo, qhi),
    decreases v,
{
    assert(t.roots@[v].wf());
    if v == 0 {
        lemma_window_zeros((t.hi() - t.lo()) as nat, t.lo(), qlo, qhi);
    } else {
        let e = t.edits@[v - 1];
        let b = e.base as int;
        assert(t.roots@[b].wf());
        t.roots@[b].lemma_values();
        lemma_version_sum(t, b, qlo, qhi);
        lemma_window_update(
            t.roots@[b].values(),
            t.lo(),
            e.position - t.lo(),
            e.value as int,
            qlo,
            qhi,
        );
    }
}

/// A later update, made from any version, leaves the sums of
/// every existing version as they were.
pub proof fn lemma_versions_kept(
    before: &PersistentSegmentTree,
    after: &PersistentSegmentTree,
    v: int,
    qlo: int,
    qhi: int,
)
    requires
        after.keeps_versions_of(before),
        0 <= v < before.roots@.len(),
    ensures
        after.version_sum(v, qlo, qhi) == before.version_sum(v, qlo, qhi),
{
    assert(after.roots@[v] == before.roots@[v]);
}

} // verus!
