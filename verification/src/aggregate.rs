//! Subtree sums in machine integers.
//!
//! The sum of a subtree is a mathematical integer; a tree can be large
//! enough for it to leave every machine type. The executable sum is an
//! `i64` and is there exactly where the sum of the subtree and of every
//! subtree inside it fits.

use vstd::prelude::*;

use crate::forest::forest_sum;
use crate::forest::lemma_forest_sum_step;
use crate::forest::subtree_sum;
use crate::task::forest_view;
use crate::task::lemma_task_view;
use crate::task::Task;
use crate::task::TaskView;

verus! {

broadcast use lemma_task_view;

/// Whether the sum of `t` and the sum of every subtree of `t` fit an
/// `i64`.
pub open spec fn sums_fit(t: TaskView) -> bool
    decreases t,
{
    &&& i64::MIN <= subtree_sum(t) <= i64::MAX
    &&& forall|i: int| 0 <= i < t.children.len() ==> sums_fit(#[trigger] t.children[i])
}

/// The subtree sum of `t` where it can be computed in `i64`.
pub open spec fn checked_sum(t: TaskView) -> Option<int> {
    if sums_fit(t) {
        Some(subtree_sum(t))
    } else {
        None
    }
}

/// The value of an optional machine sum.
pub open spec fn sum_view(s: Option<i64>) -> Option<int> {
    match s {
        Some(v) => Some(v as int),
        None => None,
    }
}

/// A running total over the children of one task: the sum so far, or the
/// note that some child's sum did not fit.
pub(crate) struct Running {
    pub(crate) total: i128,
    pub(crate) fits: bool,
}

impl Running {
    /// Whether `self` is the running total of `t` after its first `k`
    /// children.
    pub(crate) open spec fn covers(self, t: TaskView, k: int) -> bool {
        &&& 0 <= k <= t.children.len()
        &&& self.fits ==> self.total == t.estimate + forest_sum(t.children.take(k))
        &&& self.fits ==> forall|j: int| 0 <= j < k ==> sums_fit(#[trigger] t.children[j])
        &&& !self.fits ==> exists|j: int| 0 <= j < k && !sums_fit(#[trigger] t.children[j])
        &&& -(2147483648 + k * 9223372036854775808) <= self.total
        &&& self.total <= 2147483648 + k * 9223372036854775808
    }

    /// The running total of a task before any of its children.
    pub(crate) fn start(estimate: i32, Ghost(t): Ghost<TaskView>) -> (r: Self)
        requires
            t.estimate == estimate,
        ensures
            r.covers(t, 0),
    {
        assert(t.children.take(0).len() == 0);
        Running { total: estimate as i128, fits: true }
    }

    /// Takes in the sum of child number `k`.
    pub(crate) fn add(&mut self, child: Option<i64>, Ghost(t): Ghost<TaskView>, Ghost(k): Ghost<int>)
        requires
            old(self).covers(t, k),
            k < t.children.len(),
            t.children.len() <= usize::MAX,
            sum_view(child) == checked_sum(t.children[k]),
        ensures
            final(self).covers(t, k + 1),
    {
        proof {
            lemma_forest_sum_step(t.children, k);
        }
        match child {
            Some(s) => {
                if self.fits {
                    self.total = self.total + s as i128;
                }
            },
            None => {
                self.fits = false;
            },
        }
    }

    /// The sum of the task once all its children are in.
    pub(crate) fn finish(&self, Ghost(t): Ghost<TaskView>) -> (r: Option<i64>)
        requires
            self.covers(t, t.children.len() as int),
        ensures
            sum_view(r) == checked_sum(t),
    {
        assert(t.children.take(t.children.len() as int) =~= t.children);
        if self.fits && -9223372036854775808 <= self.total && self.total <= 9223372036854775807 {
            Some(self.total as i64)
        } else {
            None
        }
    }
}

impl Task {
    /// The estimate of the task plus the estimates of all its
    /// descendants; `None` where the sum of some subtree, this one
    /// included, does not fit an `i64`.
    pub fn subtree_sum(&self) -> (r: Option<i64>)
        ensures
            sum_view(r) == checked_sum(self@),
        decreases self,
    {
        let mut running = Running::start(self.estimate, Ghost(self@));
        let mut i: usize = 0;
        while i < self.children.len()
            invariant
                i <= self.children.len(),
                self@.children == forest_view(self.children@),
                running.covers(self@, i as int),
            decreases self.children.len() - i,
        {
            let child = self.children[i].subtree_sum();
            assert(self@.children[i as int] == self.children@[i as int]@);
            running.add(child, Ghost(self@), Ghost(i as int));
            i += 1;
        }
        running.finish(Ghost(self@))
    }
}

} // verus!
