//! The task node and the identifiers of its children.

use vstd::prelude::*;
use vstd::string::StringExecFns;

use crate::text::decimal;
use crate::text::lemma_decimal_injective;
use crate::text::push_decimal;
use crate::text::str_eq;

verus! {

/// The mathematical value of a task: what the tree holds, without the
/// machine representation.
pub struct TaskView {
    pub id: Seq<char>,
    pub name: Seq<char>,
    pub estimate: int,
    pub children: Seq<TaskView>,
}

/// A node of the estimation tree. A task owns its children; their order is
/// the order in which they were added.
#[derive(Debug)]
pub struct Task {
    pub id: String,
    pub name: String,
    pub estimate: i32,
    pub children: Vec<Task>,
}

impl View for Task {
    type V = TaskView;

    open spec fn view(&self) -> TaskView
        decreases self,
    {
        TaskView {
            id: self.id@,
            name: self.name@,
            estimate: self.estimate as int,
            children: Seq::new(
                self.children@.len(),
                |i: int|
                    if 0 <= i < self.children@.len() {
                        self.children@[i]@
                    } else {
                        arbitrary()
                    },
            ),
        }
    }
}

/// The values of a sequence of tasks, in order.
pub open spec fn forest_view(tasks: Seq<Task>) -> Seq<TaskView> {
    Seq::new(tasks.len(), |i: int| tasks[i]@)
}

/// A childless task with the given fields.
pub open spec fn leaf(id: Seq<char>, name: Seq<char>, estimate: int) -> TaskView {
    TaskView { id, name, estimate, children: Seq::empty() }
}

/// The identifier that a parent's identifier and a suffix number make.
pub open spec fn child_id(parent_id: Seq<char>, suffix: nat) -> Seq<char> {
    parent_id + seq!['-'] + decimal(suffix)
}

/// Whether one of `children` has the identifier `id`.
pub open spec fn id_taken(children: Seq<TaskView>, id: Seq<char>) -> bool {
    exists|i: int| 0 <= i < children.len() && (#[trigger] children[i]).id == id
}

/// Whether `k` is the suffix of the next child of `t`: the least number,
/// counting up from the number of children, whose identifier no child of
/// `t` has yet.
pub open spec fn is_next_suffix(t: TaskView, k: nat) -> bool {
    &&& t.children.len() <= k
    &&& !id_taken(t.children, child_id(t.id, k))
    &&& forall|j: nat|
        t.children.len() <= j < k ==> id_taken(t.children, #[trigger] child_id(t.id, j))
}

/// The suffix of the next child of `t`.
pub open spec fn next_suffix(t: TaskView) -> nat {
    choose|k: nat| is_next_suffix(t, k)
}

/// The identifier of the next child of `t`.
pub open spec fn next_child_id(t: TaskView) -> Seq<char> {
    child_id(t.id, next_suffix(t))
}

/// `t` with one more child, added last under the next free identifier.
pub open spec fn with_child(t: TaskView, name: Seq<char>, estimate: int) -> TaskView {
    TaskView {
        id: t.id,
        name: t.name,
        estimate: t.estimate,
        children: t.children.push(leaf(next_child_id(t), name, estimate)),
    }
}

/// `t` after adding one child for each entry of `additions`, in order; an
/// entry is the name and the estimate of the new child.
pub open spec fn with_children(t: TaskView, additions: Seq<(Seq<char>, int)>) -> TaskView
    decreases additions.len(),
{
    if additions.len() == 0 {
        t
    } else {
        with_child(
            with_children(t, additions.drop_last()),
            additions.last().0,
            additions.last().1,
        )
    }
}

/// What the value of a task is, field by field: the children of the value
/// are the values of the children.
pub broadcast proof fn lemma_task_view(t: Task)
    ensures
        #[trigger] t@ == (TaskView {
            id: t.id@,
            name: t.name@,
            estimate: t.estimate as int,
            children: forest_view(t.children@),
        }),
{
    reveal_with_fuel(<Task as View>::view, 2);
    assert(t@.children =~= forest_view(t.children@));
}

/// Different suffixes make different identifiers under one parent.
pub proof fn lemma_child_id_injective(parent_id: Seq<char>, a: nat, b: nat)
    requires
        child_id(parent_id, a) == child_id(parent_id, b),
    ensures
        a == b,
{
    let prefix = parent_id + seq!['-'];
    let x = child_id(parent_id, a);
    let y = child_id(parent_id, b);
    assert(x.subrange(prefix.len() as int, x.len() as int) =~= decimal(a));
    assert(y.subrange(prefix.len() as int, y.len() as int) =~= decimal(b));
    lemma_decimal_injective(a, b);
}

/// A run of `m` consecutive suffixes whose identifiers are all taken needs
/// at least `m` children.
pub proof fn lemma_taken_run(children: Seq<TaskView>, parent_id: Seq<char>, base: nat, m: nat)
    requires
        forall|j: nat| base <= j < base + m ==> id_taken(children, #[trigger] child_id(parent_id, j)),
    ensures
        m <= children.len(),
    decreases m,
{
    if m > 0 {
        let top = (base + m - 1) as nat;
        assert(id_taken(children, child_id(parent_id, top)));
        let i = choose|i: int| 0 <= i < children.len() && (#[trigger] children[i]).id == child_id(parent_id, top);
        let rest = children.remove(i);
        assert forall|j: nat| base <= j < base + (m - 1) as nat implies id_taken(
            rest,
            #[trigger] child_id(parent_id, j),
        ) by {
            assert(id_taken(children, child_id(parent_id, j)));
            let w = choose|w: int| 0 <= w < children.len() && (#[trigger] children[w]).id == child_id(parent_id, j);
            if w == i {
                lemma_child_id_injective(parent_id, j, top);
            }
            if w < i {
                assert(rest[w] == children[w]);
            } else {
                assert(rest[w - 1] == children[w]);
            }
        }
        lemma_taken_run(rest, parent_id, base, (m - 1) as nat);
    }
}

/// Every task has a next suffix, exactly one, and it is at most twice the
/// number of its children.
pub proof fn lemma_next_suffix(t: TaskView)
    ensures
        is_next_suffix(t, next_suffix(t)),
        next_suffix(t) <= 2 * t.children.len(),
        forall|k: nat| is_next_suffix(t, k) ==> k == next_suffix(t),
{
    let n = t.children.len();
    lemma_least_free_suffix(t, 0);
    let k = choose|k: nat| is_next_suffix(t, k);
    assert(n <= k);
    assert(k <= 2 * n) by {
        lemma_taken_run(t.children, t.id, n, (k - n) as nat);
    }
    assert forall|k2: nat| is_next_suffix(t, k2) implies k2 == k by {
        if k2 < k {
            assert(id_taken(t.children, child_id(t.id, k2)));
        }
        if k < k2 {
            assert(id_taken(t.children, child_id(t.id, k)));
        }
    }
}

/// Searching upwards from `children.len() + tried` finds a next suffix,
/// given that all suffixes before that are taken.
proof fn lemma_least_free_suffix(t: TaskView, tried: nat)
    requires
        tried <= t.children.len(),
        forall|j: nat|
            t.children.len() <= j < t.children.len() + tried ==> id_taken(
                t.children,
                #[trigger] child_id(t.id, j),
            ),
    ensures
        exists|k: nat| is_next_suffix(t, k),
    decreases t.children.len() - tried,
{
    let n = t.children.len();
    let k = (n + tried) as nat;
    if !id_taken(t.children, child_id(t.id, k)) {
        assert(is_next_suffix(t, k));
    } else {
        lemma_taken_run(t.children, t.id, n, tried + 1);
        lemma_least_free_suffix(t, tried + 1);
    }
}

/// Adding children one after another keeps the children that were there,
/// in place, and gives each new child an identifier that no child before
/// it has, old or new.
pub proof fn lemma_added_child_ids_distinct(t: TaskView, additions: Seq<(Seq<char>, int)>)
    ensures
        with_children(t, additions).id == t.id,
        with_children(t, additions).children.len() == t.children.len() + additions.len(),
        forall|i: int|
            0 <= i < t.children.len() ==> with_children(t, additions).children[i] == t.children[i],
        forall|i: int, j: int|
            0 <= i < j < t.children.len() + additions.len() && t.children.len() <= j ==> with_children(
                t,
                additions,
            ).children[i].id != with_children(t, additions).children[j].id,
    decreases additions.len(),
{
    if additions.len() > 0 {
        let before = with_children(t, additions.drop_last());
        let after = with_children(t, additions);
        lemma_added_child_ids_distinct(t, additions.drop_last());
        lemma_next_suffix(before);
        assert(after == with_child(before, additions.last().0, additions.last().1));
        let last = after.children.len() - 1;
        assert forall|i: int, j: int|
            0 <= i < j < t.children.len() + additions.len() && t.children.len() <= j implies after.children[i].id
            != after.children[j].id by {
            if j == last {
                assert(after.children[i] == before.children[i]);
                assert(after.children[j].id == next_child_id(before));
                if before.children[i].id == next_child_id(before) {
                    assert(id_taken(before.children, child_id(before.id, next_suffix(before))));
                }
            } else {
                assert(after.children[i] == before.children[i]);
                assert(after.children[j] == before.children[j]);
            }
        }
    }
}

/// Where the children of a task had pairwise different identifiers, they
/// still have after any number of additions.
pub proof fn lemma_child_ids_stay_distinct(t: TaskView, additions: Seq<(Seq<char>, int)>)
    requires
        forall|i: int, j: int| 0 <= i < j < t.children.len() ==> t.children[i].id != t.children[j].id,
    ensures
        forall|i: int, j: int|
            0 <= i < j < with_children(t, additions).children.len() ==> with_children(
                t,
                additions,
            ).children[i].id != with_children(t, additions).children[j].id,
{
    lemma_added_child_ids_distinct(t, additions);
    let r = with_children(t, additions);
    assert forall|i: int, j: int| 0 <= i < j < r.children.len() implies r.children[i].id
        != r.children[j].id by {
        if j < t.children.len() {
            assert(r.children[i] == t.children[i]);
            assert(r.children[j] == t.children[j]);
        }
    }
}

impl Task {
    /// A task without children.
    pub fn new(id: &str, name: &str, estimate: i32) -> (r: Self)
        ensures
            r@ == leaf(id@, name@, estimate as int),
    {
        broadcast use lemma_task_view;

        let r = Task {
            id: String::from_str(id),
            name: String::from_str(name),
            estimate,
            children: Vec::new(),
        };
        assert(r@.children =~= Seq::empty());
        r
    }

    /// Whether a direct child has the identifier `id`.
    pub fn has_child_id(&self, id: &str) -> (r: bool)
        ensures
            r == id_taken(self@.children, id@),
    {
        broadcast use lemma_task_view;

        let mut i: usize = 0;
        while i < self.children.len()
            invariant
                i <= self.children.len(),
                self@.children == forest_view(self.children@),
                forall|j: int| 0 <= j < i ==> (#[trigger] self@.children[j]).id != id@,
            decreases self.children.len() - i,
        {
            if str_eq(self.children[i].id.as_str(), id) {
                assert(self@.children[i as int] == self.children@[i as int]@);
                assert(self@.children[i as int].id == id@);
                return true;
            }
            assert(self@.children[i as int] == self.children@[i as int]@);
            i += 1;
        }
        false
    }

    /// The identifier for the next child: the parent's identifier, a `-`,
    /// and the first number, counting up from the number of children, that
    /// gives an identifier no direct child has.
    pub fn get_child_id(&self) -> (r: String)
        ensures
            r@ == next_child_id(self@),
            !id_taken(self@.children, r@),
    {
        broadcast use lemma_task_view;

        let ghost n = self@.children.len();
        let mut counter: u128 = self.children.len() as u128;
        loop
            invariant
                n == self@.children.len(),
                n == self.children.len(),
                n <= counter <= 2 * n,
                forall|j: nat| n <= j < counter ==> id_taken(self@.children, #[trigger] child_id(self@.id, j)),
            decreases 2 * n - counter,
        {
            let mut candidate = String::from_str(self.id.as_str());
            proof {
                reveal_strlit("-");
            }
            candidate.append("-");
            push_decimal(&mut candidate, counter);
            assert(candidate@ =~= child_id(self@.id, counter as nat));
            if !self.has_child_id(candidate.as_str()) {
                proof {
                    assert(is_next_suffix(self@, counter as nat));
                    lemma_next_suffix(self@);
                }
                return candidate;
            }
            proof {
                lemma_taken_run(self@.children, self@.id, n, (counter + 1 - n) as nat);
            }
            counter += 1;
        }
    }

    /// Adds a child with the given name and estimate under the next free
    /// identifier, after the children that are there, and returns that
    /// identifier.
    pub fn add_child_task(&mut self, name: &str, estimate: i32) -> (r: String)
        ensures
            r@ == next_child_id(old(self)@),
            !id_taken(old(self)@.children, r@),
            final(self)@ == with_child(old(self)@, name@, estimate as int),
    {
        broadcast use lemma_task_view;

        let id = self.get_child_id();
        let child = Task::new(id.as_str(), name, estimate);
        self.children.push(child);
        assert(self@.children =~= old(self)@.children.push(
            leaf(next_child_id(old(self)@), name@, estimate as int),
        ));
        id
    }
}

impl Clone for Task {
    fn clone(&self) -> (r: Self)
        ensures
            r@ == self@,
        decreases self,
    {
        broadcast use lemma_task_view;

        let mut children: Vec<Task> = Vec::new();
        let mut i: usize = 0;
        while i < self.children.len()
            invariant
                i <= self.children.len(),
                children.len() == i,
                forall|j: int| 0 <= j < i ==> (#[trigger] children@[j])@ == self.children@[j]@,
            decreases self.children.len() - i,
        {
            let child = self.children[i].clone();
            children.push(child);
            i += 1;
        }
        let r = Task { id: self.id.clone(), name: self.name.clone(), estimate: self.estimate, children };
        assert(r@.children =~= self@.children);
        r
    }
}

} // verus!
