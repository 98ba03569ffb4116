//! The task tree: its roots, lookup by identifier and navigation in
//! pre-order.

use vstd::prelude::*;
use vstd::string::StringExecFns;

use crate::forest::estimates_fit;
use crate::forest::find;
use crate::forest::flatten_forest;
use crate::forest::flatten_task;
use crate::forest::lemma_flatten_concat;
use crate::forest::lemma_flatten_single;
use crate::forest::lemma_flatten_split;
use crate::forest::lemma_position_concat;
use crate::forest::lemma_replace_behind;
use crate::forest::lemma_flatten_task_head;
use crate::forest::lemma_position;
use crate::forest::lemma_position_in_forest;
use crate::forest::lemma_position_in_task;
use crate::forest::lemma_position_is;
use crate::forest::lemma_position_none;
use crate::forest::lemma_search_done;
use crate::forest::lemma_search_start;
use crate::forest::lemma_search_step;
use crate::forest::next_id;
use crate::forest::position;
use crate::forest::previous_id;
use crate::forest::replace_in_forest;
use crate::forest::replace_in_task;
use crate::numbering::lemma_add_child_keeps_well_formed;
use crate::numbering::lemma_add_task_keeps_well_formed;
use crate::numbering::lemma_example_tasks_well_formed;
use crate::numbering::lemma_set_estimate_keeps_well_formed;
use crate::numbering::well_formed;
use crate::task::forest_view;
use crate::task::leaf;
use crate::task::lemma_task_view;
use crate::task::next_child_id;
use crate::task::with_child;
use crate::task::Task;
use crate::task::TaskView;
use crate::text::decimal;
use crate::text::push_decimal;
use crate::text::push_signed_decimal;
use crate::text::signed_decimal;
use crate::text::str_eq;

verus! {

broadcast use lemma_task_view;

/// The tree of tasks: an ordered list of root tasks, each with its
/// subtree.
#[derive(Debug)]
pub struct EstimateApp {
    pub tasks: Vec<Task>,
}

impl View for EstimateApp {
    type V = Seq<TaskView>;

    open spec fn view(&self) -> Seq<TaskView> {
        forest_view(self.tasks@)
    }
}

/// The values of a sequence of borrowed tasks, in order.
pub open spec fn refs_view(tasks: Seq<&Task>) -> Seq<TaskView> {
    Seq::new(tasks.len(), |i: int| tasks[i]@)
}

/// The characters of an optional identifier.
pub open spec fn id_view(id: Option<&str>) -> Option<Seq<char>> {
    match id {
        Some(s) => Some(s@),
        None => None,
    }
}

/// The characters of an optional string.
pub open spec fn string_view(s: Option<String>) -> Option<Seq<char>> {
    match s {
        Some(s) => Some(s@),
        None => None,
    }
}

/// The identifier of the root task number `n`.
pub open spec fn root_id(n: int) -> Seq<char> {
    "task-"@ + signed_decimal(n)
}

/// A child of the sample root number `count`.
pub open spec fn example_child(count: int, k: nat) -> TaskView {
    leaf(
        root_id(count) + "-"@ + decimal(k),
        "Example Task "@ + signed_decimal(count) + " "@ + decimal(k),
        4,
    )
}

/// The sample root number `count`: roots 0 and 3 have three children, the
/// others none.
pub open spec fn example_task(count: int) -> TaskView {
    TaskView {
        id: root_id(count),
        name: "Example task "@ + signed_decimal(count),
        estimate: 16,
        children: if count == 0 || count == 3 {
            seq![example_child(count, 1), example_child(count, 2), example_child(count, 3)]
        } else {
            Seq::empty()
        },
    }
}

/// The sample tree: seven roots.
pub open spec fn example_tasks() -> Seq<TaskView> {
    Seq::new(7, |i: int| example_task(i))
}

/// The forest with the estimate of the first task named `id` set to
/// `value`; the forest itself where no task has that identifier.
pub open spec fn with_estimate(f: Seq<TaskView>, id: Seq<char>, value: int) -> Seq<TaskView> {
    match position(flatten_forest(f), id) {
        Some(i) => {
            let t = flatten_forest(f)[i];
            replace_in_forest(
                f,
                i,
                TaskView { id: t.id, name: t.name, estimate: value, children: t.children },
            )
        },
        None => f,
    }
}

/// The forest with a new child under the first task named `parent_id`;
/// the forest itself where no task has that identifier.
pub open spec fn with_child_of(
    f: Seq<TaskView>,
    parent_id: Seq<char>,
    name: Seq<char>,
    estimate: int,
) -> Seq<TaskView> {
    match position(flatten_forest(f), parent_id) {
        Some(i) => replace_in_forest(f, i, with_child(flatten_forest(f)[i], name, estimate)),
        None => f,
    }
}

/// The estimates of tasks in memory are 32-bit integers.
pub proof fn lemma_estimates_fit(tasks: Seq<Task>)
    ensures
        estimates_fit(forest_view(tasks)),
    decreases flatten_forest(forest_view(tasks)).len(),
{
    let f = forest_view(tasks);
    if tasks.len() > 0 {
        let first = f.first();
        let rest = f.drop_first();
        let below = flatten_forest(first.children);
        lemma_flatten_task_head(first);
        assert(first == tasks[0]@);
        assert(first.children == forest_view(tasks[0].children@));
        assert(rest =~= forest_view(tasks.drop_first()));
        lemma_estimates_fit(tasks[0].children@);
        lemma_estimates_fit(tasks.drop_first());
        let n = flatten_task(first).len() as int;
        assert forall|k: int| 0 <= k < flatten_forest(f).len() implies i32::MIN <= (
        #[trigger] flatten_forest(f)[k]).estimate <= i32::MAX by {
            if k == 0 {
            } else if k < n {
                assert(flatten_forest(f)[k] == below[k - 1]);
            } else {
                assert(flatten_forest(f)[k] == flatten_forest(rest)[k - n]);
            }
        }
    }
}

/// Looks for the first task in pre-order with the identifier `id` and
/// hands it out for change.
#[verifier::loop_isolation(false)]
fn find_mut_in<'a>(tasks: &'a mut [Task], id: &str) -> (r: Option<&'a mut Task>)
    ensures
        match position(flatten_forest(forest_view(old(tasks)@)), id@) {
            Some(i) => r is Some && (*r.unwrap())@ == flatten_forest(forest_view(old(tasks)@))[i]
                && forest_view(final(tasks)@) == replace_in_forest(
                forest_view(old(tasks)@),
                i,
                (*final(r.unwrap()))@,
            ),
            None => r is None && forest_view(final(tasks)@) == forest_view(old(tasks)@),
        },
    decreases flatten_forest(forest_view(old(tasks)@)).len(),
{
    let ghost f = forest_view(tasks@);
    let ghost after = forest_view(final(tasks)@);
    let ghost front: Seq<TaskView> = Seq::empty();
    let mut rest: &'a mut [Task] = tasks;
    proof {
        assert(front + forest_view(rest@) =~= f);
        assert(front + forest_view(final(rest)@) =~= after);
        lemma_position(flatten_forest(front), id@);
    }
    loop
        invariant
            f == front + forest_view(rest@),
            after == front + forest_view(final(rest)@),
            position(flatten_forest(front), id@) is None,
        decreases rest@.len(),
    {
        let ghost back = forest_view(rest@);
        let ghost offset = flatten_forest(front).len() as int;
        proof {
            lemma_flatten_concat(front, back);
            lemma_position_concat(flatten_forest(front), flatten_forest(back), id@);
        }
        if rest.len() == 0 {
            proof {
                lemma_position(flatten_forest(back), id@);
            }
            return None;
        }
        proof {
            lemma_position_in_forest(back, id@);
            lemma_position_in_task(back.first(), id@);
            lemma_flatten_task_head(back.first());
        }
        let ghost rest_after = forest_view(final(rest)@);
        let (head, tail) = rest.split_at_mut(1);
        let ghost head_after = final(head)@;
        let ghost tail_before = tail@;
        let ghost tail_after = final(tail)@;
        let ghost first = back.first();
        assert(forest_view(tail@) =~= back.drop_first());
        assert(head@[0]@ == first);
        let t = &mut head[0];
        let ghost t_after = *final(t);
        if str_eq(t.id.as_str(), id) {
            proof {
                let new = t_after@;
                assert(head_after =~= seq![t_after]);
                assert(tail_after == tail_before);
                assert(rest_after =~= seq![new] + back.drop_first());
                assert(replace_in_task(first, 0, new) == new);
                assert(replace_in_forest(back, 0, new) == seq![new] + back.drop_first());
                lemma_replace_behind(front, back, 0, new);
                assert(flatten_forest(f)[offset] == first);
            }
            return Some(t);
        }
        match find_mut_in(t.children.as_mut_slice(), id) {
            Some(found) => {
                proof {
                    let kids = first.children;
                    let j = position(flatten_forest(kids), id@).unwrap();
                    let new = (*final(found))@;
                    lemma_position(flatten_forest(kids), id@);
                    assert(t_after@ == replace_in_task(first, j + 1, new));
                    assert(head_after =~= seq![t_after]);
                    assert(tail_after == tail_before);
                    assert(rest_after =~= seq![t_after@] + back.drop_first());
                    assert(replace_in_forest(back, j + 1, new) == seq![
                        replace_in_task(first, j + 1, new),
                    ] + back.drop_first());
                    lemma_replace_behind(front, back, j + 1, new);
                    assert(flatten_forest(f)[offset + j + 1] == flatten_forest(kids)[j]);
                }
                return Some(found);
            },
            None => {
                proof {
                    assert(t_after@ == first);
                    assert(head_after =~= seq![t_after]);
                    assert(rest_after =~= seq![first] + forest_view(tail_after));
                    lemma_flatten_concat(front, seq![first]);
                    lemma_flatten_single(first);
                    lemma_position_concat(flatten_forest(front), flatten_task(first), id@);
                    assert(front.push(first) =~= front + seq![first]);
                    assert(front.push(first) + back.drop_first() =~= f);
                    assert(front.push(first) + forest_view(tail_after) =~= after);
                    front = front.push(first);
                }
                rest = tail;
            },
        }
    }
}

/// A child of a sample root.
fn example_child_task(count: i32, k: u8) -> (r: Task)
    ensures
        r@ == example_child(count as int, k as nat),
{
    let mut id = String::from_str("task-");
    push_signed_decimal(&mut id, count);
    id.append("-");
    push_decimal(&mut id, k as u128);
    let mut name = String::from_str("Example Task ");
    push_signed_decimal(&mut name, count);
    name.append(" ");
    push_decimal(&mut name, k as u128);
    assert(id@ =~= root_id(count as int) + "-"@ + decimal(k as nat));
    assert(name@ =~= "Example Task "@ + signed_decimal(count as int) + " "@ + decimal(k as nat));
    Task::new(id.as_str(), name.as_str(), 4)
}

impl EstimateApp {
    /// Whether the tree is numbered as one that grew by adding roots and
    /// children. Such a tree has no identifier twice. The constructors
    /// give such trees and `add_task`, `add_child` and `set_estimate` keep
    /// them so; the fields are open, so other changes may not.
    pub open spec fn well_formed(&self) -> bool {
        well_formed(self@)
    }

    /// The tree with the sample tasks.
    pub fn new() -> (r: Self)
        ensures
            r@ == example_tasks(),
            r.well_formed(),
    {
        proof {
            lemma_example_tasks_well_formed();
        }
        EstimateApp { tasks: Self::get_example_tasks() }
    }

    /// The seven sample roots.
    pub fn get_example_tasks() -> (r: Vec<Task>)
        ensures
            forest_view(r@) == example_tasks(),
    {
        let mut tasks: Vec<Task> = Vec::new();
        let mut i: i32 = 0;
        while i < 7
            invariant
                0 <= i <= 7,
                tasks.len() == i,
                forall|j: int| 0 <= j < i ==> (#[trigger] tasks@[j])@ == example_task(j),
            decreases 7 - i,
        {
            tasks.push(Self::get_example_task(i));
            i += 1;
        }
        assert(forest_view(tasks@) =~= example_tasks());
        tasks
    }

    /// The sample root number `count`.
    pub fn get_example_task(count: i32) -> (r: Task)
        ensures
            r@ == example_task(count as int),
    {
        let mut id = String::from_str("task-");
        push_signed_decimal(&mut id, count);
        let mut name = String::from_str("Example task ");
        push_signed_decimal(&mut name, count);
        let mut children: Vec<Task> = Vec::new();
        if count == 0 || count == 3 {
            children.push(example_child_task(count, 1));
            children.push(example_child_task(count, 2));
            children.push(example_child_task(count, 3));
        }
        let r = Task { id, name, estimate: 16, children };
        assert(r@.children =~= example_task(count as int).children);
        r
    }

    /// The roots, for change.
    pub fn get_tasks_mut(&mut self) -> (r: &mut Vec<Task>)
        ensures
            *r == old(self).tasks,
            final(self).tasks == *final(r),
    {
        &mut self.tasks
    }

    /// The roots.
    pub fn get_tasks(&self) -> (r: &Vec<Task>)
        ensures
            *r == self.tasks,
    {
        &self.tasks
    }

    /// Adds a root task with the given name and estimate zero, after the
    /// roots that are there. Its identifier, which is returned, is `task-`
    /// and the number of roots before the call.
    pub fn add_task(&mut self, name: &str) -> (r: String)
        ensures
            r@ == root_id(old(self)@.len() as int),
            final(self)@ == old(self)@.push(leaf(r@, name@, 0)),
            old(self).well_formed() ==> final(self).well_formed(),
    {
        proof {
            if self.well_formed() {
                lemma_add_task_keeps_well_formed(self@, name@);
            }
        }
        let mut id = String::from_str("task-");
        push_decimal(&mut id, self.tasks.len() as u128);
        let task = Task::new(id.as_str(), name, 0);
        self.tasks.push(task);
        assert(self@ =~= old(self)@.push(leaf(id@, name@, 0)));
        id
    }

    /// The first task in pre-order, over all roots and their subtrees,
    /// with the identifier `id`.
    pub fn find_task(&self, id: &str) -> (r: Option<&Task>)
        ensures
            match find(self@, id@) {
                Some(t) => r is Some && r.unwrap()@ == t,
                None => r is None,
            },
    {
        let ghost f = self@;
        proof {
            lemma_search_start(f, id@);
        }
        let mut i: usize = 0;
        while i < self.tasks.len()
            invariant
                i <= self.tasks.len(),
                f == forest_view(self.tasks@),
                position(flatten_forest(f.take(i as int)), id@) is None,
            decreases self.tasks.len() - i,
        {
            let task = &self.tasks[i];
            proof {
                lemma_search_step(f, i as int, id@);
            }
            if str_eq(task.id.as_str(), id) {
                return Some(task);
            }
            if let Some(found) = Self::find_task_recursive(task, id) {
                return Some(found);
            }
            i += 1;
        }
        proof {
            lemma_search_done(f, id@);
        }
        None
    }

    /// The first task in pre-order, over all roots and their subtrees,
    /// with the identifier `id`, for change. Whatever the caller makes of
    /// the task takes its place in the tree.
    pub fn find_mut_task(&mut self, id: &str) -> (r: Option<&mut Task>)
        ensures
            match position(flatten_forest(old(self)@), id@) {
                Some(i) => r is Some && (*r.unwrap())@ == flatten_forest(old(self)@)[i]
                    && final(self)@ == replace_in_forest(old(self)@, i, (*final(r.unwrap()))@),
                None => r is None && final(self)@ == old(self)@,
            },
    {
        find_mut_in(self.tasks.as_mut_slice(), id)
    }

    /// The first task in pre-order among the descendants of `task` with
    /// the identifier `id`, for change.
    pub fn find_mut_task_recursive<'a>(task: &'a mut Task, id: &str) -> (r: Option<&'a mut Task>)
        ensures
            final(task)@.id == old(task)@.id,
            final(task)@.name == old(task)@.name,
            final(task)@.estimate == old(task)@.estimate,
            match position(flatten_forest(old(task)@.children), id@) {
                Some(i) => r is Some && (*r.unwrap())@ == flatten_forest(old(task)@.children)[i]
                    && final(task)@.children == replace_in_forest(
                    old(task)@.children,
                    i,
                    (*final(r.unwrap()))@,
                ),
                None => r is None && final(task)@.children == old(task)@.children,
            },
    {
        find_mut_in(task.children.as_mut_slice(), id)
    }

    /// The first task in pre-order among the descendants of `task` with
    /// the identifier `id`.
    pub fn find_task_recursive<'a>(task: &'a Task, id: &str) -> (r: Option<&'a Task>)
        ensures
            match find(task@.children, id@) {
                Some(t) => r is Some && r.unwrap()@ == t,
                None => r is None,
            },
        decreases task,
    {
        let ghost f = task@.children;
        proof {
            lemma_search_start(f, id@);
        }
        let mut i: usize = 0;
        while i < task.children.len()
            invariant
                i <= task.children.len(),
                f == forest_view(task.children@),
                position(flatten_forest(f.take(i as int)), id@) is None,
            decreases task.children.len() - i,
        {
            let child = &task.children[i];
            proof {
                lemma_search_step(f, i as int, id@);
            }
            if str_eq(child.id.as_str(), id) {
                return Some(child);
            }
            if let Some(found) = Self::find_task_recursive(child, id) {
                return Some(found);
            }
            i += 1;
        }
        proof {
            lemma_search_done(f, id@);
        }
        None
    }

    /// The identifier of the task after the one named by `current_id` in
    /// pre-order, the first task following the last. Where `current_id` is
    /// absent or names no task, the first task's identifier. `None` only
    /// for a tree without tasks.
    pub fn next_task_id(&self, current_id: Option<&str>) -> (r: Option<String>)
        ensures
            string_view(r) == next_id(self@, id_view(current_id)),
            r is None <==> self@.len() == 0,
    {
        let flat_tasks = self.flatten_tasks();
        let ghost flat = flatten_forest(self@);
        proof {
            Self::lemma_flat_empty(self@);
        }
        if flat_tasks.len() == 0 {
            return None;
        }
        if let Some(id) = current_id {
            if let Some(index) = Self::position_in(&flat_tasks, id) {
                let next_index = if index + 1 == flat_tasks.len() {
                    0
                } else {
                    index + 1
                };
                return Some(flat_tasks[next_index].id.clone());
            }
        }
        Some(flat_tasks[0].id.clone())
    }

    /// The identifier of the task before the one named by `current_id` in
    /// pre-order, the last task preceding the first. Where `current_id` is
    /// absent or names no task, the first task's identifier. `None` only
    /// for a tree without tasks.
    pub fn previous_task_id(&self, current_id: Option<&str>) -> (r: Option<String>)
        ensures
            string_view(r) == previous_id(self@, id_view(current_id)),
            r is None <==> self@.len() == 0,
    {
        let flat_tasks = self.flatten_tasks();
        let ghost flat = flatten_forest(self@);
        proof {
            Self::lemma_flat_empty(self@);
        }
        if flat_tasks.len() == 0 {
            return None;
        }
        if let Some(id) = current_id {
            if let Some(index) = Self::position_in(&flat_tasks, id) {
                if index == 0 {
                    return Some(flat_tasks[flat_tasks.len() - 1].id.clone());
                }
                let next_index = index - 1;
                return Some(flat_tasks[next_index].id.clone());
            }
        }
        Some(flat_tasks[0].id.clone())
    }

    /// All tasks in pre-order: each root before its descendants, children
    /// in their order, roots in theirs.
    pub fn flatten_tasks(&self) -> (r: Vec<&Task>)
        ensures
            refs_view(r@) == flatten_forest(self@),
    {
        let ghost f = self@;
        let mut flat: Vec<&Task> = Vec::new();
        let mut i: usize = 0;
        assert(f.take(0).len() == 0);
        assert(refs_view(flat@) =~= flatten_forest(f.take(0)));
        while i < self.tasks.len()
            invariant
                i <= self.tasks.len(),
                f == forest_view(self.tasks@),
                refs_view(flat@) == flatten_forest(f.take(i as int)),
            decreases self.tasks.len() - i,
        {
            proof {
                lemma_flatten_split(f, i as int);
            }
            Self::flatten_task_recursive(&self.tasks[i], &mut flat);
            i += 1;
        }
        assert(f.take(f.len() as int) =~= f);
        flat
    }

    /// Appends `task` and then its descendants, in pre-order, to `flat`.
    pub fn flatten_task_recursive<'a>(task: &'a Task, flat: &mut Vec<&'a Task>)
        ensures
            refs_view(final(flat)@) == refs_view(old(flat)@) + flatten_task(task@),
        decreases task,
    {
        let ghost before = refs_view(flat@);
        let ghost f = task@.children;
        flat.push(task);
        assert(f.take(0).len() == 0);
        assert(refs_view(flat@) =~= before + seq![task@] + flatten_forest(f.take(0)));
        let mut i: usize = 0;
        while i < task.children.len()
            invariant
                i <= task.children.len(),
                f == forest_view(task.children@),
                refs_view(flat@) == before + seq![task@] + flatten_forest(f.take(i as int)),
            decreases task.children.len() - i,
        {
            proof {
                lemma_flatten_split(f, i as int);
            }
            let ghost so_far = refs_view(flat@);
            Self::flatten_task_recursive(&task.children[i], flat);
            assert(refs_view(flat@) =~= before + seq![task@] + flatten_forest(f.take(i + 1)));
            i += 1;
        }
        assert(f.take(f.len() as int) =~= f);
        assert(refs_view(flat@) =~= before + flatten_task(task@));
    }

    /// Adds a child with the given name and estimate to the first task
    /// named `parent_id`, and returns the child's identifier. Where no
    /// task has that identifier the tree stays as it is.
    pub fn add_child(&mut self, parent_id: &str, name: &str, estimate: i32) -> (r: Option<String>)
        ensures
            final(self)@ == with_child_of(old(self)@, parent_id@, name@, estimate as int),
            match find(old(self)@, parent_id@) {
                Some(parent) => r is Some && r.unwrap()@ == next_child_id(parent),
                None => r is None,
            },
            old(self).well_formed() ==> final(self).well_formed(),
    {
        proof {
            if self.well_formed() {
                lemma_add_child_keeps_well_formed(self@, parent_id@, name@, estimate as int);
            }
        }
        match self.find_mut_task(parent_id) {
            Some(parent) => Some(parent.add_child_task(name, estimate)),
            None => None,
        }
    }

    /// Sets the estimate of the first task named `task_id`. Where no task
    /// has that identifier the tree stays as it is.
    pub fn set_estimate(&mut self, task_id: &str, value: i32)
        ensures
            final(self)@ == with_estimate(old(self)@, task_id@, value as int),
            old(self).well_formed() ==> final(self).well_formed(),
    {
        proof {
            if self.well_formed() {
                lemma_set_estimate_keeps_well_formed(self@, task_id@, value as int);
            }
        }
        match self.find_mut_task(task_id) {
            Some(task) => {
                task.estimate = value;
            },
            None => {},
        }
    }

    /// The first index of `flat` whose task has the identifier `id`.
    fn position_in(flat: &Vec<&Task>, id: &str) -> (r: Option<usize>)
        ensures
            match position(refs_view(flat@), id@) {
                Some(i) => r is Some && r.unwrap() == i && i < flat.len(),
                None => r is None,
            },
    {
        let ghost views = refs_view(flat@);
        let mut i: usize = 0;
        while i < flat.len()
            invariant
                i <= flat.len(),
                views == refs_view(flat@),
                forall|j: int| 0 <= j < i ==> (#[trigger] views[j]).id != id@,
            decreases flat.len() - i,
        {
            if str_eq(flat[i].id.as_str(), id) {
                proof {
                    assert(views[i as int] == flat@[i as int]@);
                    lemma_position_is(views, id@, i as int);
                }
                return Some(i);
            }
            assert(views[i as int] == flat@[i as int]@);
            i += 1;
        }
        proof {
            lemma_position_none(views, id@);
        }
        None
    }

    /// A forest has nodes exactly where it has roots.
    proof fn lemma_flat_empty(f: Seq<TaskView>)
        ensures
            f.len() == 0 <==> flatten_forest(f).len() == 0,
            f.len() > 0 ==> flatten_forest(f)[0] == f[0],
    {
        if f.len() > 0 {
            lemma_flatten_task_head(f.first());
        }
    }
}

impl Default for EstimateApp {
    /// The tree without tasks.
    fn default() -> (r: Self)
        ensures
            r@ == Seq::<TaskView>::empty(),
            r.well_formed(),
    {
        let r = EstimateApp { tasks: Vec::new() };
        assert(r@ =~= Seq::<TaskView>::empty());
        r
    }
}

impl Clone for EstimateApp {
    fn clone(&self) -> (r: Self)
        ensures
            r@ == self@,
            r.well_formed() == self.well_formed(),
    {
        let mut tasks: Vec<Task> = Vec::new();
        let mut i: usize = 0;
        while i < self.tasks.len()
            invariant
                i <= self.tasks.len(),
                tasks.len() == i,
                forall|j: int| 0 <= j < i ==> (#[trigger] tasks@[j])@ == self.tasks@[j]@,
            decreases self.tasks.len() - i,
        {
            tasks.push(self.tasks[i].clone());
            i += 1;
        }
        let r = EstimateApp { tasks };
        assert(r@ =~= self@);
        r
    }
}

} // verus!
