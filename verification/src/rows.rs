//! The tree as a flat list of rows, and back.
//!
//! A row is a task without its children, with their number in their
//! place. The rows of a tree are its tasks in pre-order. They are plain
//! values, fit for any store, and they determine the tree: reading the
//! rows of a tree gives that tree again, identifiers, names, estimates
//! and the order of children included.

use vstd::prelude::*;

use crate::estimate_app::EstimateApp;
use crate::task::forest_view;
use crate::task::lemma_task_view;
use crate::task::Task;
use crate::task::TaskView;

verus! {

broadcast use lemma_task_view;

/// One task without its children.
#[derive(Debug)]
pub struct TaskRow {
    pub id: String,
    pub name: String,
    pub estimate: i32,
    /// The number of children; their rows follow, each with its subtree.
    pub child_count: usize,
}

/// The mathematical value of a row.
pub struct TaskRowView {
    pub id: Seq<char>,
    pub name: Seq<char>,
    pub estimate: int,
    pub child_count: int,
}

impl View for TaskRow {
    type V = TaskRowView;

    open spec fn view(&self) -> TaskRowView {
        TaskRowView {
            id: self.id@,
            name: self.name@,
            estimate: self.estimate as int,
            child_count: self.child_count as int,
        }
    }
}

/// The values of a sequence of rows, in order.
pub open spec fn rows_view(rows: Seq<TaskRow>) -> Seq<TaskRowView> {
    Seq::new(rows.len(), |i: int| rows[i]@)
}

/// The row of a task.
pub open spec fn row_of(t: TaskView) -> TaskRowView {
    TaskRowView { id: t.id, name: t.name, estimate: t.estimate, child_count: t.children.len() as int }
}

/// The rows of a task and its descendants, in pre-order.
pub open spec fn rows_of_task(t: TaskView) -> Seq<TaskRowView>
    decreases t, 1int,
{
    seq![row_of(t)] + rows_of_forest(t.children)
}

/// The rows of a forest, in pre-order.
pub open spec fn rows_of_forest(f: Seq<TaskView>) -> Seq<TaskRowView>
    decreases f, 0int,
{
    if f.len() == 0 {
        Seq::empty()
    } else {
        rows_of_task(f.first()) + rows_of_forest(f.drop_first())
    }
}

/// Whether `part` stands in `rows` from position `pos` on.
pub open spec fn stands_at(part: Seq<TaskRowView>, rows: Seq<TaskRowView>, pos: int) -> bool {
    &&& 0 <= pos
    &&& pos + part.len() <= rows.len()
    &&& forall|k: int| 0 <= k < part.len() ==> rows[pos + k] == #[trigger] part[k]
}

/// The task whose rows start at `pos`, with the position behind them.
pub open spec fn read_task(rows: Seq<TaskRowView>, pos: int) -> Option<(TaskView, int)>
    decreases rows.len() - pos, 0int,
{
    if 0 <= pos < rows.len() && rows[pos].child_count >= 0 {
        match read_siblings(rows, pos + 1, rows[pos].child_count) {
            Some((children, end)) => Some(
                (
                    TaskView {
                        id: rows[pos].id,
                        name: rows[pos].name,
                        estimate: rows[pos].estimate,
                        children,
                    },
                    end,
                ),
            ),
            None => None,
        }
    } else {
        None
    }
}

/// The `n` tasks whose rows start at `pos`, one behind the other, with the
/// position behind them.
pub open spec fn read_siblings(rows: Seq<TaskRowView>, pos: int, n: int) -> Option<
    (Seq<TaskView>, int),
>
    decreases rows.len() - pos, n,
{
    if n <= 0 {
        Some((Seq::empty(), pos))
    } else {
        match read_task(rows, pos) {
            Some((t, mid)) => if pos < mid <= rows.len() {
                match read_siblings(rows, mid, n - 1) {
                    Some((rest, end)) => Some((seq![t] + rest, end)),
                    None => None,
                }
            } else {
                None
            },
            None => None,
        }
    }
}

/// The forest whose rows fill `rows` from `pos` to the end.
pub open spec fn read_forest(rows: Seq<TaskRowView>, pos: int) -> Option<Seq<TaskView>>
    decreases rows.len() - pos,
{
    if pos >= rows.len() {
        Some(Seq::empty())
    } else {
        match read_task(rows, pos) {
            Some((t, mid)) => if pos < mid <= rows.len() {
                match read_forest(rows, mid) {
                    Some(rest) => Some(seq![t] + rest),
                    None => None,
                }
            } else {
                None
            },
            None => None,
        }
    }
}

/// What is read as a task are the rows of that task.
pub proof fn lemma_read_task_sound(rows: Seq<TaskRowView>, pos: int)
    ensures
        match read_task(rows, pos) {
            Some((t, end)) => pos < end && stands_at(rows_of_task(t), rows, pos) && end == pos
                + rows_of_task(t).len(),
            None => true,
        },
    decreases rows.len() - pos, 0int,
{
    if 0 <= pos < rows.len() && rows[pos].child_count >= 0 {
        lemma_read_siblings_sound(rows, pos + 1, rows[pos].child_count);
        match read_siblings(rows, pos + 1, rows[pos].child_count) {
            Some((children, end)) => {
                let t = read_task(rows, pos).unwrap().0;
                let part = rows_of_task(t);
                let below = rows_of_forest(children);
                assert(t.children == children);
                assert(part[0] == rows[pos]);
                assert forall|k: int| 0 <= k < part.len() implies rows[pos + k] == #[trigger] part[k] by {
                    if k > 0 {
                        assert(part[k] == below[k - 1]);
                        assert(rows[pos + 1 + (k - 1)] == below[k - 1]);
                    }
                }
            },
            None => {},
        }
    }
}

/// What is read as siblings are the rows of those siblings.
pub proof fn lemma_read_siblings_sound(rows: Seq<TaskRowView>, pos: int, n: int)
    requires
        0 <= pos <= rows.len(),
        0 <= n,
    ensures
        match read_siblings(rows, pos, n) {
            Some((f, end)) => stands_at(rows_of_forest(f), rows, pos) && end == pos + rows_of_forest(
                f,
            ).len() && f.len() == n,
            None => true,
        },
    decreases rows.len() - pos, n,
{
    if n > 0 {
        lemma_read_task_sound(rows, pos);
        match read_task(rows, pos) {
            Some((t, mid)) => {
                if pos < mid <= rows.len() {
                    lemma_read_siblings_sound(rows, mid, n - 1);
                    match read_siblings(rows, mid, n - 1) {
                        Some((rest, end)) => {
                            let f = seq![t] + rest;
                            let head = rows_of_task(t);
                            let tail = rows_of_forest(rest);
                            let part = rows_of_forest(f);
                            assert(f.first() == t);
                            assert(f.drop_first() =~= rest);
                            assert(part == head + tail);
                            assert forall|k: int| 0 <= k < part.len() implies rows[pos + k]
                                == #[trigger] part[k] by {
                                if k < head.len() {
                                    assert(part[k] == head[k]);
                                } else {
                                    assert(part[k] == tail[k - head.len()]);
                                    assert(rows[mid + (k - head.len())] == tail[k - head.len()]);
                                }
                            }
                        },
                        None => {},
                    }
                }
            },
            None => {},
        }
    }
}

/// The rows of a task, wherever they stand, are read as that task.
pub proof fn lemma_read_task_complete(rows: Seq<TaskRowView>, pos: int, t: TaskView)
    requires
        stands_at(rows_of_task(t), rows, pos),
    ensures
        read_task(rows, pos) == Some((t, pos + rows_of_task(t).len())),
    decreases t, 1int,
{
    let part = rows_of_task(t);
    let below = rows_of_forest(t.children);
    assert(part[0] == row_of(t));
    assert(rows[pos + 0] == part[0]);
    assert forall|k: int| 0 <= k < below.len() implies rows[pos + 1 + k] == #[trigger] below[k] by {
        assert(part[k + 1] == below[k]);
    }
    lemma_read_siblings_complete(rows, pos + 1, t.children);
}

/// The rows of a forest, wherever they stand, are read as its roots.
pub proof fn lemma_read_siblings_complete(rows: Seq<TaskRowView>, pos: int, f: Seq<TaskView>)
    requires
        stands_at(rows_of_forest(f), rows, pos),
    ensures
        read_siblings(rows, pos, f.len() as int) == Some((f, pos + rows_of_forest(f).len())),
    decreases f, 0int,
{
    if f.len() > 0 {
        let part = rows_of_forest(f);
        let head = rows_of_task(f.first());
        let tail = rows_of_forest(f.drop_first());
        assert forall|k: int| 0 <= k < head.len() implies rows[pos + k] == #[trigger] head[k] by {
            assert(part[k] == head[k]);
        }
        lemma_read_task_complete(rows, pos, f.first());
        let mid = pos + head.len();
        assert forall|k: int| 0 <= k < tail.len() implies rows[mid + k] == #[trigger] tail[k] by {
            assert(part[head.len() + k] == tail[k]);
        }
        lemma_read_siblings_complete(rows, mid, f.drop_first());
        assert(seq![f.first()] + f.drop_first() =~= f);
    } else {
        assert(f =~= Seq::empty());
    }
}

/// What is read as a forest has exactly the rows that were read.
pub proof fn lemma_read_forest_sound(rows: Seq<TaskRowView>, pos: int)
    requires
        0 <= pos <= rows.len(),
    ensures
        match read_forest(rows, pos) {
            Some(f) => rows_of_forest(f) == rows.skip(pos),
            None => true,
        },
    decreases rows.len() - pos,
{
    if pos < rows.len() {
        lemma_read_task_sound(rows, pos);
        match read_task(rows, pos) {
            Some((t, mid)) => {
                if mid > pos {
                    lemma_read_forest_sound(rows, mid);
                    match read_forest(rows, mid) {
                        Some(rest) => {
                            let f = seq![t] + rest;
                            assert(f.first() == t);
                            assert(f.drop_first() =~= rest);
                            assert(rows_of_forest(f) =~= rows.skip(pos)) by {
                                let head = rows_of_task(t);
                                assert forall|k: int| 0 <= k < rows.len() - pos implies rows_of_forest(
                                    f,
                                )[k] == rows.skip(pos)[k] by {
                                    if k < head.len() {
                                        assert(rows[pos + k] == head[k]);
                                    } else {
                                        assert(rows.skip(mid)[k - head.len()] == rows[pos + k]);
                                    }
                                }
                            }
                        },
                        None => {},
                    }
                }
            },
            None => {},
        }
    } else {
        assert(rows.skip(pos) =~= Seq::empty());
    }
}

/// The rows of a forest, standing at the end, are read as that forest.
pub proof fn lemma_read_forest_complete(rows: Seq<TaskRowView>, pos: int, f: Seq<TaskView>)
    requires
        0 <= pos <= rows.len(),
        rows_of_forest(f) == rows.skip(pos),
    ensures
        read_forest(rows, pos) == Some(f),
    decreases f.len(),
{
    if f.len() == 0 {
        assert(f =~= Seq::empty());
    } else {
        let head = rows_of_task(f.first());
        let tail = rows_of_forest(f.drop_first());
        let part = rows_of_forest(f);
        assert(part == head + tail);
        assert(part.len() == rows.len() - pos);
        assert(head.len() >= 1);
        assert(pos < pos + head.len() <= rows.len());
        assert(head[0] == row_of(f.first()));
        assert forall|k: int| 0 <= k < head.len() implies rows[pos + k] == #[trigger] head[k] by {
            assert(part[k] == head[k]);
            assert(rows.skip(pos)[k] == rows[pos + k]);
        }
        lemma_read_task_complete(rows, pos, f.first());
        let mid = pos + head.len();
        assert(tail =~= rows.skip(mid)) by {
            assert forall|k: int| 0 <= k < tail.len() implies tail[k] == rows.skip(mid)[k] by {
                assert(part[head.len() + k] == tail[k]);
                assert(rows.skip(pos)[head.len() + k] == rows[mid + k]);
            }
        }
        lemma_read_forest_complete(rows, mid, f.drop_first());
        assert(seq![f.first()] + f.drop_first() =~= f);
    }
}

/// The rows of a tree determine the tree: read back, they give the same
/// identifiers, names, estimates and children in the same order.
pub proof fn lemma_rows_round_trip(f: Seq<TaskView>)
    ensures
        read_forest(rows_of_forest(f), 0) == Some(f),
{
    let rows = rows_of_forest(f);
    assert(rows.skip(0) =~= rows);
    lemma_read_forest_complete(rows, 0, f);
}

/// Two trees with the same rows are the same tree.
pub proof fn lemma_rows_injective(f: Seq<TaskView>, g: Seq<TaskView>)
    requires
        rows_of_forest(f) == rows_of_forest(g),
    ensures
        f == g,
{
    lemma_rows_round_trip(f);
    lemma_rows_round_trip(g);
}

/// Rows that are read as a forest are the rows of that forest, and rows
/// that are not are the rows of no forest.
pub proof fn lemma_read_forest(rows: Seq<TaskRowView>)
    ensures
        match read_forest(rows, 0) {
            Some(f) => rows_of_forest(f) == rows,
            None => forall|f: Seq<TaskView>| rows_of_forest(f) != rows,
        },
{
    assert(rows.skip(0) =~= rows);
    lemma_read_forest_sound(rows, 0);
    if read_forest(rows, 0) is None {
        assert forall|f: Seq<TaskView>| rows_of_forest(f) != rows by {
            if rows_of_forest(f) == rows {
                lemma_read_forest_complete(rows, 0, f);
            }
        }
    }
}

/// Appends the rows of `task` and its descendants to `rows`.
fn push_rows(task: &Task, rows: &mut Vec<TaskRow>)
    ensures
        rows_view(final(rows)@) == rows_view(old(rows)@) + rows_of_task(task@),
    decreases task,
{
    let ghost before = rows_view(rows@);
    let ghost f = task@.children;
    rows.push(
        TaskRow {
            id: task.id.clone(),
            name: task.name.clone(),
            estimate: task.estimate,
            child_count: task.children.len(),
        },
    );
    assert(f.take(0).len() == 0);
    assert(rows_view(rows@) =~= before + seq![row_of(task@)] + rows_of_forest(f.take(0)));
    let mut i: usize = 0;
    while i < task.children.len()
        invariant
            i <= task.children.len(),
            f == forest_view(task.children@),
            rows_view(rows@) == before + seq![row_of(task@)] + rows_of_forest(f.take(i as int)),
        decreases task.children.len() - i,
    {
        proof {
            lemma_rows_step(f, i as int);
        }
        push_rows(&task.children[i], rows);
        assert(rows_view(rows@) =~= before + seq![row_of(task@)] + rows_of_forest(f.take(i + 1)));
        i += 1;
    }
    assert(f.take(f.len() as int) =~= f);
    assert(rows_view(rows@) =~= before + rows_of_task(task@));
}

/// The rows of two forests put together are their rows put together.
pub proof fn lemma_rows_concat(a: Seq<TaskView>, b: Seq<TaskView>)
    ensures
        rows_of_forest(a + b) == rows_of_forest(a) + rows_of_forest(b),
    decreases a.len(),
{
    if a.len() == 0 {
        assert(a + b =~= b);
        assert(rows_of_forest(a) + rows_of_forest(b) =~= rows_of_forest(b));
    } else {
        assert((a + b).first() == a.first());
        assert((a + b).drop_first() =~= a.drop_first() + b);
        lemma_rows_concat(a.drop_first(), b);
        assert(rows_of_forest(a + b) =~= rows_of_forest(a) + rows_of_forest(b));
    }
}

/// The rows of the first `k + 1` roots are the rows of the first `k` and
/// then those of root number `k`.
pub proof fn lemma_rows_step(f: Seq<TaskView>, k: int)
    requires
        0 <= k < f.len(),
    ensures
        rows_of_forest(f.take(k + 1)) == rows_of_forest(f.take(k)) + rows_of_task(f[k]),
{
    let one = seq![f[k]];
    assert(f.take(k + 1) =~= f.take(k) + one);
    lemma_rows_concat(f.take(k), one);
    assert(one.first() == f[k]);
    assert(one.drop_first().len() == 0);
    assert(rows_of_forest(one.drop_first()) =~= Seq::empty());
    assert(rows_of_forest(one) =~= rows_of_task(f[k]));
}

/// Reads the task whose rows start at `pos`.
fn take_task(rows: &Vec<TaskRow>, pos: usize) -> (r: Option<(Task, usize)>)
    ensures
        match read_task(rows_view(rows@), pos as int) {
            Some((t, end)) => r is Some && r.unwrap().0@ == t && r.unwrap().1 == end,
            None => r is None,
        },
    decreases rows.len() - pos,
{
    let ghost all = rows_view(rows@);
    if pos >= rows.len() {
        return None;
    }
    let row = &rows[pos];
    assert(all[pos as int] == row@);
    let mut children: Vec<Task> = Vec::new();
    let mut next: usize = pos + 1;
    let mut left: usize = row.child_count;
    assert(forest_view(children@) + Seq::<TaskView>::empty() =~= Seq::<TaskView>::empty());
    while left > 0
        invariant
            all == rows_view(rows@),
            pos < next <= rows.len(),
            all[pos as int] == row@,
            match read_siblings(all, next as int, left as int) {
                Some((rest, end)) => read_siblings(all, pos + 1, row.child_count as int) == Some(
                    (forest_view(children@) + rest, end),
                ),
                None => read_siblings(all, pos + 1, row.child_count as int) is None,
            },
        decreases left,
    {
        proof {
            lemma_read_task_sound(all, next as int);
        }
        match take_task(rows, next) {
            Some((child, after)) => {
                let ghost so_far = forest_view(children@);
                let ghost t = child@;
                children.push(child);
                proof {
                    assert(forest_view(children@) =~= so_far + seq![t]);
                    match read_siblings(all, after as int, left - 1) {
                        Some((rest, end)) => {
                            assert(so_far + (seq![t] + rest) =~= so_far + seq![t] + rest);
                        },
                        None => {},
                    }
                }
                next = after;
                left -= 1;
            },
            None => {
                return None;
            },
        }
    }
    let task = Task { id: row.id.clone(), name: row.name.clone(), estimate: row.estimate, children };
    proof {
        assert(forest_view(children@) + Seq::<TaskView>::empty() =~= forest_view(children@));
        assert(task@.children == forest_view(children@));
    }
    Some((task, next))
}

impl EstimateApp {
    /// The rows of the tree: its tasks in pre-order, each with the number
    /// of its children.
    pub fn to_rows(&self) -> (r: Vec<TaskRow>)
        ensures
            rows_view(r@) == rows_of_forest(self@),
    {
        let ghost f = self@;
        let mut rows: Vec<TaskRow> = Vec::new();
        let mut i: usize = 0;
        assert(f.take(0).len() == 0);
        assert(rows_view(rows@) =~= rows_of_forest(f.take(0)));
        while i < self.tasks.len()
            invariant
                i <= self.tasks.len(),
                f == forest_view(self.tasks@),
                rows_view(rows@) == rows_of_forest(f.take(i as int)),
            decreases self.tasks.len() - i,
        {
            proof {
                lemma_rows_step(f, i as int);
            }
            push_rows(&self.tasks[i], &mut rows);
            i += 1;
        }
        assert(f.take(f.len() as int) =~= f);
        rows
    }

    /// The tree that has the given rows; `None` where no tree has them:
    /// where a row promises more children than rows follow.
    pub fn from_rows(rows: &Vec<TaskRow>) -> (r: Option<Self>)
        ensures
            match r {
                Some(app) => rows_of_forest(app@) == rows_view(rows@),
                None => forall|f: Seq<TaskView>| rows_of_forest(f) != rows_view(rows@),
            },
            match r {
                Some(app) => read_forest(rows_view(rows@), 0) == Some(app@),
                None => read_forest(rows_view(rows@), 0) is None,
            },
    {
        let ghost all = rows_view(rows@);
        let mut tasks: Vec<Task> = Vec::new();
        let mut pos: usize = 0;
        assert(forest_view(tasks@) + Seq::<TaskView>::empty() =~= Seq::<TaskView>::empty());
        while pos < rows.len()
            invariant
                all == rows_view(rows@),
                pos <= rows.len(),
                match read_forest(all, pos as int) {
                    Some(rest) => read_forest(all, 0) == Some(forest_view(tasks@) + rest),
                    None => read_forest(all, 0) is None,
                },
            decreases rows.len() - pos,
        {
            proof {
                lemma_read_task_sound(all, pos as int);
            }
            match take_task(rows, pos) {
                Some((task, after)) => {
                    let ghost so_far = forest_view(tasks@);
                    let ghost t = task@;
                    tasks.push(task);
                    proof {
                        assert(forest_view(tasks@) =~= so_far + seq![t]);
                        match read_forest(all, after as int) {
                            Some(rest) => {
                                assert(so_far + (seq![t] + rest) =~= so_far + seq![t] + rest);
                            },
                            None => {},
                        }
                    }
                    pos = after;
                },
                None => {
                    proof {
                        lemma_read_forest(all);
                    }
                    return None;
                },
            }
        }
        proof {
            lemma_read_forest(all);
            assert(forest_view(tasks@) + Seq::<TaskView>::empty() =~= forest_view(tasks@));
        }
        Some(EstimateApp { tasks })
    }
}

} // verus!
