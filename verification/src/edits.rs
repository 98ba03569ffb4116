//! What edits do to the order of the tree.
//!
//! The rows of a tree are its tasks in pre-order, the order of display and
//! navigation. Every edit replaces one node. Stated over the rows, an edit
//! touches the rows of that node's subtree and no others: all other tasks
//! keep their fields and their places relative to each other.

use vstd::prelude::*;

use crate::estimate_app::with_child_of;
use crate::estimate_app::with_estimate;
use crate::forest::find;
use crate::forest::flatten_forest;
use crate::forest::flatten_task;
use crate::forest::lemma_flatten_task_head;
use crate::forest::lemma_position;
use crate::forest::lemma_position_is;
use crate::forest::position;
use crate::forest::replace_in_forest;
use crate::forest::replace_in_task;
use crate::rows::lemma_rows_injective;
use crate::rows::row_of;
use crate::rows::rows_of_forest;
use crate::rows::rows_of_task;
use crate::rows::stands_at;
use crate::rows::TaskRowView;
use crate::task::leaf;
use crate::task::next_child_id;
use crate::task::with_child;
use crate::task::TaskView;

verus! {

/// `rows` with the `n` rows from position `i` on replaced by `part`.
pub open spec fn splice(
    rows: Seq<TaskRowView>,
    i: int,
    n: int,
    part: Seq<TaskRowView>,
) -> Seq<TaskRowView> {
    rows.take(i) + part + rows.skip(i + n)
}

/// The rows of a task are the rows of the nodes of its pre-order.
pub proof fn lemma_rows_of_task(t: TaskView)
    ensures
        rows_of_task(t).len() == flatten_task(t).len(),
        forall|k: int|
            0 <= k < flatten_task(t).len() ==> #[trigger] rows_of_task(t)[k] == row_of(
                flatten_task(t)[k],
            ),
    decreases t, 1int,
{
    lemma_rows_of_forest(t.children);
    assert forall|k: int| 0 <= k < flatten_task(t).len() implies #[trigger] rows_of_task(t)[k]
        == row_of(flatten_task(t)[k]) by {
        if k > 0 {
            assert(rows_of_task(t)[k] == rows_of_forest(t.children)[k - 1]);
            assert(flatten_task(t)[k] == flatten_forest(t.children)[k - 1]);
        }
    }
}

/// The rows of a forest are the rows of the nodes of its pre-order: rows,
/// navigation and display go through the tasks in one order.
pub proof fn lemma_rows_of_forest(f: Seq<TaskView>)
    ensures
        rows_of_forest(f).len() == flatten_forest(f).len(),
        forall|k: int|
            0 <= k < flatten_forest(f).len() ==> #[trigger] rows_of_forest(f)[k] == row_of(
                flatten_forest(f)[k],
            ),
    decreases f, 0int,
{
    if f.len() > 0 {
        lemma_rows_of_task(f.first());
        lemma_rows_of_forest(f.drop_first());
        let n = flatten_task(f.first()).len() as int;
        assert forall|k: int| 0 <= k < flatten_forest(f).len() implies #[trigger] rows_of_forest(
            f,
        )[k] == row_of(flatten_forest(f)[k]) by {
            if k < n {
                assert(rows_of_forest(f)[k] == rows_of_task(f.first())[k]);
                assert(flatten_forest(f)[k] == flatten_task(f.first())[k]);
            } else {
                assert(rows_of_forest(f)[k] == rows_of_forest(f.drop_first())[k - n]);
                assert(flatten_forest(f)[k] == flatten_forest(f.drop_first())[k - n]);
            }
        }
    }
}

/// Replacing the node at position `i` of a task's pre-order puts the rows
/// of the new node in the place of the rows of the old node's subtree,
/// which stand from `i` on.
pub proof fn lemma_replace_in_task(t: TaskView, i: int, new: TaskView)
    requires
        0 <= i < flatten_task(t).len(),
    ensures
        stands_at(rows_of_task(flatten_task(t)[i]), rows_of_task(t), i),
        rows_of_task(replace_in_task(t, i, new)) == splice(
            rows_of_task(t),
            i,
            rows_of_task(flatten_task(t)[i]).len() as int,
            rows_of_task(new),
        ),
    decreases t, 1int,
{
    let rows = rows_of_task(t);
    lemma_flatten_task_head(t);
    lemma_rows_of_task(t);
    if i <= 0 {
        assert(splice(rows, 0, rows.len() as int, rows_of_task(new)) =~= rows_of_task(new));
    } else {
        let below = rows_of_forest(t.children);
        let old = flatten_forest(t.children)[i - 1];
        let n = rows_of_task(old).len() as int;
        let part = rows_of_task(new);
        lemma_replace_in_forest(t.children, i - 1, new);
        let after = replace_in_task(t, i, new);
        assert(row_of(after) == row_of(t));
        assert forall|k: int| 0 <= k < n implies rows[i + k] == #[trigger] rows_of_task(old)[k] by {
            assert(rows[i + k] == below[i - 1 + k]);
        }
        assert(rows_of_task(after) =~= splice(rows, i, n, part)) by {
            assert(rows_of_task(after) == seq![row_of(t)] + splice(below, i - 1, n, part));
            assert(rows.take(i) =~= seq![row_of(t)] + below.take(i - 1));
            assert(rows.skip(i + n) =~= below.skip(i - 1 + n));
        }
    }
}

/// Replacing the node at position `i` of a forest's pre-order puts the
/// rows of the new node in the place of the rows of the old node's
/// subtree, which stand from `i` on, and keeps the number of roots.
pub proof fn lemma_replace_in_forest(f: Seq<TaskView>, i: int, new: TaskView)
    requires
        0 <= i < flatten_forest(f).len(),
    ensures
        replace_in_forest(f, i, new).len() == f.len(),
        stands_at(rows_of_task(flatten_forest(f)[i]), rows_of_forest(f), i),
        rows_of_forest(replace_in_forest(f, i, new)) == splice(
            rows_of_forest(f),
            i,
            rows_of_task(flatten_forest(f)[i]).len() as int,
            rows_of_task(new),
        ),
    decreases f, 0int,
{
    let rows = rows_of_forest(f);
    let first = f.first();
    let rest = f.drop_first();
    let head = rows_of_task(first);
    let tail = rows_of_forest(rest);
    let s = flatten_task(first).len() as int;
    let old = flatten_forest(f)[i];
    let n = rows_of_task(old).len() as int;
    let part = rows_of_task(new);
    let after = replace_in_forest(f, i, new);
    lemma_rows_of_task(first);
    lemma_rows_of_forest(rest);
    assert(rows == head + tail);
    if i < s {
        lemma_replace_in_task(first, i, new);
        let changed = replace_in_task(first, i, new);
        assert(old == flatten_task(first)[i]);
        assert(after.first() == changed);
        assert(after.drop_first() =~= rest);
        assert forall|k: int| 0 <= k < n implies rows[i + k] == #[trigger] rows_of_task(old)[k] by {
            assert(rows[i + k] == head[i + k]);
        }
        assert(rows_of_forest(after) =~= splice(rows, i, n, part)) by {
            assert(rows_of_forest(after) == splice(head, i, n, part) + tail);
            assert(rows.take(i) =~= head.take(i));
            assert(rows.skip(i + n) =~= head.skip(i + n) + tail);
        }
    } else {
        lemma_replace_in_forest(rest, i - s, new);
        assert(old == flatten_forest(rest)[i - s]);
        assert(after.first() == first);
        assert(after.drop_first() =~= replace_in_forest(rest, i - s, new));
        assert forall|k: int| 0 <= k < n implies rows[i + k] == #[trigger] rows_of_task(old)[k] by {
            assert(rows[i + k] == tail[i - s + k]);
        }
        assert(rows_of_forest(after) =~= splice(rows, i, n, part)) by {
            assert(rows_of_forest(after) == head + splice(tail, i - s, n, part));
            assert(rows.take(i) =~= head + tail.take(i - s));
            assert(rows.skip(i + n) =~= tail.skip(i - s + n));
        }
    }
}

/// Putting a node in its own place leaves the tree as it is.
pub proof fn lemma_replace_by_itself(f: Seq<TaskView>, i: int)
    requires
        0 <= i < flatten_forest(f).len(),
    ensures
        replace_in_forest(f, i, flatten_forest(f)[i]) == f,
{
    let rows = rows_of_forest(f);
    let node = flatten_forest(f)[i];
    let n = rows_of_task(node).len() as int;
    lemma_replace_in_forest(f, i, node);
    assert(splice(rows, i, n, rows_of_task(node)) =~= rows);
    lemma_rows_injective(replace_in_forest(f, i, node), f);
}

/// `rows` with the estimate of row `i` set to `value`.
pub open spec fn rows_with_estimate(rows: Seq<TaskRowView>, i: int, value: int) -> Seq<TaskRowView> {
    rows.update(
        i,
        TaskRowView {
            id: rows[i].id,
            name: rows[i].name,
            estimate: value,
            child_count: rows[i].child_count,
        },
    )
}

/// `rows` with one child more counted in row `i` and the row `added`
/// put in at position `at`.
pub open spec fn rows_with_child(
    rows: Seq<TaskRowView>,
    i: int,
    at: int,
    added: TaskRowView,
) -> Seq<TaskRowView> {
    rows.update(
        i,
        TaskRowView {
            id: rows[i].id,
            name: rows[i].name,
            estimate: rows[i].estimate,
            child_count: rows[i].child_count + 1,
        },
    ).insert(at, added)
}

/// Setting an estimate changes one field of one row: every task keeps its
/// identifier, name, number of children and place in the pre-order.
pub proof fn lemma_set_estimate_keeps_order(f: Seq<TaskView>, id: Seq<char>, value: int)
    ensures
        rows_of_forest(with_estimate(f, id, value)) == match position(flatten_forest(f), id) {
            Some(i) => rows_with_estimate(rows_of_forest(f), i, value),
            None => rows_of_forest(f),
        },
{
    let flat = flatten_forest(f);
    let rows = rows_of_forest(f);
    lemma_position(flat, id);
    lemma_rows_of_forest(f);
    match position(flat, id) {
        Some(i) => {
            let t = flat[i];
            let new = TaskView { id: t.id, name: t.name, estimate: value, children: t.children };
            let n = rows_of_task(t).len() as int;
            lemma_replace_in_forest(f, i, new);
            assert(rows_of_task(new) =~= rows_of_task(t).update(0, row_of(new)));
            assert(splice(rows, i, n, rows_of_task(new)) =~= rows.update(i, row_of(new))) by {
                assert forall|k: int| 0 <= k < rows.len() implies splice(
                    rows,
                    i,
                    n,
                    rows_of_task(new),
                )[k] == rows.update(i, row_of(new))[k] by {
                    if i < k < i + n {
                        assert(rows[i + (k - i)] == rows_of_task(t)[k - i]);
                    }
                }
            }
        },
        None => {},
    }
}

/// After an estimate was set, a lookup of the identifier finds the task
/// at its old position, with its old name and number of children, and
/// with the new estimate.
pub proof fn lemma_set_estimate_is_seen(f: Seq<TaskView>, id: Seq<char>, value: int)
    ensures
        position(flatten_forest(with_estimate(f, id, value)), id) == position(
            flatten_forest(f),
            id,
        ),
        match find(f, id) {
            Some(t) => find(with_estimate(f, id, value), id) is Some
                && find(with_estimate(f, id, value), id).unwrap().id == t.id
                && find(with_estimate(f, id, value), id).unwrap().name == t.name
                && find(with_estimate(f, id, value), id).unwrap().estimate == value
                && find(with_estimate(f, id, value), id).unwrap().children.len()
                == t.children.len(),
            None => find(with_estimate(f, id, value), id) is None,
        },
{
    let after = with_estimate(f, id, value);
    let flat = flatten_forest(f);
    let flat_after = flatten_forest(after);
    lemma_position(flat, id);
    lemma_rows_of_forest(f);
    lemma_rows_of_forest(after);
    lemma_set_estimate_keeps_order(f, id, value);
    match position(flat, id) {
        Some(i) => {
            assert(rows_of_forest(after)[i] == row_of(flat_after[i]));
            assert forall|j: int| 0 <= j < i implies (#[trigger] flat_after[j]).id != id by {
                assert(rows_of_forest(after)[j] == row_of(flat_after[j]));
                assert(rows_of_forest(f)[j] == row_of(flat[j]));
            }
            lemma_position_is(flat_after, id, i);
        },
        None => {},
    }
}

/// Adding a child changes one row and adds one: the parent counts one
/// child more, and the row of the new task stands right behind the rows
/// of the parent's subtree. Every other task keeps its fields and its
/// place relative to the others.
pub proof fn lemma_add_child_keeps_order(
    f: Seq<TaskView>,
    parent_id: Seq<char>,
    name: Seq<char>,
    estimate: int,
)
    ensures
        rows_of_forest(with_child_of(f, parent_id, name, estimate)) == match position(
            flatten_forest(f),
            parent_id,
        ) {
            Some(i) => rows_with_child(
                rows_of_forest(f),
                i,
                i + flatten_task(flatten_forest(f)[i]).len(),
                row_of(leaf(next_child_id(flatten_forest(f)[i]), name, estimate)),
            ),
            None => rows_of_forest(f),
        },
{
    let flat = flatten_forest(f);
    let rows = rows_of_forest(f);
    lemma_position(flat, parent_id);
    lemma_rows_of_forest(f);
    match position(flat, parent_id) {
        Some(i) => {
            let parent = flat[i];
            let new = with_child(parent, name, estimate);
            let added = leaf(next_child_id(parent), name, estimate);
            let n = rows_of_task(parent).len() as int;
            lemma_rows_of_task(parent);
            lemma_replace_in_forest(f, i, new);
            lemma_rows_push(parent.children, added);
            assert(added.children.len() == 0);
            assert(rows_of_forest(added.children) =~= Seq::empty());
            assert(rows_of_task(added) =~= seq![row_of(added)]);
            assert(rows_of_task(new) =~= rows_of_task(parent).update(0, row_of(new)).push(
                row_of(added),
            ));
            let expected = rows.update(i, row_of(new)).insert(i + n, row_of(added));
            assert(splice(rows, i, n, rows_of_task(new)) =~= expected) by {
                assert forall|k: int| 0 <= k < expected.len() implies splice(
                    rows,
                    i,
                    n,
                    rows_of_task(new),
                )[k] == expected[k] by {
                    if i < k < i + n {
                        assert(rows[i + (k - i)] == rows_of_task(parent)[k - i]);
                    }
                }
            }
        },
        None => {},
    }
}

/// The rows of a forest with one more root behind the others.
pub proof fn lemma_rows_push(f: Seq<TaskView>, t: TaskView)
    ensures
        rows_of_forest(f.push(t)) == rows_of_forest(f) + rows_of_task(t),
    decreases f.len(),
{
    if f.len() == 0 {
        let one = f.push(t);
        assert(one.first() == t);
        assert(one.drop_first() =~= Seq::empty());
        assert(rows_of_forest(one.drop_first()) =~= Seq::empty());
        assert(rows_of_forest(one) =~= rows_of_forest(f) + rows_of_task(t));
    } else {
        let more = f.push(t);
        assert(more.first() == f.first());
        assert(more.drop_first() =~= f.drop_first().push(t));
        lemma_rows_push(f.drop_first(), t);
        assert(rows_of_forest(more) =~= rows_of_forest(f) + rows_of_task(t));
    }
}

} // verus!
