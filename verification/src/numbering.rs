//! How tasks are numbered, and why numbered trees have no identifier
//! twice.
//!
//! A root is called `task-` and its index among the roots. A child is
//! called after its parent, with a `-` and a number that none of its
//! siblings has. A tree that grows from nothing by adding roots and
//! children is numbered in this way throughout, and in such a tree the
//! identifier of a task spells out the way to it: no two tasks share one.

use vstd::prelude::*;

use crate::estimate_app::example_child;
use crate::estimate_app::example_tasks;
use crate::estimate_app::root_id;
use crate::estimate_app::with_child_of;
use crate::estimate_app::with_estimate;
use crate::forest::distinct_ids;
use crate::forest::find;
use crate::forest::lemma_position_at;
use crate::forest::flatten_forest;
use crate::forest::flatten_task;
use crate::forest::lemma_flatten_task_head;
use crate::forest::lemma_position;
use crate::forest::position;
use crate::forest::replace_in_forest;
use crate::forest::replace_in_task;
use crate::task::child_id;
use crate::task::id_taken;
use crate::task::leaf;
use crate::task::lemma_next_suffix;
use crate::task::next_child_id;
use crate::task::next_suffix;
use crate::task::with_child;
use crate::task::TaskView;
use crate::text::decimal;
use crate::text::is_digit;
use crate::text::lemma_decimal_digits;
use crate::text::lemma_decimal_injective;
use crate::text::lemma_decimal_nonempty;

verus! {

/// Whether `id` is `prefix` followed by a decimal number.
pub open spec fn has_number(id: Seq<char>, prefix: Seq<char>) -> bool {
    exists|k: nat| id == prefix + #[trigger] decimal(k)
}

/// Whether the siblings `f` are numbered behind `prefix`, no two alike,
/// and the children of each behind its identifier and a `-`, and so on
/// down the tree.
pub open spec fn numbered(f: Seq<TaskView>, prefix: Seq<char>) -> bool
    decreases f,
{
    &&& forall|i: int| 0 <= i < f.len() ==> has_number((#[trigger] f[i]).id, prefix)
    &&& forall|i: int, j: int| 0 <= i < j < f.len() ==> f[i].id != f[j].id
    &&& forall|i: int|
        0 <= i < f.len() ==> numbered((#[trigger] f[i]).children, f[i].id + seq!['-'])
}

/// Whether a forest is numbered as one that grew by adding roots and
/// children: root number `i` is called `task-i`, and below the roots
/// every child is numbered behind its parent.
pub open spec fn well_formed(f: Seq<TaskView>) -> bool {
    &&& forall|i: int| 0 <= i < f.len() ==> (#[trigger] f[i]).id == root_id(i)
    &&& forall|i: int|
        0 <= i < f.len() ==> numbered((#[trigger] f[i]).children, f[i].id + seq!['-'])
}

/// Whether `id` is `base`, or `base` followed by a `-` and more.
pub open spec fn extends(id: Seq<char>, base: Seq<char>) -> bool {
    &&& base.len() <= id.len()
    &&& id.take(base.len() as int) == base
    &&& id.len() > base.len() ==> id[base.len() as int] == '-'
}

/// An identifier cannot continue two different numbers behind one prefix:
/// a number ends where the digits end.
pub proof fn lemma_numbers_agree(id: Seq<char>, prefix: Seq<char>, a: nat, b: nat)
    requires
        extends(id, prefix + decimal(a)),
        extends(id, prefix + decimal(b)),
    ensures
        a == b,
{
    let x = prefix + decimal(a);
    let y = prefix + decimal(b);
    let p = prefix.len() as int;
    lemma_decimal_digits(a);
    lemma_decimal_digits(b);
    if decimal(a).len() == decimal(b).len() {
        assert(decimal(a) =~= decimal(b)) by {
            assert forall|k: int| 0 <= k < decimal(a).len() implies decimal(a)[k] == decimal(b)[k] by {
                assert(id.take(x.len() as int)[p + k] == x[p + k]);
                assert(id.take(y.len() as int)[p + k] == y[p + k]);
            }
        }
        lemma_decimal_injective(a, b);
    } else if decimal(a).len() < decimal(b).len() {
        let k = decimal(a).len() as int;
        assert(id[p + k] == '-');
        assert(id.take(y.len() as int)[p + k] == y[p + k]);
        assert(is_digit(decimal(b)[k]));
    } else {
        let k = decimal(b).len() as int;
        assert(id[p + k] == '-');
        assert(id.take(x.len() as int)[p + k] == x[p + k]);
        assert(is_digit(decimal(a)[k]));
    }
}

/// What continues the identifier of a child continues that of its parent,
/// and is longer.
pub proof fn lemma_extends_child(id: Seq<char>, parent_id: Seq<char>, child: Seq<char>)
    requires
        has_number(child, parent_id + seq!['-']),
        extends(id, child),
    ensures
        extends(id, parent_id),
        id.len() > parent_id.len(),
{
    let k = choose|k: nat| child == parent_id + seq!['-'] + #[trigger] decimal(k);
    let n = parent_id.len() as int;
    lemma_decimal_nonempty(k);
    assert(id.take(child.len() as int)[n] == child[n]);
    assert(id.take(n) =~= parent_id) by {
        assert forall|j: int| 0 <= j < n implies id.take(n)[j] == parent_id[j] by {
            assert(id.take(child.len() as int)[j] == child[j]);
        }
    }
}

/// In the subtree of a task whose children are numbered, every
/// identifier continues that of the task, and all but the task's own are
/// longer.
pub proof fn lemma_task_ids_extend(t: TaskView)
    requires
        numbered(t.children, t.id + seq!['-']),
    ensures
        forall|k: int|
            0 <= k < flatten_task(t).len() ==> extends((#[trigger] flatten_task(t)[k]).id, t.id),
        forall|k: int|
            1 <= k < flatten_task(t).len() ==> (#[trigger] flatten_task(t)[k]).id.len() > t.id.len(),
    decreases t, 1int,
{
    let flat = flatten_task(t);
    let below = flatten_forest(t.children);
    lemma_flatten_task_head(t);
    lemma_forest_ids_extend(t.children, t.id + seq!['-']);
    assert(t.id.take(t.id.len() as int) =~= t.id);
    assert forall|k: int| 1 <= k < flat.len() implies extends((#[trigger] flat[k]).id, t.id) && flat[k].id.len()
        > t.id.len() by {
        let x = flat[k];
        assert(x == below[k - 1]);
        let m = choose|m: int| 0 <= m < t.children.len() && extends(below[k - 1].id, t.children[m].id);
        lemma_extends_child(x.id, t.id, t.children[m].id);
    }
}

/// In a forest of numbered siblings, every identifier continues that of
/// one of the siblings.
pub proof fn lemma_forest_ids_extend(f: Seq<TaskView>, prefix: Seq<char>)
    requires
        numbered(f, prefix),
    ensures
        forall|k: int|
            0 <= k < flatten_forest(f).len() ==> exists|m: int|
                0 <= m < f.len() && extends((#[trigger] flatten_forest(f)[k]).id, f[m].id),
    decreases f, 0int,
{
    if f.len() > 0 {
        let first = f.first();
        let rest = f.drop_first();
        let flat = flatten_forest(f);
        let n = flatten_task(first).len() as int;
        lemma_numbered_rest(f, prefix);
        lemma_task_ids_extend(first);
        lemma_forest_ids_extend(rest, prefix);
        assert forall|k: int| 0 <= k < flat.len() implies exists|m: int|
            0 <= m < f.len() && extends((#[trigger] flat[k]).id, f[m].id) by {
            if k < n {
                assert(flat[k] == flatten_task(first)[k]);
                assert(extends(flat[k].id, f[0].id));
            } else {
                assert(flat[k] == flatten_forest(rest)[k - n]);
                let m = choose|m: int| 0 <= m < rest.len() && extends(flatten_forest(rest)[k - n].id, rest[m].id);
                assert(rest[m] == f[m + 1]);
                assert(extends(flat[k].id, f[m + 1].id));
            }
        }
    }
}

/// Numbered siblings without the first are numbered siblings.
pub proof fn lemma_numbered_rest(f: Seq<TaskView>, prefix: Seq<char>)
    requires
        numbered(f, prefix),
        f.len() > 0,
    ensures
        numbered(f.drop_first(), prefix),
        numbered(f.first().children, f.first().id + seq!['-']),
{
    let rest = f.drop_first();
    assert forall|i: int| 0 <= i < rest.len() implies has_number((#[trigger] rest[i]).id, prefix) by {
        assert(rest[i] == f[i + 1]);
    }
    assert forall|i: int, j: int| 0 <= i < j < rest.len() implies rest[i].id != rest[j].id by {
        assert(rest[i] == f[i + 1]);
        assert(rest[j] == f[j + 1]);
    }
    assert forall|i: int| 0 <= i < rest.len() implies numbered(
        (#[trigger] rest[i]).children,
        rest[i].id + seq!['-'],
    ) by {
        assert(rest[i] == f[i + 1]);
    }
    assert(f.first() == f[0]);
}

/// A task whose children are numbered has no identifier twice in its
/// subtree.
pub proof fn lemma_task_ids_distinct(t: TaskView)
    requires
        numbered(t.children, t.id + seq!['-']),
    ensures
        distinct_ids(flatten_task(t)),
    decreases t, 1int,
{
    let flat = flatten_task(t);
    let below = flatten_forest(t.children);
    lemma_flatten_task_head(t);
    lemma_task_ids_extend(t);
    lemma_forest_ids_distinct(t.children, t.id + seq!['-']);
    assert forall|i: int, j: int| 0 <= i < j < flat.len() implies flat[i].id != flat[j].id by {
        if i > 0 {
            assert(flat[i] == below[i - 1]);
            assert(flat[j] == below[j - 1]);
        }
    }
}

/// A forest of numbered siblings has no identifier twice.
pub proof fn lemma_forest_ids_distinct(f: Seq<TaskView>, prefix: Seq<char>)
    requires
        numbered(f, prefix),
    ensures
        distinct_ids(flatten_forest(f)),
    decreases f, 0int,
{
    if f.len() > 0 {
        let first = f.first();
        let rest = f.drop_first();
        let flat = flatten_forest(f);
        let head = flatten_task(first);
        let tail = flatten_forest(rest);
        let n = head.len() as int;
        lemma_numbered_rest(f, prefix);
        lemma_task_ids_distinct(first);
        lemma_forest_ids_distinct(rest, prefix);
        lemma_task_ids_extend(first);
        lemma_forest_ids_extend(rest, prefix);
        assert forall|i: int, j: int| 0 <= i < j < flat.len() implies flat[i].id != flat[j].id by {
            if j < n {
                assert(flat[i] == head[i]);
                assert(flat[j] == head[j]);
            } else if i >= n {
                assert(flat[i] == tail[i - n]);
                assert(flat[j] == tail[j - n]);
            } else {
                let x = flat[i];
                let y = flat[j];
                assert(x == head[i]);
                assert(y == tail[j - n]);
                let m = choose|m: int| 0 <= m < rest.len() && extends(tail[j - n].id, rest[m].id);
                assert(rest[m] == f[m + 1]);
                assert(has_number(f[0].id, prefix));
                assert(has_number(f[m + 1].id, prefix));
                let a = choose|a: nat| f[0].id == prefix + #[trigger] decimal(a);
                let b = choose|b: nat| f[m + 1].id == prefix + #[trigger] decimal(b);
                if x.id == y.id {
                    lemma_numbers_agree(x.id, prefix, a, b);
                    assert(f[0].id == f[m + 1].id);
                }
            }
        }
    }
}

/// The roots of a well-formed forest are numbered behind `task-`.
pub proof fn lemma_well_formed_numbered(f: Seq<TaskView>)
    requires
        well_formed(f),
    ensures
        numbered(f, "task-"@),
{
    assert forall|i: int| 0 <= i < f.len() implies has_number((#[trigger] f[i]).id, "task-"@) by {
        assert(f[i].id == "task-"@ + decimal(i as nat));
    }
    assert forall|i: int, j: int| 0 <= i < j < f.len() implies f[i].id != f[j].id by {
        lemma_root_ids_differ(i, j);
    }
}

/// Different roots have different identifiers.
pub proof fn lemma_root_ids_differ(i: int, j: int)
    requires
        0 <= i,
        0 <= j,
        i != j,
    ensures
        root_id(i) != root_id(j),
{
    let p = "task-"@;
    let x = root_id(i);
    let y = root_id(j);
    if x == y {
        assert(x.skip(p.len() as int) =~= decimal(i as nat));
        assert(y.skip(p.len() as int) =~= decimal(j as nat));
        lemma_decimal_injective(i as nat, j as nat);
    }
}

/// A well-formed tree has no identifier twice: every identifier names one
/// task, and navigation passes every task once on its way round.
pub proof fn lemma_well_formed_distinct(f: Seq<TaskView>)
    requires
        well_formed(f),
    ensures
        distinct_ids(flatten_forest(f)),
{
    lemma_well_formed_numbered(f);
    lemma_forest_ids_distinct(f, "task-"@);
}

/// In a well-formed tree a lookup of a task's identifier finds that
/// task, wherever it stands.
pub proof fn lemma_well_formed_find(f: Seq<TaskView>, i: int)
    requires
        well_formed(f),
        0 <= i < flatten_forest(f).len(),
    ensures
        find(f, flatten_forest(f)[i].id) == Some(flatten_forest(f)[i]),
{
    lemma_well_formed_distinct(f);
    lemma_position_at(flatten_forest(f), i);
}

/// Every task of a numbered forest has numbered children.
pub proof fn lemma_node_numbered(f: Seq<TaskView>, prefix: Seq<char>, i: int)
    requires
        numbered(f, prefix),
        0 <= i < flatten_forest(f).len(),
    ensures
        numbered(flatten_forest(f)[i].children, flatten_forest(f)[i].id + seq!['-']),
    decreases f, 0int,
{
    let first = f.first();
    let rest = f.drop_first();
    let n = flatten_task(first).len() as int;
    lemma_numbered_rest(f, prefix);
    lemma_flatten_task_head(first);
    if i == 0 {
    } else if i < n {
        assert(flatten_forest(f)[i] == flatten_forest(first.children)[i - 1]);
        lemma_node_numbered(first.children, first.id + seq!['-'], i - 1);
    } else {
        assert(flatten_forest(f)[i] == flatten_forest(rest)[i - n]);
        lemma_node_numbered(rest, prefix, i - n);
    }
}

/// A task with numbered children still has numbered children after a
/// task below it was replaced by one of the same identifier with
/// numbered children.
pub proof fn lemma_replace_in_task_numbered(t: TaskView, i: int, new: TaskView)
    requires
        numbered(t.children, t.id + seq!['-']),
        0 <= i < flatten_task(t).len(),
        new.id == flatten_task(t)[i].id,
        numbered(new.children, new.id + seq!['-']),
    ensures
        replace_in_task(t, i, new).id == t.id,
        numbered(replace_in_task(t, i, new).children, t.id + seq!['-']),
    decreases t, 1int,
{
    lemma_flatten_task_head(t);
    if i > 0 {
        assert(flatten_task(t)[i] == flatten_forest(t.children)[i - 1]);
        lemma_replace_in_forest_numbered(t.children, t.id + seq!['-'], i - 1, new);
    }
}

/// Numbered siblings are still numbered, under the same identifiers,
/// after a task among or below them was replaced by one of the same
/// identifier with numbered children.
pub proof fn lemma_replace_in_forest_numbered(
    f: Seq<TaskView>,
    prefix: Seq<char>,
    i: int,
    new: TaskView,
)
    requires
        numbered(f, prefix),
        0 <= i < flatten_forest(f).len(),
        new.id == flatten_forest(f)[i].id,
        numbered(new.children, new.id + seq!['-']),
    ensures
        replace_in_forest(f, i, new).len() == f.len(),
        forall|m: int| 0 <= m < f.len() ==> (#[trigger] replace_in_forest(f, i, new)[m]).id == f[m].id,
        numbered(replace_in_forest(f, i, new), prefix),
    decreases f, 0int,
{
    let first = f.first();
    let rest = f.drop_first();
    let n = flatten_task(first).len() as int;
    let after = replace_in_forest(f, i, new);
    lemma_numbered_rest(f, prefix);
    if i < n {
        assert(flatten_forest(f)[i] == flatten_task(first)[i]);
        lemma_replace_in_task_numbered(first, i, new);
        let changed = replace_in_task(first, i, new);
        assert(after == seq![changed] + rest);
        assert forall|m: int| 0 <= m < f.len() implies (#[trigger] after[m]).id == f[m].id
            && numbered(after[m].children, after[m].id + seq!['-']) by {
            if m > 0 {
                assert(after[m] == f[m]);
            }
        }
    } else {
        assert(flatten_forest(f)[i] == flatten_forest(rest)[i - n]);
        lemma_replace_in_forest_numbered(rest, prefix, i - n, new);
        let changed = replace_in_forest(rest, i - n, new);
        assert(after == seq![first] + changed);
        assert forall|m: int| 0 <= m < f.len() implies (#[trigger] after[m]).id == f[m].id
            && numbered(after[m].children, after[m].id + seq!['-']) by {
            if m > 0 {
                assert(after[m] == changed[m - 1]);
                assert(f[m] == rest[m - 1]);
            }
        }
    }
    assert forall|m: int| 0 <= m < after.len() implies has_number((#[trigger] after[m]).id, prefix) by {
        assert(after[m].id == f[m].id);
        assert(has_number(f[m].id, prefix));
    }
    assert forall|a: int, b: int| 0 <= a < b < after.len() implies after[a].id != after[b].id by {
        assert(after[a].id == f[a].id);
        assert(after[b].id == f[b].id);
    }
}

/// A task with numbered children still has numbered children after one
/// more was added.
pub proof fn lemma_with_child_numbered(t: TaskView, name: Seq<char>, estimate: int)
    requires
        numbered(t.children, t.id + seq!['-']),
    ensures
        with_child(t, name, estimate).id == t.id,
        numbered(with_child(t, name, estimate).children, t.id + seq!['-']),
{
    let prefix = t.id + seq!['-'];
    let added = leaf(next_child_id(t), name, estimate);
    let after = t.children.push(added);
    lemma_next_suffix(t);
    assert(added.id =~= prefix + decimal(next_suffix(t)));
    assert forall|i: int| 0 <= i < after.len() implies has_number((#[trigger] after[i]).id, prefix) by {
        if i < t.children.len() {
            assert(after[i] == t.children[i]);
        }
    }
    assert forall|i: int, j: int| 0 <= i < j < after.len() implies after[i].id != after[j].id by {
        assert(after[i] == t.children[i]);
        if j < t.children.len() {
            assert(after[j] == t.children[j]);
        } else if after[i].id == after[j].id {
            assert(id_taken(t.children, child_id(t.id, next_suffix(t))));
        }
    }
    assert forall|i: int| 0 <= i < after.len() implies numbered(
        (#[trigger] after[i]).children,
        after[i].id + seq!['-'],
    ) by {
        if i < t.children.len() {
            assert(after[i] == t.children[i]);
        }
    }
}

/// A well-formed tree with one more root, named by the number of roots
/// before it, is well-formed.
pub proof fn lemma_add_task_keeps_well_formed(f: Seq<TaskView>, name: Seq<char>)
    requires
        well_formed(f),
    ensures
        well_formed(f.push(leaf(root_id(f.len() as int), name, 0))),
{
    let after = f.push(leaf(root_id(f.len() as int), name, 0));
    assert forall|i: int| 0 <= i < after.len() implies (#[trigger] after[i]).id == root_id(i)
        && numbered(after[i].children, after[i].id + seq!['-']) by {
        if i < f.len() {
            assert(after[i] == f[i]);
        }
    }
}

/// A well-formed tree is well-formed after a task was replaced by one of
/// the same identifier with numbered children.
pub proof fn lemma_replace_keeps_well_formed(f: Seq<TaskView>, i: int, new: TaskView)
    requires
        well_formed(f),
        0 <= i < flatten_forest(f).len(),
        new.id == flatten_forest(f)[i].id,
        numbered(new.children, new.id + seq!['-']),
    ensures
        well_formed(replace_in_forest(f, i, new)),
{
    let after = replace_in_forest(f, i, new);
    lemma_well_formed_numbered(f);
    lemma_replace_in_forest_numbered(f, "task-"@, i, new);
    assert forall|m: int| 0 <= m < after.len() implies (#[trigger] after[m]).id == root_id(m) by {
        assert(after[m].id == f[m].id);
    }
}

/// A well-formed tree is well-formed after a child was added.
pub proof fn lemma_add_child_keeps_well_formed(
    f: Seq<TaskView>,
    parent_id: Seq<char>,
    name: Seq<char>,
    estimate: int,
)
    requires
        well_formed(f),
    ensures
        well_formed(with_child_of(f, parent_id, name, estimate)),
{
    let flat = flatten_forest(f);
    lemma_position(flat, parent_id);
    match position(flat, parent_id) {
        Some(i) => {
            lemma_well_formed_numbered(f);
            lemma_node_numbered(f, "task-"@, i);
            lemma_with_child_numbered(flat[i], name, estimate);
            lemma_replace_keeps_well_formed(f, i, with_child(flat[i], name, estimate));
        },
        None => {},
    }
}

/// A well-formed tree is well-formed after an estimate was set.
pub proof fn lemma_set_estimate_keeps_well_formed(f: Seq<TaskView>, id: Seq<char>, value: int)
    requires
        well_formed(f),
    ensures
        well_formed(with_estimate(f, id, value)),
{
    let flat = flatten_forest(f);
    lemma_position(flat, id);
    match position(flat, id) {
        Some(i) => {
            let t = flat[i];
            lemma_well_formed_numbered(f);
            lemma_node_numbered(f, "task-"@, i);
            lemma_replace_keeps_well_formed(
                f,
                i,
                TaskView { id: t.id, name: t.name, estimate: value, children: t.children },
            );
        },
        None => {},
    }
}

/// The sample tree is well-formed.
pub proof fn lemma_example_tasks_well_formed()
    ensures
        well_formed(example_tasks()),
{
    let f = example_tasks();
    assert forall|i: int| 0 <= i < f.len() implies (#[trigger] f[i]).id == root_id(i) && numbered(
        f[i].children,
        f[i].id + seq!['-'],
    ) by {
        let t = f[i];
        let prefix = t.id + seq!['-'];
        let kids = t.children;
        reveal_strlit("-");
        assert("-"@ =~= seq!['-']);
        assert forall|k: int| 0 <= k < kids.len() implies has_number((#[trigger] kids[k]).id, prefix)
            && kids[k].id == prefix + decimal((k + 1) as nat) && numbered(
            kids[k].children,
            kids[k].id + seq!['-'],
        ) by {
            assert(kids[k] == example_child(i, (k + 1) as nat));
        }
        assert forall|a: int, b: int| 0 <= a < b < kids.len() implies kids[a].id != kids[b].id by {
            if kids[a].id == kids[b].id {
                assert(kids[a].id.skip(prefix.len() as int) =~= decimal((a + 1) as nat));
                assert(kids[b].id.skip(prefix.len() as int) =~= decimal((b + 1) as nat));
                lemma_decimal_injective((a + 1) as nat, (b + 1) as nat);
            }
        }
    }
}

} // verus!
