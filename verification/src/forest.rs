//! The tree as a mathematical value: pre-order, lookup by identifier,
//! replacement of a node, and subtree sums.
//!
//! A forest is the sequence of its root tasks. Its pre-order visits each
//! root before that root's descendants, children in their own order, and
//! roots in theirs. Positions count the nodes of the pre-order from zero.

use vstd::prelude::*;

use crate::task::TaskView;

verus! {

/// The nodes of `t` in pre-order: `t`, then its descendants.
pub open spec fn flatten_task(t: TaskView) -> Seq<TaskView>
    decreases t, 1int,
{
    seq![t] + flatten_forest(t.children)
}

/// The nodes of a forest in pre-order.
pub open spec fn flatten_forest(f: Seq<TaskView>) -> Seq<TaskView>
    decreases f, 0int,
{
    if f.len() == 0 {
        Seq::empty()
    } else {
        flatten_task(f.first()) + flatten_forest(f.drop_first())
    }
}

/// Whether some node of `flat` has the identifier `id`.
pub open spec fn has_id(flat: Seq<TaskView>, id: Seq<char>) -> bool {
    exists|i: int| 0 <= i < flat.len() && (#[trigger] flat[i]).id == id
}

/// Whether `i` is the first position of `flat` whose node has the
/// identifier `id`.
pub open spec fn is_first_match(flat: Seq<TaskView>, id: Seq<char>, i: int) -> bool {
    &&& 0 <= i < flat.len()
    &&& flat[i].id == id
    &&& forall|j: int| 0 <= j < i ==> (#[trigger] flat[j]).id != id
}

/// The first position of `flat` whose node has the identifier `id`.
pub open spec fn position(flat: Seq<TaskView>, id: Seq<char>) -> Option<int> {
    if has_id(flat, id) {
        Some(choose|i: int| is_first_match(flat, id, i))
    } else {
        None
    }
}

/// The first node of a forest, in pre-order, that has the identifier `id`.
pub open spec fn find(f: Seq<TaskView>, id: Seq<char>) -> Option<TaskView> {
    match position(flatten_forest(f), id) {
        Some(i) => Some(flatten_forest(f)[i]),
        None => None,
    }
}

/// The position after `i` among `n`, the first after the last.
pub open spec fn step_on(i: int, n: int) -> int {
    if i + 1 == n {
        0
    } else {
        i + 1
    }
}

/// The position before `i` among `n`, the last before the first.
pub open spec fn step_back(i: int, n: int) -> int {
    if i == 0 {
        n - 1
    } else {
        i - 1
    }
}

/// The position that follows the node named by `current`, going round from
/// the last node to the first; the first position where `current` names no
/// node. Meaningful for a `flat` that is not empty.
pub open spec fn next_position(flat: Seq<TaskView>, current: Option<Seq<char>>) -> int {
    match current {
        Some(id) => match position(flat, id) {
            Some(i) => step_on(i, flat.len() as int),
            None => 0,
        },
        None => 0,
    }
}

/// The position before the node named by `current`, going round from the
/// first node to the last; the first position where `current` names no
/// node. Meaningful for a `flat` that is not empty.
pub open spec fn previous_position(flat: Seq<TaskView>, current: Option<Seq<char>>) -> int {
    match current {
        Some(id) => match position(flat, id) {
            Some(i) => step_back(i, flat.len() as int),
            None => 0,
        },
        None => 0,
    }
}

/// The identifier that follows `current` in the pre-order of the forest,
/// going round; `None` for a forest without nodes.
pub open spec fn next_id(f: Seq<TaskView>, current: Option<Seq<char>>) -> Option<Seq<char>> {
    let flat = flatten_forest(f);
    if flat.len() == 0 {
        None
    } else {
        Some(flat[next_position(flat, current)].id)
    }
}

/// The identifier before `current` in the pre-order of the forest, going
/// round; `None` for a forest without nodes.
pub open spec fn previous_id(f: Seq<TaskView>, current: Option<Seq<char>>) -> Option<Seq<char>> {
    let flat = flatten_forest(f);
    if flat.len() == 0 {
        None
    } else {
        Some(flat[previous_position(flat, current)].id)
    }
}

/// `t` with the node at pre-order position `i`, counted within `t`,
/// replaced by `new`, subtree and all.
pub open spec fn replace_in_task(t: TaskView, i: int, new: TaskView) -> TaskView
    decreases t, 1int,
{
    if i <= 0 {
        new
    } else {
        TaskView {
            id: t.id,
            name: t.name,
            estimate: t.estimate,
            children: replace_in_forest(t.children, i - 1, new),
        }
    }
}

/// The forest with the node at pre-order position `i` replaced by `new`,
/// subtree and all; the forest itself where it has no such position.
pub open spec fn replace_in_forest(f: Seq<TaskView>, i: int, new: TaskView) -> Seq<TaskView>
    decreases f, 0int,
{
    if f.len() == 0 {
        f
    } else if i < flatten_task(f.first()).len() {
        seq![replace_in_task(f.first(), i, new)] + f.drop_first()
    } else {
        seq![f.first()] + replace_in_forest(
            f.drop_first(),
            i - flatten_task(f.first()).len(),
            new,
        )
    }
}

/// The estimate of `t` plus the estimates of all its descendants.
pub open spec fn subtree_sum(t: TaskView) -> int
    decreases t, 1int,
{
    t.estimate + forest_sum(t.children)
}

/// The subtree sums of a forest's roots, added up.
pub open spec fn forest_sum(f: Seq<TaskView>) -> int
    decreases f, 0int,
{
    if f.len() == 0 {
        0
    } else {
        subtree_sum(f.first()) + forest_sum(f.drop_first())
    }
}

/// The pre-order of a task starts with the task itself.
pub proof fn lemma_flatten_task_head(t: TaskView)
    ensures
        flatten_task(t).len() == 1 + flatten_forest(t.children).len(),
        flatten_task(t)[0] == t,
        forall|i: int|
            0 <= i < flatten_forest(t.children).len() ==> flatten_task(t)[i + 1] == flatten_forest(
                t.children,
            )[i],
{
}

/// The pre-order of two forests put together is their pre-orders put
/// together.
pub proof fn lemma_flatten_concat(a: Seq<TaskView>, b: Seq<TaskView>)
    ensures
        flatten_forest(a + b) == flatten_forest(a) + flatten_forest(b),
    decreases a.len(),
{
    if a.len() == 0 {
        assert(a + b =~= b);
        assert(flatten_forest(a) + flatten_forest(b) =~= flatten_forest(b));
    } else {
        assert((a + b).first() == a.first());
        assert((a + b).drop_first() =~= a.drop_first() + b);
        lemma_flatten_concat(a.drop_first(), b);
        assert(flatten_forest(a + b) =~= flatten_forest(a) + flatten_forest(b));
    }
}

/// The pre-order of a forest of one root is the pre-order of that root.
pub proof fn lemma_flatten_single(t: TaskView)
    ensures
        flatten_forest(seq![t]) == flatten_task(t),
{
    let f = seq![t];
    assert(f.first() == t);
    assert(f.drop_first().len() == 0);
    assert(flatten_forest(f.drop_first()) =~= Seq::empty());
    assert(flatten_forest(f) =~= flatten_task(t));
}

/// The pre-order of a forest, split at its root number `k`: the roots
/// before it, that root, the roots after it.
pub proof fn lemma_flatten_split(f: Seq<TaskView>, k: int)
    requires
        0 <= k < f.len(),
    ensures
        flatten_forest(f) == flatten_forest(f.take(k)) + flatten_task(f[k]) + flatten_forest(
            f.skip(k + 1),
        ),
        flatten_forest(f.take(k + 1)) == flatten_forest(f.take(k)) + flatten_task(f[k]),
{
    assert(f =~= f.take(k) + seq![f[k]] + f.skip(k + 1));
    assert(f.take(k + 1) =~= f.take(k) + seq![f[k]]);
    lemma_flatten_concat(f.take(k) + seq![f[k]], f.skip(k + 1));
    lemma_flatten_concat(f.take(k), seq![f[k]]);
    lemma_flatten_single(f[k]);
}

/// A first match is the position, and the only first match.
pub proof fn lemma_position_is(flat: Seq<TaskView>, id: Seq<char>, i: int)
    requires
        is_first_match(flat, id, i),
    ensures
        position(flat, id) == Some(i),
{
    let k = choose|k: int| is_first_match(flat, id, k);
    assert(is_first_match(flat, id, k));
    if k < i {
        assert(flat[k].id != id);
    }
    if i < k {
        assert(flat[i].id != id);
    }
}

/// Before a position that holds `id` there is a first match.
proof fn lemma_first_match_exists(flat: Seq<TaskView>, id: Seq<char>, i: int)
    requires
        0 <= i < flat.len(),
        flat[i].id == id,
    ensures
        exists|k: int| is_first_match(flat, id, k),
    decreases i,
{
    if forall|j: int| 0 <= j < i ==> (#[trigger] flat[j]).id != id {
        assert(is_first_match(flat, id, i));
    } else {
        let j = choose|j: int| 0 <= j < i && (#[trigger] flat[j]).id == id;
        lemma_first_match_exists(flat, id, j);
    }
}

/// What `position` is: a first match where some node has the identifier,
/// `None` where none has.
pub proof fn lemma_position(flat: Seq<TaskView>, id: Seq<char>)
    ensures
        match position(flat, id) {
            Some(i) => is_first_match(flat, id, i),
            None => forall|j: int| 0 <= j < flat.len() ==> (#[trigger] flat[j]).id != id,
        },
{
    if has_id(flat, id) {
        let i = choose|i: int| 0 <= i < flat.len() && (#[trigger] flat[i]).id == id;
        lemma_first_match_exists(flat, id, i);
    }
}

/// No node has the identifier: there is no position.
pub proof fn lemma_position_none(flat: Seq<TaskView>, id: Seq<char>)
    requires
        forall|j: int| 0 <= j < flat.len() ==> (#[trigger] flat[j]).id != id,
    ensures
        position(flat, id) is None,
{
}

/// The position in two sequences put together: that in the first where it
/// has one, else that in the second, moved by the length of the first.
pub proof fn lemma_position_concat(a: Seq<TaskView>, b: Seq<TaskView>, id: Seq<char>)
    ensures
        position(a + b, id) == match position(a, id) {
            Some(i) => Some(i),
            None => match position(b, id) {
                Some(j) => Some(a.len() + j),
                None => None,
            },
        },
{
    lemma_position(a, id);
    lemma_position(b, id);
    let ab = a + b;
    match position(a, id) {
        Some(i) => {
            assert(ab[i] == a[i]);
            assert forall|j: int| 0 <= j < i implies (#[trigger] ab[j]).id != id by {
                assert(ab[j] == a[j]);
            }
            lemma_position_is(ab, id, i);
        },
        None => {
            match position(b, id) {
                Some(j) => {
                    let p = a.len() + j;
                    assert(ab[p] == b[j]);
                    assert forall|k: int| 0 <= k < p implies (#[trigger] ab[k]).id != id by {
                        if k < a.len() {
                            assert(ab[k] == a[k]);
                        } else {
                            assert(ab[k] == b[k - a.len()]);
                        }
                    }
                    lemma_position_is(ab, id, p);
                },
                None => {
                    assert forall|k: int| 0 <= k < ab.len() implies (#[trigger] ab[k]).id != id by {
                        if k < a.len() {
                            assert(ab[k] == a[k]);
                        } else {
                            assert(ab[k] == b[k - a.len()]);
                        }
                    }
                    lemma_position_none(ab, id);
                },
            }
        },
    }
}

/// The position within a task: zero where the task itself has the
/// identifier, else one more than the position among its descendants.
pub proof fn lemma_position_in_task(t: TaskView, id: Seq<char>)
    ensures
        t.id == id ==> position(flatten_task(t), id) == Some(0int),
        t.id != id ==> position(flatten_task(t), id) == match position(
            flatten_forest(t.children),
            id,
        ) {
            Some(j) => Some(j + 1),
            None => None,
        },
{
    let head = seq![t];
    if t.id == id {
        assert(is_first_match(head, id, 0));
        lemma_position_is(head, id, 0);
    } else {
        assert forall|j: int| 0 <= j < head.len() implies (#[trigger] head[j]).id != id by {}
        lemma_position_none(head, id);
    }
    lemma_position_concat(head, flatten_forest(t.children), id);
}

/// The position within a forest that is not empty: that within the first
/// root where it has one, else that within the other roots, moved by the
/// size of the first.
pub proof fn lemma_position_in_forest(f: Seq<TaskView>, id: Seq<char>)
    requires
        f.len() > 0,
    ensures
        position(flatten_forest(f), id) == match position(flatten_task(f.first()), id) {
            Some(i) => Some(i),
            None => match position(flatten_forest(f.drop_first()), id) {
                Some(j) => Some(flatten_task(f.first()).len() + j),
                None => None,
            },
        },
{
    lemma_position_concat(flatten_task(f.first()), flatten_forest(f.drop_first()), id);
}

/// Replacing a node behind some roots leaves those roots alone: the
/// position counts on from the nodes of the roots in front.
pub proof fn lemma_replace_behind(front: Seq<TaskView>, back: Seq<TaskView>, j: int, new: TaskView)
    requires
        0 <= j,
    ensures
        replace_in_forest(front + back, flatten_forest(front).len() + j, new) == front
            + replace_in_forest(back, j, new),
    decreases front.len(),
{
    if front.len() == 0 {
        assert(front + back =~= back);
        assert(front + replace_in_forest(back, j, new) =~= replace_in_forest(back, j, new));
    } else {
        let all = front + back;
        let first = front.first();
        let size = flatten_task(first).len() as int;
        assert(all.first() == first);
        assert(all.drop_first() =~= front.drop_first() + back);
        lemma_replace_behind(front.drop_first(), back, j, new);
        assert(flatten_forest(front).len() + j - size == flatten_forest(front.drop_first()).len() + j);
        assert(seq![first] + (front.drop_first() + replace_in_forest(back, j, new)) =~= front
            + replace_in_forest(back, j, new));
    }
}

/// Whether every estimate of the forest is a 32-bit integer, as the
/// estimates of tasks in memory are.
pub open spec fn estimates_fit(f: Seq<TaskView>) -> bool {
    forall|k: int|
        0 <= k < flatten_forest(f).len() ==> i32::MIN <= (#[trigger] flatten_forest(f)[k]).estimate
            <= i32::MAX
}

/// Whether no two nodes of `flat` have the same identifier.
pub open spec fn distinct_ids(flat: Seq<TaskView>) -> bool {
    forall|i: int, j: int| 0 <= i < j < flat.len() ==> flat[i].id != flat[j].id
}

/// In a tree whose identifiers are all different, going on from a task
/// and then back, or back and then on, ends at that task: navigation goes
/// round the pre-order in both directions.
pub proof fn lemma_next_previous_inverse(f: Seq<TaskView>, id: Seq<char>)
    requires
        distinct_ids(flatten_forest(f)),
        has_id(flatten_forest(f), id),
    ensures
        previous_id(f, next_id(f, Some(id))) == Some(id),
        next_id(f, previous_id(f, Some(id))) == Some(id),
{
    let flat = flatten_forest(f);
    lemma_position(flat, id);
    let i = position(flat, id).unwrap();
    let n = flat.len() as int;
    lemma_position_at(flat, step_on(i, n));
    lemma_position_at(flat, step_back(i, n));
}

/// In a tree whose identifiers are all different, navigation from the
/// task at position `i` leads to its neighbours in the pre-order, going
/// round at both ends: on from the last task is the first, back from the
/// first is the last. Without a task to start from, both directions lead
/// to the first task.
pub proof fn lemma_navigation_goes_round(f: Seq<TaskView>, i: int)
    requires
        distinct_ids(flatten_forest(f)),
        0 <= i < flatten_forest(f).len(),
    ensures
        next_id(f, Some(flatten_forest(f)[i].id)) == Some(
            flatten_forest(f)[step_on(i, flatten_forest(f).len() as int)].id,
        ),
        previous_id(f, Some(flatten_forest(f)[i].id)) == Some(
            flatten_forest(f)[step_back(i, flatten_forest(f).len() as int)].id,
        ),
        next_id(f, None) == Some(flatten_forest(f)[0].id),
        previous_id(f, None) == Some(flatten_forest(f)[0].id),
{
    lemma_position_at(flatten_forest(f), i);
}

/// Among different identifiers, the position of a node's identifier is
/// where the node stands.
pub proof fn lemma_position_at(flat: Seq<TaskView>, i: int)
    requires
        distinct_ids(flat),
        0 <= i < flat.len(),
    ensures
        position(flat, flat[i].id) == Some(i),
{
    assert(is_first_match(flat, flat[i].id, i));
    lemma_position_is(flat, flat[i].id, i);
}

/// One step of a search through the roots of a forest from the left: where
/// none of the first `k` roots holds `id`, the search is decided by root
/// number `k`, or goes on behind it.
pub proof fn lemma_search_step(f: Seq<TaskView>, k: int, id: Seq<char>)
    requires
        0 <= k < f.len(),
        position(flatten_forest(f.take(k)), id) is None,
    ensures
        flatten_forest(f.take(k)).len() + flatten_task(f[k]).len() <= flatten_forest(f).len(),
        flatten_task(f[k]).len() == 1 + flatten_forest(f[k].children).len(),
        flatten_forest(f)[flatten_forest(f.take(k)).len() as int] == f[k],
        f[k].id == id ==> position(flatten_forest(f), id) == Some(
            flatten_forest(f.take(k)).len() as int,
        ),
        f[k].id != id ==> match position(flatten_forest(f[k].children), id) {
            Some(j) => position(flatten_forest(f), id) == Some(
                flatten_forest(f.take(k)).len() + 1 + j,
            ) && flatten_forest(f)[flatten_forest(f.take(k)).len() + 1 + j] == flatten_forest(
                f[k].children,
            )[j],
            None => position(flatten_forest(f.take(k + 1)), id) is None,
        },
{
    let before = flatten_forest(f.take(k));
    let here = flatten_task(f[k]);
    let behind = flatten_forest(f.skip(k + 1));
    lemma_flatten_split(f, k);
    lemma_flatten_task_head(f[k]);
    lemma_position_in_task(f[k], id);
    lemma_position_concat(before, here, id);
    lemma_position_concat(before + here, behind, id);
    lemma_position(flatten_forest(f[k].children), id);
    assert(flatten_forest(f)[before.len() as int] == here[0]);
    if f[k].id != id {
        match position(flatten_forest(f[k].children), id) {
            Some(j) => {
                assert(flatten_forest(f)[before.len() + 1 + j] == here[j + 1]);
            },
            None => {},
        }
    }
}

/// A search through all the roots that found nothing: no node of the
/// forest has the identifier.
pub proof fn lemma_search_done(f: Seq<TaskView>, id: Seq<char>)
    requires
        position(flatten_forest(f.take(f.len() as int)), id) is None,
    ensures
        position(flatten_forest(f), id) is None,
{
    assert(f.take(f.len() as int) =~= f);
}

/// Before its first root a forest holds no node.
pub proof fn lemma_search_start(f: Seq<TaskView>, id: Seq<char>)
    ensures
        flatten_forest(f.take(0)).len() == 0,
        position(flatten_forest(f.take(0)), id) is None,
{
    assert(f.take(0).len() == 0);
}

/// The subtree sums of two forests put together add up.
pub proof fn lemma_forest_sum_concat(a: Seq<TaskView>, b: Seq<TaskView>)
    ensures
        forest_sum(a + b) == forest_sum(a) + forest_sum(b),
    decreases a.len(),
{
    if a.len() == 0 {
        assert(a + b =~= b);
    } else {
        assert((a + b).first() == a.first());
        assert((a + b).drop_first() =~= a.drop_first() + b);
        lemma_forest_sum_concat(a.drop_first(), b);
    }
}

/// The sum of the first `k + 1` roots is the sum of the first `k` plus the
/// subtree sum of root number `k`.
pub proof fn lemma_forest_sum_step(f: Seq<TaskView>, k: int)
    requires
        0 <= k < f.len(),
    ensures
        forest_sum(f.take(k + 1)) == forest_sum(f.take(k)) + subtree_sum(f[k]),
{
    let one = seq![f[k]];
    assert(f.take(k + 1) =~= f.take(k) + one);
    lemma_forest_sum_concat(f.take(k), one);
    assert(one.first() == f[k]);
    assert(one.drop_first().len() == 0);
    assert(forest_sum(one.drop_first()) == 0);
    assert(forest_sum(one) == subtree_sum(f[k]));
}

} // verus!
