//! The layout plan: what the engine needs to know of each task to place
//! and draw it, geometry apart.
//!
//! The plan lists the tasks in pre-order. Roots go round the centre of the
//! diagram; children fan out on a half-circle at their parent. A node is
//! placed from its index among its siblings, their number, and the place
//! of its parent, which comes earlier in the plan. Each node carries its
//! subtree sum, taken in the same pass.

use vstd::prelude::*;

use crate::aggregate::checked_sum;
use crate::aggregate::sum_view;
use crate::aggregate::Running;
use crate::estimate_app::id_view;
use crate::estimate_app::EstimateApp;
use crate::forest::distinct_ids;
use crate::forest::flatten_forest;
use crate::forest::flatten_task;
use crate::task::forest_view;
use crate::task::lemma_task_view;
use crate::task::Task;
use crate::task::TaskView;
use crate::text::i32_to_string;
use crate::text::signed_decimal;
use crate::text::str_eq;

verus! {

broadcast use lemma_task_view;

/// One node of the layout plan.
#[derive(Debug)]
pub struct LayoutNode {
    pub id: String,
    pub name: String,
    pub estimate: i32,
    /// The position in the plan of the parent's node; `None` for a root.
    pub parent: Option<usize>,
    /// The position in the plan of the sibling just before; `None` for a
    /// first sibling.
    pub previous: Option<usize>,
    /// The index of the task among its siblings.
    pub index: usize,
    /// The number of siblings, the task itself included.
    pub count: usize,
    /// Whether the task is the selected one.
    pub selected: bool,
    pub child_count: usize,
    /// The sum of the subtree, where it fits.
    pub subtree_sum: Option<i64>,
}

/// The mathematical value of a plan node.
pub struct LayoutNodeView {
    pub id: Seq<char>,
    pub name: Seq<char>,
    pub estimate: int,
    pub parent: Option<int>,
    pub previous: Option<int>,
    pub index: int,
    pub count: int,
    pub selected: bool,
    pub child_count: int,
    pub subtree_sum: Option<int>,
}

/// The value of an optional position.
pub open spec fn position_view(p: Option<usize>) -> Option<int> {
    match p {
        Some(p) => Some(p as int),
        None => None,
    }
}

impl View for LayoutNode {
    type V = LayoutNodeView;

    open spec fn view(&self) -> LayoutNodeView {
        LayoutNodeView {
            id: self.id@,
            name: self.name@,
            estimate: self.estimate as int,
            parent: position_view(self.parent),
            previous: position_view(self.previous),
            index: self.index as int,
            count: self.count as int,
            selected: self.selected,
            child_count: self.child_count as int,
            subtree_sum: sum_view(self.subtree_sum),
        }
    }
}

/// The values of a sequence of plan nodes, in order.
pub open spec fn plan_view(nodes: Seq<LayoutNode>) -> Seq<LayoutNodeView> {
    Seq::new(nodes.len(), |i: int| nodes[i]@)
}

/// The plan node of the task `t`, which is number `index` of `count`
/// siblings under the node at `parent`, behind the sibling at `previous`.
pub open spec fn node_plan(
    t: TaskView,
    parent: Option<int>,
    previous: Option<int>,
    index: int,
    count: int,
    selected: Option<Seq<char>>,
) -> LayoutNodeView {
    LayoutNodeView {
        id: t.id,
        name: t.name,
        estimate: t.estimate,
        parent,
        previous,
        index,
        count,
        selected: selected == Some(t.id),
        child_count: t.children.len() as int,
        subtree_sum: checked_sum(t),
    }
}

/// The plan of the subtree of `t`, whose own node stands at position `at`
/// of the whole plan: the node of `t`, then the plans of its children,
/// each with `at` as its parent.
pub open spec fn plan_task(
    t: TaskView,
    parent: Option<int>,
    previous: Option<int>,
    index: int,
    count: int,
    at: int,
    selected: Option<Seq<char>>,
) -> Seq<LayoutNodeView>
    decreases t, 0int,
{
    seq![node_plan(t, parent, previous, index, count, selected)] + plan_siblings(
        t.children,
        0,
        Some(at),
        None,
        at + 1,
        selected,
    )
}

/// The plans of the siblings `f` from number `from` on, the first of them
/// starting at position `at` of the whole plan, behind the sibling at
/// `previous`.
pub open spec fn plan_siblings(
    f: Seq<TaskView>,
    from: int,
    parent: Option<int>,
    previous: Option<int>,
    at: int,
    selected: Option<Seq<char>>,
) -> Seq<LayoutNodeView>
    decreases f, f.len() - from,
{
    if 0 <= from < f.len() {
        let first = plan_task(f[from], parent, previous, from, f.len() as int, at, selected);
        first + plan_siblings(f, from + 1, parent, Some(at), at + first.len(), selected)
    } else {
        Seq::empty()
    }
}

/// The layout plan of a forest.
pub open spec fn layout_plan(f: Seq<TaskView>, selected: Option<Seq<char>>) -> Seq<LayoutNodeView> {
    plan_siblings(f, 0, None, None, 0, selected)
}

/// The values of a sequence of positions.
pub open spec fn positions_view(positions: Seq<usize>) -> Seq<int> {
    Seq::new(positions.len(), |i: int| positions[i] as int)
}

/// The positions of the siblings before node `k`, the nearest first, as
/// the nodes of `plan` name them.
pub open spec fn sibling_chain(plan: Seq<LayoutNodeView>, k: int) -> Seq<int>
    decreases k,
{
    if 0 <= k < plan.len() {
        match plan[k].previous {
            Some(j) => if 0 <= j < k {
                seq![j] + sibling_chain(plan, j)
            } else {
                Seq::empty()
            },
            None => Seq::empty(),
        }
    } else {
        Seq::empty()
    }
}

/// The share of the arc at which a node stands, as numerator and
/// denominator. A root stands at `index / count` of the full turn. A child
/// stands at `index / (count - 1)` of the half-circle, an only child in
/// its middle.
pub open spec fn arc_fraction(node: LayoutNodeView) -> (int, int) {
    if node.parent is None {
        (node.index, node.count)
    } else if node.count > 1 {
        (node.index, node.count - 1)
    } else {
        (1, 2)
    }
}

/// Whether node `k` of the plan `plan` stands for node `k` of the
/// pre-order `flat`: same task, marked as selected exactly where it is.
pub open spec fn shows(
    plan: Seq<LayoutNodeView>,
    flat: Seq<TaskView>,
    k: int,
    selected: Option<Seq<char>>,
) -> bool {
    plan[k] == node_plan(
        flat[k],
        plan[k].parent,
        plan[k].previous,
        plan[k].index,
        plan[k].count,
        selected,
    )
}

/// Whether node `k` of `plan` is one of the siblings `f` under `parent`:
/// it is number `index` of them, and `count` is their number.
pub open spec fn on_level(
    plan: Seq<LayoutNodeView>,
    flat: Seq<TaskView>,
    k: int,
    f: Seq<TaskView>,
    parent: Option<int>,
) -> bool {
    &&& plan[k].parent == parent
    &&& 0 <= plan[k].index < f.len()
    &&& plan[k].count == f.len()
    &&& f[plan[k].index] == flat[k]
}

/// Whether node `k` of `plan` hangs under an earlier node of `plan`,
/// where `plan` starts at position `at` of the whole plan: its parent is
/// at a position `q` from `at` on and before its own, it is number
/// `index` of that task's children, and `count` is their number.
pub open spec fn under_earlier(
    plan: Seq<LayoutNodeView>,
    flat: Seq<TaskView>,
    k: int,
    at: int,
) -> bool {
    match plan[k].parent {
        Some(q) => on_level(plan, flat, k, flat[q - at].children, Some(q)) && at <= q < at + k,
        None => false,
    }
}

/// Whether node `k` of `plan`, which starts at position `at` of the whole
/// plan, names the sibling before it rightly: an earlier node with the
/// same parent and the index one less, or none for index zero.
pub open spec fn after_sibling(plan: Seq<LayoutNodeView>, k: int, at: int) -> bool {
    match plan[k].previous {
        Some(j) => at <= j < at + k && plan[j - at].parent == plan[k].parent && plan[j - at].index
            + 1 == plan[k].index,
        None => plan[k].index == 0,
    }
}

/// Whether node `k` of `plan` hangs under an earlier node and names the
/// sibling before it rightly.
pub open spec fn hangs(plan: Seq<LayoutNodeView>, flat: Seq<TaskView>, k: int, at: int) -> bool {
    under_earlier(plan, flat, k, at) && after_sibling(plan, k, at)
}

/// Whether node `k` of the plan of the siblings `f` from number `from`
/// on stands rightly: as one of those siblings, behind `previous` or
/// behind an earlier one of them, or under an earlier node.
pub open spec fn stands(
    plan: Seq<LayoutNodeView>,
    flat: Seq<TaskView>,
    k: int,
    f: Seq<TaskView>,
    from: int,
    parent: Option<int>,
    previous: Option<int>,
    at: int,
) -> bool {
    ||| {
        &&& on_level(plan, flat, k, f, parent)
        &&& from <= plan[k].index
        &&& plan[k].index == from ==> plan[k].previous == previous
        &&& plan[k].index > from ==> after_sibling(plan, k, at)
    }
    ||| hangs(plan, flat, k, at)
}

/// The plan of a subtree follows its pre-order node by node, and every
/// node but the first hangs under an earlier one, behind its sibling.
pub proof fn lemma_plan_task(
    t: TaskView,
    parent: Option<int>,
    previous: Option<int>,
    index: int,
    count: int,
    at: int,
    selected: Option<Seq<char>>,
)
    ensures
        plan_task(t, parent, previous, index, count, at, selected).len() == flatten_task(t).len(),
        plan_task(t, parent, previous, index, count, at, selected)[0] == node_plan(
            t,
            parent,
            previous,
            index,
            count,
            selected,
        ),
        flatten_task(t)[0] == t,
        forall|k: int|
            0 <= k < flatten_task(t).len() ==> #[trigger] shows(
                plan_task(t, parent, previous, index, count, at, selected),
                flatten_task(t),
                k,
                selected,
            ),
        forall|k: int|
            1 <= k < flatten_task(t).len() ==> #[trigger] hangs(
                plan_task(t, parent, previous, index, count, at, selected),
                flatten_task(t),
                k,
                at,
            ),
    decreases t, 0int,
{
    let plan = plan_task(t, parent, previous, index, count, at, selected);
    let flat = flatten_task(t);
    let below = plan_siblings(t.children, 0, Some(at), None, at + 1, selected);
    let flat_below = flatten_forest(t.children);
    lemma_plan_siblings(t.children, 0, Some(at), None, at + 1, selected);
    assert(t.children.skip(0) =~= t.children);
    assert forall|k: int| 0 <= k < flat.len() implies #[trigger] shows(plan, flat, k, selected) by {
        if k > 0 {
            assert(shows(below, flat_below, k - 1, selected));
        }
    }
    assert forall|k: int| 1 <= k < flat.len() implies #[trigger] hangs(plan, flat, k, at) by {
        let j = k - 1;
        assert(stands(below, flat_below, j, t.children, 0, Some(at), None, at + 1));
        if hangs(below, flat_below, j, at + 1) {
            let q = below[j].parent->0;
            assert(flat[q - at] == flat_below[q - (at + 1)]);
            if below[j].previous is Some {
                let p = below[j].previous->0;
                assert(plan[p - at] == below[p - (at + 1)]);
            }
        } else {
            assert(flat[at - at] == t);
            if below[j].index > 0 {
                let p = below[j].previous->0;
                assert(plan[p - at] == below[p - (at + 1)]);
            }
        }
    }
}

/// The plan of some siblings follows their pre-order node by node, and
/// every node stands rightly.
pub proof fn lemma_plan_siblings(
    f: Seq<TaskView>,
    from: int,
    parent: Option<int>,
    previous: Option<int>,
    at: int,
    selected: Option<Seq<char>>,
)
    requires
        0 <= from <= f.len(),
    ensures
        plan_siblings(f, from, parent, previous, at, selected).len() == flatten_forest(
            f.skip(from),
        ).len(),
        forall|k: int|
            0 <= k < flatten_forest(f.skip(from)).len() ==> #[trigger] shows(
                plan_siblings(f, from, parent, previous, at, selected),
                flatten_forest(f.skip(from)),
                k,
                selected,
            ),
        forall|k: int|
            0 <= k < flatten_forest(f.skip(from)).len() ==> #[trigger] stands(
                plan_siblings(f, from, parent, previous, at, selected),
                flatten_forest(f.skip(from)),
                k,
                f,
                from,
                parent,
                previous,
                at,
            ),
    decreases f, f.len() - from,
{
    let plan = plan_siblings(f, from, parent, previous, at, selected);
    let flat = flatten_forest(f.skip(from));
    if from < f.len() {
        let first = plan_task(f[from], parent, previous, from, f.len() as int, at, selected);
        let flat_first = flatten_task(f[from]);
        let n = first.len() as int;
        let rest = plan_siblings(f, from + 1, parent, Some(at), at + n, selected);
        let flat_rest = flatten_forest(f.skip(from + 1));
        lemma_plan_task(f[from], parent, previous, from, f.len() as int, at, selected);
        lemma_plan_siblings(f, from + 1, parent, Some(at), at + n, selected);
        assert(f.skip(from).first() == f[from]);
        assert(f.skip(from).drop_first() =~= f.skip(from + 1));
        assert(flat == flat_first + flat_rest);
        assert(plan == first + rest);
        assert forall|k: int| 0 <= k < flat.len() implies #[trigger] shows(plan, flat, k, selected) by {
            if k < n {
                assert(shows(first, flat_first, k, selected));
            } else {
                assert(shows(rest, flat_rest, k - n, selected));
            }
        }
        assert forall|k: int| 0 <= k < flat.len() implies #[trigger] stands(
            plan,
            flat,
            k,
            f,
            from,
            parent,
            previous,
            at,
        ) by {
            if k == 0 {
                assert(on_level(plan, flat, k, f, parent));
            } else if k < n {
                assert(hangs(first, flat_first, k, at));
                let q = first[k].parent->0;
                assert(flat[q - at] == flat_first[q - at]);
                if first[k].previous is Some {
                    let p = first[k].previous->0;
                    assert(plan[p - at] == first[p - at]);
                }
                assert(under_earlier(plan, flat, k, at));
                assert(after_sibling(plan, k, at));
            } else {
                let j = k - n;
                assert(stands(rest, flat_rest, j, f, from + 1, parent, Some(at), at + n));
                if hangs(rest, flat_rest, j, at + n) {
                    let q = rest[j].parent->0;
                    assert(flat[q - at] == flat_rest[q - (at + n)]);
                    if rest[j].previous is Some {
                        let p = rest[j].previous->0;
                        assert(plan[p - at] == rest[p - (at + n)]);
                    }
                    assert(under_earlier(plan, flat, k, at));
                    assert(after_sibling(plan, k, at));
                } else {
                    assert(on_level(plan, flat, k, f, parent));
                    if rest[j].index == from + 1 {
                        assert(plan[at - at] == first[0]);
                        assert(after_sibling(plan, k, at));
                    } else {
                        let p = rest[j].previous->0;
                        assert(plan[p - at] == rest[p - (at + n)]);
                        assert(after_sibling(plan, k, at));
                    }
                }
            }
        }
    } else {
        assert(f.skip(from).len() == 0);
    }
}

/// The layout plan goes through the tasks in pre-order, the order of
/// navigation: node for node it shows the task at the same position. A
/// node without parent is a root, at its index among the roots; a node
/// with a parent comes after its parent and is that task's child, at its
/// index among the children. The sibling that a node names as the one
/// before it is an earlier node with the same parent and the index one
/// less; the node with index zero names none.
pub proof fn lemma_layout_plan(f: Seq<TaskView>, selected: Option<Seq<char>>)
    ensures
        layout_plan(f, selected).len() == flatten_forest(f).len(),
        forall|k: int|
            0 <= k < flatten_forest(f).len() ==> #[trigger] shows(
                layout_plan(f, selected),
                flatten_forest(f),
                k,
                selected,
            ),
        forall|k: int|
            #![trigger layout_plan(f, selected)[k]]
            0 <= k < flatten_forest(f).len() ==> match layout_plan(f, selected)[k].parent {
                None => on_level(layout_plan(f, selected), flatten_forest(f), k, f, None),
                Some(q) => 0 <= q < k && on_level(
                    layout_plan(f, selected),
                    flatten_forest(f),
                    k,
                    flatten_forest(f)[q].children,
                    Some(q),
                ),
            },
        forall|k: int|
            0 <= k < flatten_forest(f).len() ==> #[trigger] after_sibling(
                layout_plan(f, selected),
                k,
                0,
            ),
{
    let plan = layout_plan(f, selected);
    let flat = flatten_forest(f);
    lemma_plan_siblings(f, 0, None, None, 0, selected);
    assert(f.skip(0) =~= f);
    assert forall|k: int| 0 <= k < flat.len() implies match (#[trigger] plan[k]).parent {
        None => on_level(plan, flat, k, f, None),
        Some(q) => 0 <= q < k && on_level(plan, flat, k, flat[q].children, Some(q)),
    } by {
        assert(stands(plan, flat, k, f, 0, None, None, 0));
    }
    assert forall|k: int| 0 <= k < flat.len() implies #[trigger] after_sibling(plan, k, 0) by {
        assert(stands(plan, flat, k, f, 0, None, None, 0));
    }
}

/// Whether the nodes of `plan` that have the same parent come in the
/// order of their indices.
pub open spec fn ordered(plan: Seq<LayoutNodeView>) -> bool {
    forall|a: int, b: int|
        0 <= a < b < plan.len() && plan[a].parent == plan[b].parent ==> plan[a].index
            < plan[b].index
}

/// Whether the position `parent`, if there is one, lies before `at`.
pub open spec fn lies_before(parent: Option<int>, at: int) -> bool {
    match parent {
        Some(p) => p < at,
        None => true,
    }
}

/// In the plan of a subtree, nodes with the same parent come in the order
/// of their indices.
pub proof fn lemma_plan_task_ordered(
    t: TaskView,
    parent: Option<int>,
    previous: Option<int>,
    index: int,
    count: int,
    at: int,
    selected: Option<Seq<char>>,
)
    requires
        lies_before(parent, at),
    ensures
        ordered(plan_task(t, parent, previous, index, count, at, selected)),
    decreases t, 0int,
{
    let plan = plan_task(t, parent, previous, index, count, at, selected);
    let below = plan_siblings(t.children, 0, Some(at), None, at + 1, selected);
    lemma_plan_task(t, parent, previous, index, count, at, selected);
    lemma_plan_siblings_ordered(t.children, 0, Some(at), None, at + 1, selected);
    assert forall|a: int, b: int|
        0 <= a < b < plan.len() && plan[a].parent == plan[b].parent implies plan[a].index
        < plan[b].index by {
        if a == 0 {
            assert(hangs(plan, flatten_task(t), b, at));
        } else {
            assert(plan[a] == below[a - 1]);
            assert(plan[b] == below[b - 1]);
        }
    }
}

/// In the plan of some siblings, nodes with the same parent come in the
/// order of their indices.
pub proof fn lemma_plan_siblings_ordered(
    f: Seq<TaskView>,
    from: int,
    parent: Option<int>,
    previous: Option<int>,
    at: int,
    selected: Option<Seq<char>>,
)
    requires
        0 <= from <= f.len(),
        lies_before(parent, at),
    ensures
        ordered(plan_siblings(f, from, parent, previous, at, selected)),
    decreases f, f.len() - from,
{
    let plan = plan_siblings(f, from, parent, previous, at, selected);
    if from < f.len() {
        let first = plan_task(f[from], parent, previous, from, f.len() as int, at, selected);
        let flat_first = flatten_task(f[from]);
        let n = first.len() as int;
        let rest = plan_siblings(f, from + 1, parent, Some(at), at + n, selected);
        let flat_rest = flatten_forest(f.skip(from + 1));
        lemma_plan_task(f[from], parent, previous, from, f.len() as int, at, selected);
        lemma_plan_siblings(f, from + 1, parent, Some(at), at + n, selected);
        lemma_plan_task_ordered(f[from], parent, previous, from, f.len() as int, at, selected);
        lemma_plan_siblings_ordered(f, from + 1, parent, Some(at), at + n, selected);
        assert(plan == first + rest);
        assert forall|a: int, b: int|
            0 <= a < b < plan.len() && plan[a].parent == plan[b].parent implies plan[a].index
            < plan[b].index by {
            if b < n {
                assert(plan[a] == first[a]);
                assert(plan[b] == first[b]);
            } else if a >= n {
                assert(plan[a] == rest[a - n]);
                assert(plan[b] == rest[b - n]);
            } else {
                assert(plan[a] == first[a]);
                assert(plan[b] == rest[b - n]);
                assert(stands(rest, flat_rest, b - n, f, from + 1, parent, Some(at), at + n));
                if a > 0 {
                    assert(hangs(first, flat_first, a, at));
                }
            }
        }
    }
}

/// In a layout plan, nodes with the same parent come in the order of
/// their indices.
pub proof fn lemma_layout_plan_ordered(f: Seq<TaskView>, selected: Option<Seq<char>>)
    ensures
        ordered(layout_plan(f, selected)),
{
    lemma_plan_siblings_ordered(f, 0, None, None, 0, selected);
}

/// In the plan of a tree that has no identifier twice, at most one node
/// is marked as selected.
pub proof fn lemma_one_selected(f: Seq<TaskView>, selected: Option<Seq<char>>)
    requires
        distinct_ids(flatten_forest(f)),
    ensures
        forall|i: int, j: int|
            0 <= i < j < layout_plan(f, selected).len() ==> !(layout_plan(f, selected)[i].selected
                && layout_plan(f, selected)[j].selected),
{
    let plan = layout_plan(f, selected);
    let flat = flatten_forest(f);
    lemma_layout_plan(f, selected);
    assert forall|i: int, j: int| 0 <= i < j < plan.len() implies !(plan[i].selected
        && plan[j].selected) by {
        assert(shows(plan, flat, i, selected));
        assert(shows(plan, flat, j, selected));
    }
}

/// Every node of a layout plan has an index below its count.
pub proof fn lemma_layout_plan_indices(f: Seq<TaskView>, selected: Option<Seq<char>>)
    ensures
        forall|k: int|
            0 <= k < layout_plan(f, selected).len() ==> 0 <= (#[trigger] layout_plan(
                f,
                selected,
            )[k]).index < layout_plan(f, selected)[k].count,
{
    lemma_layout_plan(f, selected);
}

/// Whether `j` can be entry `i` of the chain of earlier siblings of node
/// `k`: an earlier node with the same parent, `i + 1` places before `k`
/// among the siblings.
pub open spec fn chain_entry(plan: Seq<LayoutNodeView>, k: int, i: int, j: int) -> bool {
    &&& 0 <= j < k
    &&& plan[j].parent == plan[k].parent
    &&& plan[j].index == plan[k].index - 1 - i
}

/// In a layout plan the chain of earlier siblings of a node holds one
/// node for each sibling before it, the nearest first, all with the same
/// parent: the nodes among which the node has to find its place.
pub proof fn lemma_sibling_chain(f: Seq<TaskView>, selected: Option<Seq<char>>, k: int)
    requires
        0 <= k < layout_plan(f, selected).len(),
    ensures
        sibling_chain(layout_plan(f, selected), k).len() == layout_plan(f, selected)[k].index,
        forall|i: int|
            0 <= i < layout_plan(f, selected)[k].index ==> chain_entry(
                layout_plan(f, selected),
                k,
                i,
                #[trigger] sibling_chain(layout_plan(f, selected), k)[i],
            ),
    decreases k,
{
    let plan = layout_plan(f, selected);
    lemma_layout_plan(f, selected);
    assert(after_sibling(plan, k, 0));
    match plan[k].previous {
        Some(j) => {
            lemma_sibling_chain(f, selected, j);
            let chain = sibling_chain(plan, k);
            assert(chain == seq![j] + sibling_chain(plan, j));
            assert forall|i: int| 0 <= i < plan[k].index implies chain_entry(
                plan,
                k,
                i,
                #[trigger] chain[i],
            ) by {
                if i > 0 {
                    assert(chain[i] == sibling_chain(plan, j)[i - 1]);
                    assert(chain_entry(plan, j, i - 1, sibling_chain(plan, j)[i - 1]));
                }
            }
        },
        None => {},
    }
}

/// The sum shown beside a node: the subtree sum of a task that has
/// children, nothing for a leaf.
pub open spec fn annotation(node: LayoutNodeView) -> Option<int> {
    if node.child_count > 0 {
        node.subtree_sum
    } else {
        None
    }
}

/// In a layout plan the chain of earlier siblings of a node misses none:
/// every earlier node with the same parent is in it. A node that keeps
/// clear of the chain keeps clear of all its siblings placed before.
pub proof fn lemma_sibling_chain_complete(
    f: Seq<TaskView>,
    selected: Option<Seq<char>>,
    j: int,
    k: int,
)
    requires
        0 <= j < k < layout_plan(f, selected).len(),
        layout_plan(f, selected)[j].parent == layout_plan(f, selected)[k].parent,
    ensures
        sibling_chain(layout_plan(f, selected), k).contains(j),
{
    let plan = layout_plan(f, selected);
    let chain = sibling_chain(plan, k);
    lemma_layout_plan_ordered(f, selected);
    lemma_layout_plan_indices(f, selected);
    lemma_sibling_chain(f, selected, k);
    let i = plan[k].index - 1 - plan[j].index;
    assert(0 <= plan[j].index < plan[k].index);
    let c = chain[i];
    assert(chain_entry(plan, k, i, c));
    if c < j {
        assert(plan[c].index < plan[j].index);
    }
    if j < c {
        assert(plan[j].index < plan[c].index);
    }
    assert(chain[i] == j);
}

impl LayoutNode {
    /// Whether the node is placed on its parent's half-circle, not on the
    /// ring of roots.
    pub fn is_child(&self) -> (r: bool)
        ensures
            r == (self@.parent is Some),
    {
        self.parent.is_some()
    }

    /// The share of the arc at which the node stands. For a node of a
    /// layout plan, whose index is below its count, the share is a
    /// fraction between zero and one.
    pub fn arc_fraction(&self) -> (r: (usize, usize))
        ensures
            (r.0 as int, r.1 as int) == arc_fraction(self@),
            self.index < self.count ==> r.1 > 0 && r.0 <= r.1,
    {
        if self.parent.is_none() {
            (self.index, self.count)
        } else if self.count > 1 {
            (self.index, self.count - 1)
        } else {
            (1, 2)
        }
    }

    /// The sum to show beside the node: the subtree sum of a task that
    /// has children, nothing for a leaf.
    pub fn annotation(&self) -> (r: Option<i64>)
        ensures
            sum_view(r) == annotation(self@),
    {
        if self.child_count > 0 {
            self.subtree_sum
        } else {
            None
        }
    }

    /// The estimate as the text drawn under the name.
    pub fn estimate_text(&self) -> (r: String)
        ensures
            r@ == signed_decimal(self@.estimate),
    {
        i32_to_string(self.estimate)
    }
}

/// The positions in `plan` of the siblings before node `k`, the nearest
/// first: the nodes whose places node `k` has to keep clear of. Empty
/// where `plan` has no node `k`.
pub fn earlier_siblings(plan: &Vec<LayoutNode>, k: usize) -> (r: Vec<usize>)
    ensures
        positions_view(r@) == sibling_chain(plan_view(plan@), k as int),
{
    let ghost all = plan_view(plan@);
    let ghost whole = sibling_chain(all, k as int);
    let mut chain: Vec<usize> = Vec::new();
    if k >= plan.len() {
        assert(positions_view(chain@) =~= whole);
        return chain;
    }
    let mut at: usize = k;
    assert(positions_view(chain@) + sibling_chain(all, at as int) =~= whole);
    loop
        invariant
            all == plan_view(plan@),
            at < plan.len(),
            positions_view(chain@) + sibling_chain(all, at as int) == whole,
        ensures
            positions_view(chain@) == whole,
        decreases at,
    {
        assert(all[at as int] == plan@[at as int]@);
        let ghost so_far = positions_view(chain@);
        match plan[at].previous {
            Some(j) => {
                if j < at {
                    let ghost rest = sibling_chain(all, j as int);
                    chain.push(j);
                    assert(positions_view(chain@) =~= so_far + seq![j as int]);
                    assert(so_far + seq![j as int] + rest =~= so_far + (seq![j as int] + rest));
                    at = j;
                } else {
                    assert(so_far + Seq::<int>::empty() =~= so_far);
                    break;
                }
            },
            None => {
                assert(so_far + Seq::<int>::empty() =~= so_far);
                break;
            },
        }
    }
    chain
}

impl EstimateApp {
    /// The layout plan of the tree, with the task named by
    /// `selected_task_id` marked as selected.
    pub fn layout_plan(&self, selected_task_id: Option<&str>) -> (r: Vec<LayoutNode>)
        ensures
            plan_view(r@) == layout_plan(self@, id_view(selected_task_id)),
            forall|k: int| 0 <= k < r@.len() ==> (#[trigger] r@[k]).index < r@[k].count,
    {
        let ghost f = self@;
        let ghost sel = id_view(selected_task_id);
        let mut plan: Vec<LayoutNode> = Vec::new();
        let count: usize = self.tasks.len();
        let mut previous: Option<usize> = None;
        let mut i: usize = 0;
        while i < count
            invariant
                i <= count,
                count == self.tasks.len(),
                f == forest_view(self.tasks@),
                sel == id_view(selected_task_id),
                plan_view(plan@) + plan_siblings(
                    f,
                    i as int,
                    None,
                    position_view(previous),
                    plan@.len() as int,
                    sel,
                ) == plan_siblings(f, 0, None, None, 0, sel),
            decreases count - i,
        {
            let ghost before = plan_view(plan@);
            let ghost prev = position_view(previous);
            let at: usize = plan.len();
            plan_subtree(&self.tasks[i], None, previous, i, count, selected_task_id, &mut plan);
            proof {
                let first = plan_task(f[i as int], None, prev, i as int, count as int, at as int, sel);
                let rest = plan_siblings(f, i + 1, None, Some(at as int), at + first.len(), sel);
                assert(plan_view(plan@) == before + first);
                assert(before + first + rest =~= before + (first + rest));
            }
            previous = Some(at);
            i += 1;
        }
        assert(plan_view(plan@) + Seq::<LayoutNodeView>::empty() =~= plan_view(plan@));
        proof {
            lemma_layout_plan_indices(f, sel);
            assert forall|k: int| 0 <= k < plan@.len() implies (#[trigger] plan@[k]).index
                < plan@[k].count by {
                assert(plan@[k]@ == layout_plan(f, sel)[k]);
            }
        }
        plan
    }
}

/// Appends the plan of the subtree of `task` to `plan` and returns the
/// subtree sum.
fn plan_subtree(
    task: &Task,
    parent: Option<usize>,
    previous: Option<usize>,
    index: usize,
    count: usize,
    selected_task_id: Option<&str>,
    plan: &mut Vec<LayoutNode>,
) -> (sum: Option<i64>)
    ensures
        plan_view(final(plan)@) == plan_view(old(plan)@) + plan_task(
            task@,
            position_view(parent),
            position_view(previous),
            index as int,
            count as int,
            old(plan)@.len() as int,
            id_view(selected_task_id),
        ),
        sum_view(sum) == checked_sum(task@),
    decreases task,
{
    let ghost t = task@;
    let ghost sel = id_view(selected_task_id);
    let ghost before = plan_view(plan@);
    let ghost parent_view: Option<int> = position_view(parent);
    let ghost previous_view: Option<int> = position_view(previous);
    let at: usize = plan.len();
    let selected: bool = match selected_task_id {
        Some(id) => str_eq(task.id.as_str(), id),
        None => false,
    };
    let kids: usize = task.children.len();
    plan.push(
        LayoutNode {
            id: task.id.clone(),
            name: task.name.clone(),
            estimate: task.estimate,
            parent,
            previous,
            index,
            count,
            selected,
            child_count: kids,
            subtree_sum: None,
        },
    );
    let ghost own = plan@[at as int]@;
    assert(plan_view(plan@) =~= before + seq![own]);
    assert(own == (LayoutNodeView {
        subtree_sum: None,
        ..node_plan(t, parent_view, previous_view, index as int, count as int, sel)
    }));
    let mut running = Running::start(task.estimate, Ghost(t));
    let mut before_child: Option<usize> = None;
    let mut i: usize = 0;
    while i < kids
        invariant
            i <= kids,
            kids == task.children.len(),
            t == task@,
            t.children == forest_view(task.children@),
            sel == id_view(selected_task_id),
            running.covers(t, i as int),
            at < plan@.len(),
            plan_view(plan@).take(at + 1) == before + seq![own],
            plan_view(plan@).skip(at + 1) + plan_siblings(
                t.children,
                i as int,
                Some(at as int),
                position_view(before_child),
                plan@.len() as int,
                sel,
            ) == plan_siblings(t.children, 0, Some(at as int), None, at + 1, sel),
        decreases kids - i,
    {
        let ghost so_far = plan_view(plan@);
        let ghost prev = position_view(before_child);
        let here: usize = plan.len();
        let child = plan_subtree(
            &task.children[i],
            Some(at),
            before_child,
            i,
            kids,
            selected_task_id,
            plan,
        );
        proof {
            let first = plan_task(
                t.children[i as int],
                Some(at as int),
                prev,
                i as int,
                kids as int,
                here as int,
                sel,
            );
            let rest = plan_siblings(
                t.children,
                i + 1,
                Some(at as int),
                Some(here as int),
                here + first.len(),
                sel,
            );
            assert(t.children[i as int] == task.children@[i as int]@);
            assert(plan_view(plan@) == so_far + first);
            assert(plan_view(plan@).take(at + 1) =~= so_far.take(at + 1));
            assert(plan_view(plan@).skip(at + 1) =~= so_far.skip(at + 1) + first);
            assert(so_far.skip(at + 1) + first + rest =~= so_far.skip(at + 1) + (first + rest));
        }
        running.add(child, Ghost(t), Ghost(i as int));
        before_child = Some(here);
        i += 1;
    }
    let sum = running.finish(Ghost(t));
    let ghost filled = plan_view(plan@);
    assert(plan@[at as int]@ == filled.take(at + 1)[at as int]);
    assert(plan@[at as int]@ == own);
    let node = &mut plan[at];
    node.subtree_sum = sum;
    proof {
        let tail = plan_siblings(t.children, 0, Some(at as int), None, at + 1, sel);
        let done = node_plan(t, parent_view, previous_view, index as int, count as int, sel);
        assert(plan@[at as int]@ == done);
        assert(filled.skip(at + 1) + Seq::<LayoutNodeView>::empty() =~= filled.skip(at + 1));
        assert(plan_view(plan@) =~= before + (seq![done] + tail)) by {
            assert forall|k: int| 0 <= k < plan@.len() implies plan_view(plan@)[k] == (before + (
                seq![done] + tail))[k] by {
                if k < at {
                    assert(plan_view(plan@)[k] == filled.take(at + 1)[k]);
                } else if k == at {
                } else {
                    assert(plan_view(plan@)[k] == filled.skip(at + 1)[k - at - 1]);
                }
            }
        }
    }
    sum
}

} // verus!
