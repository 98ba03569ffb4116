use estimate_tree::estimate_app::EstimateApp;
use estimate_tree::task::Task;

fn family() -> Task {
    let mut parent = Task::new("p", "parent", 5);
    parent.children.push(Task::new("a", "a", 3));
    parent.children.push(Task::new("b", "b", 4));
    parent
}

#[test]
fn subtree_sum_adds_the_task_and_its_children() {
    assert_eq!(family().subtree_sum(), Some(12));
}

#[test]
fn subtree_sum_of_a_leaf_is_its_estimate() {
    assert_eq!(Task::new("l", "leaf", 9).subtree_sum(), Some(9));
    assert_eq!(Task::new("l", "leaf", 0).subtree_sum(), Some(0));
    assert_eq!(Task::new("l", "leaf", -9).subtree_sum(), Some(-9));
}

#[test]
fn subtree_sum_reaches_all_descendants() {
    let mut root = Task::new("r", "root", 1);
    let mut mid = family();
    mid.children[0].children.push(Task::new("g", "grandchild", 100));
    root.children.push(mid);
    root.children.push(Task::new("s", "sibling", -20));
    assert_eq!(root.subtree_sum(), Some(1 + 5 + 3 + 100 + 4 - 20));
}

#[test]
fn subtree_sum_goes_beyond_32_bits() {
    let mut root = Task::new("r", "root", i32::MAX);
    root.children.push(Task::new("a", "a", i32::MAX));
    root.children.push(Task::new("b", "b", i32::MAX));
    assert_eq!(root.subtree_sum(), Some(3 * (i32::MAX as i64)));
    let mut low = Task::new("r", "root", i32::MIN);
    low.children.push(Task::new("a", "a", i32::MIN));
    assert_eq!(low.subtree_sum(), Some(2 * (i32::MIN as i64)));
}

#[test]
fn annotation_of_a_parent_is_its_subtree_sum() {
    let app = EstimateApp { tasks: vec![family()] };
    let plan = app.layout_plan(None);
    assert_eq!(plan.len(), 3);
    assert_eq!(plan[0].subtree_sum, Some(12));
    assert_eq!(plan[0].annotation(), Some(12));
}

#[test]
fn a_leaf_has_a_sum_and_no_annotation() {
    let app = EstimateApp { tasks: vec![family()] };
    let plan = app.layout_plan(None);
    assert_eq!(plan[1].subtree_sum, Some(3));
    assert_eq!(plan[1].annotation(), None);
    assert_eq!(plan[2].subtree_sum, Some(4));
    assert_eq!(plan[2].annotation(), None);
}

#[test]
fn plan_sums_agree_with_subtree_sums() {
    let app = EstimateApp::new();
    let plan = app.layout_plan(None);
    let flat = app.flatten_tasks();
    assert_eq!(plan.len(), flat.len());
    for (node, task) in plan.iter().zip(flat.iter()) {
        assert_eq!(node.subtree_sum, task.subtree_sum());
    }
    assert_eq!(plan[0].annotation(), Some(28));
}
