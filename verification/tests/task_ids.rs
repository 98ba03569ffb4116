use estimate_tree::task::Task;

#[test]
fn new_task_has_the_given_fields_and_no_children() {
    let t = Task::new("task-4", "Write report", -3);
    assert_eq!(t.id, "task-4");
    assert_eq!(t.name, "Write report");
    assert_eq!(t.estimate, -3);
    assert!(t.children.is_empty());
}

#[test]
fn first_child_id_counts_from_zero() {
    let mut parent = Task::new("task-0", "parent", 1);
    let id = parent.add_child_task("child", 2);
    assert_eq!(id, "task-0-0");
    assert_eq!(parent.children.len(), 1);
    assert_eq!(parent.children[0].id, "task-0-0");
    assert_eq!(parent.children[0].name, "child");
    assert_eq!(parent.children[0].estimate, 2);
    assert!(parent.children[0].children.is_empty());
}

#[test]
fn child_ids_follow_the_number_of_children() {
    let mut parent = Task::new("p", "parent", 0);
    assert_eq!(parent.add_child_task("a", 0), "p-0");
    assert_eq!(parent.add_child_task("b", 0), "p-1");
    assert_eq!(parent.add_child_task("c", 0), "p-2");
    let names: Vec<&str> = parent.children.iter().map(|c| c.name.as_str()).collect();
    assert_eq!(names, vec!["a", "b", "c"]);
}

#[test]
fn child_id_skips_identifiers_that_are_taken() {
    let mut parent = Task::new("p", "parent", 0);
    parent.children.push(Task::new("p-1", "early", 0));
    // One child: the first candidate is p-1, which is taken.
    assert_eq!(parent.get_child_id(), "p-2");
    assert_eq!(parent.add_child_task("next", 0), "p-2");
    // Two children, p-1 and p-2: the first candidate p-2 is taken.
    assert_eq!(parent.add_child_task("after", 0), "p-3");
}

#[test]
fn child_id_skips_a_run_of_taken_identifiers() {
    let mut parent = Task::new("x", "parent", 0);
    parent.children.push(Task::new("x-3", "a", 0));
    parent.children.push(Task::new("x-4", "b", 0));
    parent.children.push(Task::new("x-5", "c", 0));
    assert_eq!(parent.get_child_id(), "x-6");
}

#[test]
fn child_id_does_not_look_below_direct_children() {
    let mut parent = Task::new("p", "parent", 0);
    let mut child = Task::new("c", "child", 0);
    child.children.push(Task::new("p-1", "grandchild", 0));
    parent.children.push(child);
    assert_eq!(parent.get_child_id(), "p-1");
}

#[test]
fn child_id_with_ten_or_more_children_has_two_digits() {
    let mut parent = Task::new("t", "parent", 0);
    for _ in 0..12 {
        parent.add_child_task("c", 0);
    }
    assert_eq!(parent.children[9].id, "t-9");
    assert_eq!(parent.children[10].id, "t-10");
    assert_eq!(parent.children[11].id, "t-11");
}

#[test]
fn added_child_ids_are_pairwise_distinct() {
    let mut parent = Task::new("p", "parent", 0);
    parent.children.push(Task::new("p-2", "x", 0));
    parent.children.push(Task::new("p-5", "y", 0));
    parent.children.push(Task::new("p-4", "z", 0));
    for k in 0..20 {
        parent.add_child_task("n", k);
    }
    let ids: Vec<&str> = parent.children.iter().map(|c| c.id.as_str()).collect();
    for i in 0..ids.len() {
        for j in (i + 1)..ids.len() {
            assert_ne!(ids[i], ids[j]);
        }
    }
    assert_eq!(parent.children.len(), 23);
}

#[test]
fn has_child_id_looks_at_direct_children_only() {
    let mut parent = Task::new("p", "parent", 0);
    let mut child = Task::new("c", "child", 0);
    child.children.push(Task::new("g", "grandchild", 0));
    parent.children.push(child);
    assert!(parent.has_child_id("c"));
    assert!(!parent.has_child_id("g"));
    assert!(!parent.has_child_id("p"));
    assert!(!parent.has_child_id(""));
}

#[test]
fn clone_copies_the_whole_subtree() {
    let mut parent = Task::new("p", "parent", 7);
    parent.add_child_task("a", 1);
    parent.children[0].add_child_task("b", 2);
    let copy = parent.clone();
    assert_eq!(copy.id, "p");
    assert_eq!(copy.name, "parent");
    assert_eq!(copy.estimate, 7);
    assert_eq!(copy.children.len(), 1);
    assert_eq!(copy.children[0].id, "p-0");
    assert_eq!(copy.children[0].children.len(), 1);
    assert_eq!(copy.children[0].children[0].id, "p-0-0");
    assert_eq!(copy.children[0].children[0].name, "b");
    assert_eq!(copy.children[0].children[0].estimate, 2);
}
