use estimate_tree::estimate_app::EstimateApp;
use estimate_tree::rows::TaskRow;
use estimate_tree::task::Task;

fn row(id: &str, name: &str, estimate: i32, child_count: usize) -> TaskRow {
    TaskRow { id: id.to_string(), name: name.to_string(), estimate, child_count }
}

fn fields(rows: &[TaskRow]) -> Vec<(String, String, i32, usize)> {
    rows.iter().map(|r| (r.id.clone(), r.name.clone(), r.estimate, r.child_count)).collect()
}

fn same_task(a: &Task, b: &Task) -> bool {
    a.id == b.id
        && a.name == b.name
        && a.estimate == b.estimate
        && a.children.len() == b.children.len()
        && a.children.iter().zip(b.children.iter()).all(|(x, y)| same_task(x, y))
}

fn same_tree(a: &EstimateApp, b: &EstimateApp) -> bool {
    a.tasks.len() == b.tasks.len() && a.tasks.iter().zip(b.tasks.iter()).all(|(x, y)| same_task(x, y))
}

fn nested() -> EstimateApp {
    let mut c = Task::new("c", "third", 3);
    c.children.push(Task::new("d", "fourth", -4));
    let mut b = Task::new("b", "second", 2);
    b.children.push(c);
    b.children.push(Task::new("e", "", 5));
    let mut a = Task::new("a", "first", 1);
    a.children.push(b);
    EstimateApp { tasks: vec![a, Task::new("f", "last", 6)] }
}

#[test]
fn rows_list_the_tasks_in_pre_order_with_their_child_counts() {
    let rows = nested().to_rows();
    let expected = vec![
        ("a".to_string(), "first".to_string(), 1, 1),
        ("b".to_string(), "second".to_string(), 2, 2),
        ("c".to_string(), "third".to_string(), 3, 1),
        ("d".to_string(), "fourth".to_string(), -4, 0),
        ("e".to_string(), "".to_string(), 5, 0),
        ("f".to_string(), "last".to_string(), 6, 0),
    ];
    assert_eq!(fields(&rows), expected);
}

#[test]
fn rows_of_an_empty_tree_are_none() {
    assert!(EstimateApp::default().to_rows().is_empty());
    let back = EstimateApp::from_rows(&Vec::new()).unwrap();
    assert!(back.tasks.is_empty());
}

#[test]
fn rows_read_back_give_the_same_tree() {
    let app = nested();
    let back = EstimateApp::from_rows(&app.to_rows()).unwrap();
    assert!(same_tree(&app, &back));
}

#[test]
fn the_sample_tree_survives_the_round_trip() {
    let app = EstimateApp::new();
    let back = EstimateApp::from_rows(&app.to_rows()).unwrap();
    assert!(same_tree(&app, &back));
    assert_eq!(back.tasks[3].children[2].name, "Example Task 3 3");
}

#[test]
fn a_tree_that_grew_by_edits_survives_the_round_trip() {
    let mut app = EstimateApp::default();
    app.add_task("root");
    app.add_child("task-0", "child", 5);
    app.add_child("task-0-0", "grandchild", 6);
    app.add_child("task-0", "second", 7);
    app.add_task("other");
    app.set_estimate("task-1", -3);
    let back = EstimateApp::from_rows(&app.to_rows()).unwrap();
    assert!(same_tree(&app, &back));
    let order: Vec<String> = back.flatten_tasks().iter().map(|t| t.id.clone()).collect();
    assert_eq!(order, vec!["task-0", "task-0-0", "task-0-0-0", "task-0-1", "task-1"]);
}

#[test]
fn rows_are_read_in_order_of_children() {
    let rows = vec![row("p", "parent", 1, 3), row("x", "x", 2, 0), row("y", "y", 3, 0), row("z", "z", 4, 0)];
    let app = EstimateApp::from_rows(&rows).unwrap();
    assert_eq!(app.tasks.len(), 1);
    let names: Vec<&str> = app.tasks[0].children.iter().map(|c| c.id.as_str()).collect();
    assert_eq!(names, vec!["x", "y", "z"]);
}

#[test]
fn rows_behind_a_full_subtree_start_the_next_root() {
    let rows = vec![row("p", "parent", 1, 1), row("x", "x", 2, 0), row("q", "next", 3, 0)];
    let app = EstimateApp::from_rows(&rows).unwrap();
    assert_eq!(app.tasks.len(), 2);
    assert_eq!(app.tasks[0].children.len(), 1);
    assert_eq!(app.tasks[1].id, "q");
}

#[test]
fn rows_that_promise_missing_children_are_refused() {
    assert!(EstimateApp::from_rows(&vec![row("p", "parent", 1, 1)]).is_none());
    assert!(EstimateApp::from_rows(&vec![row("p", "parent", 1, 2), row("x", "x", 2, 0)]).is_none());
    let deep = vec![row("p", "parent", 1, 1), row("x", "x", 2, 1), row("y", "y", 2, 1)];
    assert!(EstimateApp::from_rows(&deep).is_none());
    assert!(EstimateApp::from_rows(&vec![row("p", "parent", 1, usize::MAX)]).is_none());
}

#[test]
fn rows_of_rows_read_back_are_the_same_rows() {
    let rows = vec![row("p", "parent", 1, 2), row("x", "x", 2, 0), row("y", "y", 3, 1), row("z", "z", 4, 0)];
    let app = EstimateApp::from_rows(&rows).unwrap();
    assert_eq!(fields(&app.to_rows()), fields(&rows));
}
