use estimate_tree::estimate_app::EstimateApp;
use estimate_tree::task::Task;

fn sample() -> EstimateApp {
    let mut a = Task::new("A", "first", 1);
    a.children.push(Task::new("A1", "first child", 2));
    a.children.push(Task::new("A2", "second child", 3));
    let b = Task::new("B", "second", 4);
    EstimateApp { tasks: vec![a, b] }
}

fn three() -> EstimateApp {
    EstimateApp { tasks: vec![Task::new("X", "x", 0), Task::new("Y", "y", 0), Task::new("Z", "z", 0)] }
}

fn deep() -> EstimateApp {
    let mut c = Task::new("c", "c", 3);
    c.children.push(Task::new("d", "d", 4));
    let mut b = Task::new("b", "b", 2);
    b.children.push(c);
    b.children.push(Task::new("e", "e", 5));
    let mut a = Task::new("a", "a", 1);
    a.children.push(b);
    EstimateApp { tasks: vec![a, Task::new("f", "f", 6)] }
}

fn ids(app: &EstimateApp) -> Vec<String> {
    app.flatten_tasks().iter().map(|t| t.id.clone()).collect()
}

#[test]
fn flatten_visits_each_root_before_its_children() {
    assert_eq!(ids(&sample()), vec!["A", "A1", "A2", "B"]);
}

#[test]
fn flatten_goes_depth_first() {
    assert_eq!(ids(&deep()), vec!["a", "b", "c", "d", "e", "f"]);
}

#[test]
fn flatten_of_an_empty_tree_is_empty() {
    let app = EstimateApp::default();
    assert!(app.flatten_tasks().is_empty());
}

#[test]
fn flatten_task_recursive_appends_behind_what_is_there() {
    let app = sample();
    let other = Task::new("first", "kept", 0);
    let mut flat: Vec<&Task> = vec![&other];
    EstimateApp::flatten_task_recursive(&app.tasks[0], &mut flat);
    let got: Vec<&str> = flat.iter().map(|t| t.id.as_str()).collect();
    assert_eq!(got, vec!["first", "A", "A1", "A2"]);
}

#[test]
fn next_goes_on_and_wraps_to_the_first() {
    let app = three();
    assert_eq!(app.next_task_id(Some("X")), Some("Y".to_string()));
    assert_eq!(app.next_task_id(Some("Y")), Some("Z".to_string()));
    assert_eq!(app.next_task_id(Some("Z")), Some("X".to_string()));
}

#[test]
fn previous_goes_back_and_wraps_to_the_last() {
    let app = three();
    assert_eq!(app.previous_task_id(Some("X")), Some("Z".to_string()));
    assert_eq!(app.previous_task_id(Some("Y")), Some("X".to_string()));
    assert_eq!(app.previous_task_id(Some("Z")), Some("Y".to_string()));
}

#[test]
fn without_a_current_task_both_directions_give_the_first() {
    let app = three();
    assert_eq!(app.next_task_id(None), Some("X".to_string()));
    assert_eq!(app.previous_task_id(None), Some("X".to_string()));
}

#[test]
fn an_unknown_current_task_gives_the_first() {
    let app = three();
    assert_eq!(app.next_task_id(Some("nowhere")), Some("X".to_string()));
    assert_eq!(app.previous_task_id(Some("nowhere")), Some("X".to_string()));
}

#[test]
fn navigation_on_an_empty_tree_gives_nothing() {
    let app = EstimateApp::default();
    assert_eq!(app.next_task_id(None), None);
    assert_eq!(app.next_task_id(Some("X")), None);
    assert_eq!(app.previous_task_id(None), None);
    assert_eq!(app.previous_task_id(Some("X")), None);
}

#[test]
fn navigation_enters_and_leaves_subtrees() {
    let app = sample();
    assert_eq!(app.next_task_id(Some("A")), Some("A1".to_string()));
    assert_eq!(app.next_task_id(Some("A2")), Some("B".to_string()));
    assert_eq!(app.next_task_id(Some("B")), Some("A".to_string()));
    assert_eq!(app.previous_task_id(Some("B")), Some("A2".to_string()));
    assert_eq!(app.previous_task_id(Some("A")), Some("B".to_string()));
}

#[test]
fn a_single_task_is_its_own_neighbour() {
    let app = EstimateApp { tasks: vec![Task::new("only", "o", 0)] };
    assert_eq!(app.next_task_id(Some("only")), Some("only".to_string()));
    assert_eq!(app.previous_task_id(Some("only")), Some("only".to_string()));
}

#[test]
fn next_then_previous_returns_to_the_start() {
    let app = deep();
    for id in ["a", "b", "c", "d", "e", "f"] {
        let on = app.next_task_id(Some(id)).unwrap();
        assert_eq!(app.previous_task_id(Some(on.as_str())), Some(id.to_string()));
        let back = app.previous_task_id(Some(id)).unwrap();
        assert_eq!(app.next_task_id(Some(back.as_str())), Some(id.to_string()));
    }
}

#[test]
fn navigation_from_a_repeated_identifier_starts_at_its_first_place() {
    let app = EstimateApp {
        tasks: vec![Task::new("X", "1", 0), Task::new("Y", "2", 0), Task::new("X", "3", 0), Task::new("Z", "4", 0)],
    };
    assert_eq!(app.next_task_id(Some("X")), Some("Y".to_string()));
    assert_eq!(app.previous_task_id(Some("X")), Some("Z".to_string()));
}

#[test]
fn find_reaches_roots_and_nested_tasks() {
    let app = deep();
    assert_eq!(app.find_task("a").unwrap().estimate, 1);
    assert_eq!(app.find_task("d").unwrap().estimate, 4);
    assert_eq!(app.find_task("e").unwrap().estimate, 5);
    assert_eq!(app.find_task("f").unwrap().estimate, 6);
    assert!(app.find_task("g").is_none());
    assert!(app.find_task("").is_none());
}

#[test]
fn find_returns_the_first_match_in_pre_order() {
    let mut a = Task::new("a", "a", 0);
    a.children.push(Task::new("dup", "nested", 1));
    let app = EstimateApp { tasks: vec![a, Task::new("dup", "root", 2)] };
    assert_eq!(app.find_task("dup").unwrap().name, "nested");
}

#[test]
fn find_task_recursive_searches_below_the_task_only() {
    let app = deep();
    let a = &app.tasks[0];
    assert!(EstimateApp::find_task_recursive(a, "a").is_none());
    assert_eq!(EstimateApp::find_task_recursive(a, "d").unwrap().estimate, 4);
    assert!(EstimateApp::find_task_recursive(a, "f").is_none());
}

#[test]
fn find_mut_changes_the_task_in_the_tree() {
    let mut app = deep();
    app.find_mut_task("d").unwrap().estimate = 40;
    app.find_mut_task("f").unwrap().name = "renamed".to_string();
    assert_eq!(app.tasks[0].children[0].children[0].children[0].estimate, 40);
    assert_eq!(app.tasks[1].name, "renamed");
    assert_eq!(ids(&app), vec!["a", "b", "c", "d", "e", "f"]);
    assert!(app.find_mut_task("g").is_none());
}

#[test]
fn find_mut_returns_the_first_match_in_pre_order() {
    let mut a = Task::new("a", "a", 0);
    a.children.push(Task::new("dup", "nested", 1));
    let mut app = EstimateApp { tasks: vec![a, Task::new("dup", "root", 2)] };
    app.find_mut_task("dup").unwrap().estimate = 9;
    assert_eq!(app.tasks[0].children[0].estimate, 9);
    assert_eq!(app.tasks[1].estimate, 2);
}

#[test]
fn find_mut_task_recursive_searches_below_the_task_only() {
    let mut app = deep();
    let a = &mut app.tasks[0];
    assert!(EstimateApp::find_mut_task_recursive(a, "a").is_none());
    EstimateApp::find_mut_task_recursive(a, "e").unwrap().estimate = 50;
    assert_eq!(app.tasks[0].children[0].children[1].estimate, 50);
}
