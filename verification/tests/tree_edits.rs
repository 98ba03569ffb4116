use estimate_tree::estimate_app::EstimateApp;
use estimate_tree::task::Task;

fn ids(app: &EstimateApp) -> Vec<String> {
    app.flatten_tasks().iter().map(|t| t.id.clone()).collect()
}

#[test]
fn default_tree_is_empty() {
    let app = EstimateApp::default();
    assert!(app.get_tasks().is_empty());
}

#[test]
fn add_task_numbers_roots_by_their_count() {
    let mut app = EstimateApp::default();
    assert_eq!(app.add_task("one"), "task-0");
    assert_eq!(app.add_task("two"), "task-1");
    assert_eq!(app.add_task("three"), "task-2");
    let tasks = app.get_tasks();
    assert_eq!(tasks.len(), 3);
    assert_eq!(tasks[1].id, "task-1");
    assert_eq!(tasks[1].name, "two");
    assert_eq!(tasks[1].estimate, 0);
    assert!(tasks[1].children.is_empty());
}

#[test]
fn add_task_after_the_sample_roots_is_number_seven() {
    let mut app = EstimateApp::new();
    assert_eq!(app.add_task("more"), "task-7");
    assert_eq!(app.get_tasks().len(), 8);
    assert_eq!(app.get_tasks()[7].name, "more");
}

#[test]
fn add_child_reaches_a_nested_parent() {
    let mut app = EstimateApp::default();
    app.add_task("root");
    assert_eq!(app.add_child("task-0", "child", 5), Some("task-0-0".to_string()));
    assert_eq!(app.add_child("task-0-0", "grandchild", 6), Some("task-0-0-0".to_string()));
    assert_eq!(app.add_child("task-0", "second", 7), Some("task-0-1".to_string()));
    assert_eq!(ids(&app), vec!["task-0", "task-0-0", "task-0-0-0", "task-0-1"]);
    let grandchild = app.find_task("task-0-0-0").unwrap();
    assert_eq!(grandchild.name, "grandchild");
    assert_eq!(grandchild.estimate, 6);
}

#[test]
fn add_child_to_an_unknown_parent_changes_nothing() {
    let mut app = EstimateApp::default();
    app.add_task("root");
    assert_eq!(app.add_child("task-9", "child", 5), None);
    assert_eq!(ids(&app), vec!["task-0"]);
    assert!(app.get_tasks()[0].children.is_empty());
}

#[test]
fn set_estimate_overwrites_the_estimate_only() {
    let mut app = EstimateApp::default();
    app.add_task("root");
    app.add_child("task-0", "child", 5);
    app.set_estimate("task-0-0", -12);
    let child = app.find_task("task-0-0").unwrap();
    assert_eq!(child.estimate, -12);
    assert_eq!(child.name, "child");
    assert_eq!(app.find_task("task-0").unwrap().estimate, 0);
}

#[test]
fn set_estimate_of_an_unknown_task_changes_nothing() {
    let mut app = EstimateApp::default();
    app.add_task("root");
    app.set_estimate("task-3", 8);
    assert_eq!(app.get_tasks().len(), 1);
    assert_eq!(app.get_tasks()[0].estimate, 0);
}

#[test]
fn get_tasks_mut_gives_the_roots_for_change() {
    let mut app = EstimateApp::default();
    app.get_tasks_mut().push(Task::new("a", "pushed", 3));
    assert_eq!(app.get_tasks().len(), 1);
    assert_eq!(app.get_tasks()[0].id, "a");
}

#[test]
fn sample_tree_has_seven_roots_two_of_them_with_children() {
    let app = EstimateApp::new();
    let tasks = app.get_tasks();
    assert_eq!(tasks.len(), 7);
    for (i, t) in tasks.iter().enumerate() {
        assert_eq!(t.id, format!("task-{}", i));
        assert_eq!(t.name, format!("Example task {}", i));
        assert_eq!(t.estimate, 16);
        if i == 0 || i == 3 {
            assert_eq!(t.children.len(), 3);
            for (k, c) in t.children.iter().enumerate() {
                assert_eq!(c.id, format!("task-{}-{}", i, k + 1));
                assert_eq!(c.name, format!("Example Task {} {}", i, k + 1));
                assert_eq!(c.estimate, 4);
                assert!(c.children.is_empty());
            }
        } else {
            assert!(t.children.is_empty());
        }
    }
}

#[test]
fn sample_task_takes_any_number() {
    let t = EstimateApp::get_example_task(-12);
    assert_eq!(t.id, "task--12");
    assert_eq!(t.name, "Example task -12");
    assert!(t.children.is_empty());
    let t = EstimateApp::get_example_task(3);
    assert_eq!(t.children[2].id, "task-3-3");
    assert_eq!(t.children[2].name, "Example Task 3 3");
}

#[test]
fn sample_roots_are_those_of_the_sample_tree() {
    let roots = EstimateApp::get_example_tasks();
    assert_eq!(roots.len(), 7);
    assert_eq!(roots[6].id, "task-6");
}

#[test]
fn adding_a_child_to_a_sample_root_avoids_its_children() {
    let mut app = EstimateApp::new();
    // task-0 has the children task-0-1, task-0-2, task-0-3: the first
    // candidate, task-0-3, is taken.
    assert_eq!(app.add_child("task-0", "new", 1), Some("task-0-4".to_string()));
    // task-1 has none.
    assert_eq!(app.add_child("task-1", "new", 1), Some("task-1-0".to_string()));
}

#[test]
fn clone_of_a_tree_is_the_same_tree() {
    let app = EstimateApp::new();
    let copy = app.clone();
    assert_eq!(ids(&copy), ids(&app));
    assert_eq!(copy.get_tasks()[3].children[1].name, "Example Task 3 2");
}

#[test]
fn a_tree_grown_by_edits_has_no_identifier_twice() {
    let mut app = EstimateApp::new();
    for round in 0..4 {
        app.add_task("root");
        let known = ids(&app);
        for (k, id) in known.iter().enumerate() {
            if (k + round) % 3 == 0 {
                app.add_child(id, "child", k as i32);
            }
        }
    }
    let all = ids(&app);
    assert!(all.len() > 40);
    for i in 0..all.len() {
        for j in (i + 1)..all.len() {
            assert_ne!(all[i], all[j]);
        }
    }
    let flat = app.flatten_tasks();
    for task in flat.iter() {
        let found = app.find_task(task.id.as_str()).unwrap();
        assert_eq!(found.name, task.name);
        assert_eq!(found.estimate, task.estimate);
        assert_eq!(found.children.len(), task.children.len());
    }
}

#[test]
fn navigation_passes_every_task_of_a_grown_tree_once() {
    let mut app = EstimateApp::default();
    app.add_task("a");
    app.add_task("b");
    app.add_child("task-0", "a0", 1);
    app.add_child("task-0", "a1", 1);
    app.add_child("task-0-1", "a10", 1);
    app.add_child("task-1", "b0", 1);
    let order = ids(&app);
    let mut current: Option<String> = None;
    let mut seen: Vec<String> = Vec::new();
    for _ in 0..order.len() {
        current = app.next_task_id(current.as_deref());
        seen.push(current.clone().unwrap());
    }
    assert_eq!(seen, order);
    assert_eq!(app.next_task_id(current.as_deref()), Some(order[0].clone()));
}
