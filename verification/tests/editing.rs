use estimate_tree::editor::Editor;
use estimate_tree::editor::InputEvent;
use estimate_tree::editor::InputFieldAction;
use estimate_tree::estimate_app::EstimateApp;
use estimate_tree::task::Task;

fn small() -> Editor {
    let mut a = Task::new("a", "first", 5);
    a.children.push(Task::new("a-0", "child", 7));
    Editor::new(EstimateApp { tasks: vec![a, Task::new("b", "second", -2)] })
}

fn ids(editor: &Editor) -> Vec<String> {
    editor.estimate_app.flatten_tasks().iter().map(|t| t.id.clone()).collect()
}

#[test]
fn a_new_editor_selects_nothing_and_hides_the_field() {
    let editor = small();
    assert_eq!(editor.selected_task_id, None);
    assert_eq!(editor.selected(), None);
    assert_eq!(editor.input_field_state, InputFieldAction::Hide);
    assert_eq!(editor.input_field_text, "");
}

#[test]
fn select_next_walks_the_pre_order_and_wraps() {
    let mut editor = small();
    editor.handle(InputEvent::SelectNext);
    assert_eq!(editor.selected(), Some("a"));
    editor.handle(InputEvent::SelectNext);
    assert_eq!(editor.selected(), Some("a-0"));
    editor.handle(InputEvent::SelectNext);
    assert_eq!(editor.selected(), Some("b"));
    editor.handle(InputEvent::SelectNext);
    assert_eq!(editor.selected(), Some("a"));
}

#[test]
fn select_previous_without_selection_takes_the_first() {
    let mut editor = small();
    editor.handle(InputEvent::SelectPrevious);
    assert_eq!(editor.selected(), Some("a"));
    editor.handle(InputEvent::SelectPrevious);
    assert_eq!(editor.selected(), Some("b"));
    editor.handle(InputEvent::SelectPrevious);
    assert_eq!(editor.selected(), Some("a-0"));
}

#[test]
fn selection_on_an_empty_tree_stays_empty() {
    let mut editor = Editor::new(EstimateApp::default());
    editor.handle(InputEvent::SelectNext);
    assert_eq!(editor.selected(), None);
    editor.handle(InputEvent::SelectPrevious);
    assert_eq!(editor.selected(), None);
}

#[test]
fn cancel_with_the_field_closed_drops_the_selection() {
    let mut editor = small();
    editor.handle(InputEvent::SelectNext);
    editor.handle(InputEvent::Cancel);
    assert_eq!(editor.selected(), None);
    assert_eq!(editor.input_field_state, InputFieldAction::Hide);
}

#[test]
fn cancel_with_the_field_open_closes_it_and_keeps_the_selection() {
    let mut editor = small();
    editor.handle(InputEvent::SelectNext);
    editor.handle(InputEvent::Create);
    assert_eq!(editor.input_field_state, InputFieldAction::CreateTask);
    editor.handle(InputEvent::Cancel);
    assert_eq!(editor.input_field_state, InputFieldAction::Hide);
    assert_eq!(editor.selected(), Some("a"));
    assert_eq!(ids(&editor), vec!["a", "a-0", "b"]);
}

#[test]
fn create_opens_an_empty_field() {
    let mut editor = small();
    editor.input_field_text = "left over".to_string();
    editor.handle(InputEvent::Create);
    assert_eq!(editor.input_field_state, InputFieldAction::CreateTask);
    assert_eq!(editor.input_field_text, "");
}

#[test]
fn create_is_ignored_while_the_field_is_open() {
    let mut editor = small();
    editor.handle(InputEvent::SelectNext);
    editor.handle(InputEvent::Confirm);
    assert_eq!(editor.input_field_state, InputFieldAction::EditEstimate);
    assert_eq!(editor.input_field_text, "5");
    editor.handle(InputEvent::Create);
    assert_eq!(editor.input_field_state, InputFieldAction::EditEstimate);
    assert_eq!(editor.input_field_text, "5");
}

#[test]
fn navigation_is_ignored_while_the_field_is_open() {
    let mut editor = small();
    editor.handle(InputEvent::SelectNext);
    editor.handle(InputEvent::Create);
    editor.handle(InputEvent::SelectNext);
    assert_eq!(editor.selected(), Some("a"));
    editor.handle(InputEvent::SelectPrevious);
    assert_eq!(editor.selected(), Some("a"));
}

#[test]
fn confirm_creates_a_root_when_nothing_is_selected() {
    let mut editor = small();
    editor.handle(InputEvent::Create);
    editor.input_field_text = "third".to_string();
    editor.handle(InputEvent::Confirm);
    assert_eq!(editor.input_field_state, InputFieldAction::Hide);
    assert_eq!(editor.selected(), Some("task-2"));
    assert_eq!(ids(&editor), vec!["a", "a-0", "b", "task-2"]);
    let made = editor.estimate_app.find_task("task-2").unwrap();
    assert_eq!(made.name, "third");
    assert_eq!(made.estimate, 0);
}

#[test]
fn confirm_creates_a_child_of_the_selected_task() {
    let mut editor = small();
    editor.handle(InputEvent::SelectNext);
    editor.handle(InputEvent::Create);
    editor.input_field_text = "another".to_string();
    editor.handle(InputEvent::Confirm);
    assert_eq!(editor.input_field_state, InputFieldAction::Hide);
    assert_eq!(editor.selected(), Some("a-1"));
    assert_eq!(ids(&editor), vec!["a", "a-0", "a-1", "b"]);
    let made = editor.estimate_app.find_task("a-1").unwrap();
    assert_eq!(made.name, "another");
    assert_eq!(made.estimate, 0);
}

#[test]
fn confirm_with_a_stale_selection_creates_nothing() {
    let mut editor = small();
    editor.selected_task_id = Some("gone".to_string());
    editor.handle(InputEvent::Create);
    editor.input_field_text = "lost".to_string();
    editor.handle(InputEvent::Confirm);
    assert_eq!(editor.input_field_state, InputFieldAction::Hide);
    assert_eq!(editor.selected(), Some("gone"));
    assert_eq!(ids(&editor), vec!["a", "a-0", "b"]);
}

#[test]
fn confirm_with_the_field_closed_opens_it_on_the_estimate() {
    let mut editor = small();
    editor.selected_task_id = Some("b".to_string());
    editor.handle(InputEvent::Confirm);
    assert_eq!(editor.input_field_state, InputFieldAction::EditEstimate);
    assert_eq!(editor.input_field_text, "-2");
}

#[test]
fn confirm_with_the_field_closed_and_no_selection_does_nothing() {
    let mut editor = small();
    editor.input_field_text = "kept".to_string();
    editor.handle(InputEvent::Confirm);
    assert_eq!(editor.input_field_state, InputFieldAction::Hide);
    assert_eq!(editor.input_field_text, "kept");
    editor.selected_task_id = Some("gone".to_string());
    editor.handle(InputEvent::Confirm);
    assert_eq!(editor.input_field_state, InputFieldAction::Hide);
    assert_eq!(editor.input_field_text, "kept");
}

#[test]
fn confirm_stores_the_typed_estimate() {
    let mut editor = small();
    editor.selected_task_id = Some("a-0".to_string());
    editor.handle(InputEvent::Confirm);
    editor.input_field_text = "42".to_string();
    editor.handle(InputEvent::Confirm);
    assert_eq!(editor.input_field_state, InputFieldAction::Hide);
    assert_eq!(editor.estimate_app.find_task("a-0").unwrap().estimate, 42);
    assert_eq!(editor.selected(), Some("a-0"));
}

#[test]
fn text_that_is_no_number_stores_zero() {
    let mut editor = small();
    editor.selected_task_id = Some("a".to_string());
    editor.handle(InputEvent::Confirm);
    editor.input_field_text = "a lot".to_string();
    editor.handle(InputEvent::Confirm);
    assert_eq!(editor.estimate_app.find_task("a").unwrap().estimate, 0);
    assert_eq!(editor.input_field_state, InputFieldAction::Hide);
}

#[test]
fn an_unchanged_estimate_text_keeps_the_estimate() {
    let mut editor = small();
    editor.selected_task_id = Some("b".to_string());
    editor.handle(InputEvent::Confirm);
    editor.handle(InputEvent::Confirm);
    assert_eq!(editor.estimate_app.find_task("b").unwrap().estimate, -2);
}

#[test]
fn deselect_drops_the_selection_in_any_state() {
    let mut editor = small();
    editor.handle(InputEvent::SelectNext);
    editor.handle(InputEvent::Create);
    editor.handle(InputEvent::Deselect);
    assert_eq!(editor.selected(), None);
    assert_eq!(editor.input_field_state, InputFieldAction::CreateTask);
}

#[test]
fn dismiss_closes_the_field_without_applying_it() {
    let mut editor = small();
    editor.handle(InputEvent::Create);
    editor.input_field_text = "never made".to_string();
    editor.handle(InputEvent::Dismiss);
    assert_eq!(editor.input_field_state, InputFieldAction::Hide);
    assert_eq!(editor.input_field_text, "never made");
    assert_eq!(ids(&editor), vec!["a", "a-0", "b"]);
}
