//! The editing state and what each input event does to it.
//!
//! The host polls keys and pointer and hands over one event at a time; the
//! editor decides what changes: the selection, the text field, the tree.

use vstd::prelude::*;

use crate::estimate_app::id_view;
use crate::estimate_app::root_id;
use crate::estimate_app::string_view;
use crate::estimate_app::with_child_of;
use crate::estimate_app::with_estimate;
use crate::estimate_app::EstimateApp;
use crate::edits::lemma_replace_by_itself;
use crate::forest::estimates_fit;
use crate::forest::find;
use crate::forest::flatten_forest;
use crate::forest::lemma_position;
use crate::forest::next_id;
use crate::forest::position;
use crate::forest::previous_id;
use crate::numbering::lemma_add_child_keeps_well_formed;
use crate::numbering::lemma_add_task_keeps_well_formed;
use crate::numbering::lemma_set_estimate_keeps_well_formed;
use crate::numbering::well_formed;
use crate::task::leaf;
use crate::task::next_child_id;
use crate::task::TaskView;
use crate::text::estimate_of_text;
use crate::text::i32_to_string;
use crate::text::lemma_signed_decimal_parses;
use crate::text::parse_estimate;
use crate::text::signed_decimal;

verus! {

/// What the text field is open for, if it is open.
#[derive(Clone, Copy, Debug, PartialEq, Eq, Structural)]
pub enum InputFieldAction {
    /// The text field is closed.
    Hide,
    /// The text is the name of a task to create.
    CreateTask,
    /// The text is the new estimate of the selected task.
    EditEstimate,
}

/// A discrete input signal.
#[derive(Clone, Copy, Debug, PartialEq, Eq, Structural)]
pub enum InputEvent {
    /// Open the text field for a new task: a child of the selected task,
    /// or a root where none is selected.
    Create,
    /// Close the text field; with the field closed, drop the selection.
    Cancel,
    /// Move the selection one task back in pre-order.
    SelectPrevious,
    /// Move the selection one task on in pre-order.
    SelectNext,
    /// Apply the text field; with the field closed, open it on the
    /// estimate of the selected task.
    Confirm,
    /// Drop the selection: a click on the empty canvas.
    Deselect,
    /// Close the text field without applying it.
    Dismiss,
}

/// The editing state: the tree, the selected task, the text field.
#[derive(Debug)]
pub struct Editor {
    pub estimate_app: EstimateApp,
    /// The identifier of the selected task. It may name no task of the
    /// tree; every use looks it up.
    pub selected_task_id: Option<String>,
    pub input_field_state: InputFieldAction,
    pub input_field_text: String,
}

/// The mathematical value of an editing state.
pub struct EditorView {
    pub tasks: Seq<TaskView>,
    pub selected: Option<Seq<char>>,
    pub state: InputFieldAction,
    pub text: Seq<char>,
}

impl View for Editor {
    type V = EditorView;

    open spec fn view(&self) -> EditorView {
        EditorView {
            tasks: self.estimate_app@,
            selected: string_view(self.selected_task_id),
            state: self.input_field_state,
            text: self.input_field_text@,
        }
    }
}

/// The state after `Confirm` with the text field closed: the field opens
/// on the estimate of the selected task, if there is one.
pub open spec fn begin_edit(s: EditorView) -> EditorView {
    match s.selected {
        Some(id) => match find(s.tasks, id) {
            Some(t) => EditorView {
                tasks: s.tasks,
                selected: s.selected,
                state: InputFieldAction::EditEstimate,
                text: signed_decimal(t.estimate),
            },
            None => s,
        },
        None => s,
    }
}

/// The state after `Confirm` on a task name: the new task is a child of
/// the selected task, or a root where none is selected, and becomes the
/// selection. A selection that names no task creates nothing.
pub open spec fn commit_create(s: EditorView) -> EditorView {
    match s.selected {
        Some(id) => match find(s.tasks, id) {
            Some(parent) => EditorView {
                tasks: with_child_of(s.tasks, id, s.text, 0),
                selected: Some(next_child_id(parent)),
                state: InputFieldAction::Hide,
                text: s.text,
            },
            None => EditorView {
                tasks: s.tasks,
                selected: s.selected,
                state: InputFieldAction::Hide,
                text: s.text,
            },
        },
        None => EditorView {
            tasks: s.tasks.push(leaf(root_id(s.tasks.len() as int), s.text, 0)),
            selected: Some(root_id(s.tasks.len() as int)),
            state: InputFieldAction::Hide,
            text: s.text,
        },
    }
}

/// The state after `Confirm` on an estimate: the selected task gets the
/// estimate that the text stands for, zero where it is no number.
pub open spec fn commit_estimate(s: EditorView) -> EditorView {
    EditorView {
        tasks: match s.selected {
            Some(id) => with_estimate(s.tasks, id, estimate_of_text(s.text)),
            None => s.tasks,
        },
        selected: s.selected,
        state: InputFieldAction::Hide,
        text: s.text,
    }
}

/// The state that follows `s` on the event `e`.
pub open spec fn step(s: EditorView, e: InputEvent) -> EditorView {
    match e {
        InputEvent::Create => if s.state == InputFieldAction::Hide {
            EditorView {
                tasks: s.tasks,
                selected: s.selected,
                state: InputFieldAction::CreateTask,
                text: Seq::empty(),
            }
        } else {
            s
        },
        InputEvent::Cancel => if s.state == InputFieldAction::Hide {
            EditorView { tasks: s.tasks, selected: None, state: s.state, text: s.text }
        } else {
            EditorView {
                tasks: s.tasks,
                selected: s.selected,
                state: InputFieldAction::Hide,
                text: s.text,
            }
        },
        InputEvent::SelectPrevious => if s.state == InputFieldAction::Hide {
            EditorView {
                tasks: s.tasks,
                selected: previous_id(s.tasks, s.selected),
                state: s.state,
                text: s.text,
            }
        } else {
            s
        },
        InputEvent::SelectNext => if s.state == InputFieldAction::Hide {
            EditorView {
                tasks: s.tasks,
                selected: next_id(s.tasks, s.selected),
                state: s.state,
                text: s.text,
            }
        } else {
            s
        },
        InputEvent::Confirm => match s.state {
            InputFieldAction::Hide => begin_edit(s),
            InputFieldAction::CreateTask => commit_create(s),
            InputFieldAction::EditEstimate => commit_estimate(s),
        },
        InputEvent::Deselect => EditorView {
            tasks: s.tasks,
            selected: None,
            state: s.state,
            text: s.text,
        },
        InputEvent::Dismiss => EditorView {
            tasks: s.tasks,
            selected: s.selected,
            state: InputFieldAction::Hide,
            text: s.text,
        },
    }
}

/// Opening the text field on the estimate of the selected task and
/// confirming the text as it stands changes nothing: the tree and the
/// selection are as before, and the field is closed again.
pub proof fn lemma_confirm_unchanged_estimate(s: EditorView)
    requires
        s.state == InputFieldAction::Hide,
        estimates_fit(s.tasks),
    ensures
        step(step(s, InputEvent::Confirm), InputEvent::Confirm).tasks == s.tasks,
        step(step(s, InputEvent::Confirm), InputEvent::Confirm).selected == s.selected,
        step(step(s, InputEvent::Confirm), InputEvent::Confirm).state == InputFieldAction::Hide,
{
    match s.selected {
        Some(id) => {
            let flat = flatten_forest(s.tasks);
            lemma_position(flat, id);
            match position(flat, id) {
                Some(i) => {
                    let t = flat[i];
                    assert(i32::MIN <= t.estimate <= i32::MAX);
                    lemma_signed_decimal_parses(t.estimate);
                    lemma_replace_by_itself(s.tasks, i);
                    assert(t == (TaskView {
                        id: t.id,
                        name: t.name,
                        estimate: t.estimate,
                        children: t.children,
                    }));
                },
                None => {},
            }
        },
        None => {},
    }
}

/// No event takes a well-formed tree to one that is not: whatever the
/// user does, the tree keeps one task for each identifier.
pub proof fn lemma_step_keeps_well_formed(s: EditorView, e: InputEvent)
    requires
        well_formed(s.tasks),
    ensures
        well_formed(step(s, e).tasks),
{
    match s.selected {
        Some(id) => {
            lemma_add_child_keeps_well_formed(s.tasks, id, s.text, 0);
            lemma_set_estimate_keeps_well_formed(s.tasks, id, estimate_of_text(s.text));
        },
        None => {
            lemma_add_task_keeps_well_formed(s.tasks, s.text);
        },
    }
}

impl Editor {
    /// The editing state at start: the given tree, nothing selected, the
    /// text field closed and empty.
    pub fn new(estimate_app: EstimateApp) -> (r: Self)
        ensures
            r@ == (EditorView {
                tasks: estimate_app@,
                selected: None,
                state: InputFieldAction::Hide,
                text: Seq::empty(),
            }),
    {
        Editor {
            estimate_app,
            selected_task_id: None,
            input_field_state: InputFieldAction::Hide,
            input_field_text: String::new(),
        }
    }

    /// The identifier of the selected task, borrowed.
    pub fn selected(&self) -> (r: Option<&str>)
        ensures
            id_view(r) == self@.selected,
    {
        match &self.selected_task_id {
            Some(id) => Some(id.as_str()),
            None => None,
        }
    }

    /// Takes one input event and changes the state as `step` says.
    pub fn handle(&mut self, event: InputEvent)
        ensures
            final(self)@ == step(old(self)@, event),
            well_formed(old(self)@.tasks) ==> well_formed(final(self)@.tasks),
    {
        proof {
            if well_formed(self@.tasks) {
                lemma_step_keeps_well_formed(self@, event);
            }
        }
        match event {
            InputEvent::Create => {
                if let InputFieldAction::Hide = self.input_field_state {
                    self.input_field_state = InputFieldAction::CreateTask;
                    self.input_field_text = String::new();
                }
            },
            InputEvent::Cancel => {
                if let InputFieldAction::Hide = self.input_field_state {
                    self.selected_task_id = None;
                } else {
                    self.input_field_state = InputFieldAction::Hide;
                }
            },
            InputEvent::SelectPrevious => {
                if let InputFieldAction::Hide = self.input_field_state {
                    let id = self.estimate_app.previous_task_id(self.selected());
                    self.selected_task_id = id;
                }
            },
            InputEvent::SelectNext => {
                if let InputFieldAction::Hide = self.input_field_state {
                    let id = self.estimate_app.next_task_id(self.selected());
                    self.selected_task_id = id;
                }
            },
            InputEvent::Confirm => {
                match self.input_field_state {
                    InputFieldAction::Hide => self.begin_edit(),
                    InputFieldAction::CreateTask => self.commit_create(),
                    InputFieldAction::EditEstimate => self.commit_estimate(),
                }
            },
            InputEvent::Deselect => {
                self.selected_task_id = None;
            },
            InputEvent::Dismiss => {
                self.input_field_state = InputFieldAction::Hide;
            },
        }
    }

    /// Opens the text field on the estimate of the selected task.
    fn begin_edit(&mut self)
        ensures
            final(self)@ == begin_edit(old(self)@),
    {
        let estimate: Option<i32> = match &self.selected_task_id {
            Some(id) => match self.estimate_app.find_task(id.as_str()) {
                Some(task) => Some(task.estimate),
                None => None,
            },
            None => None,
        };
        if let Some(value) = estimate {
            self.input_field_text = i32_to_string(value);
            self.input_field_state = InputFieldAction::EditEstimate;
        }
    }

    /// Creates the task that the text field names and selects it.
    fn commit_create(&mut self)
        ensures
            final(self)@ == commit_create(old(self)@),
    {
        self.input_field_state = InputFieldAction::Hide;
        let created: Option<String> = match &self.selected_task_id {
            Some(id) => self.estimate_app.add_child(id.as_str(), self.input_field_text.as_str(), 0),
            None => Some(self.estimate_app.add_task(self.input_field_text.as_str())),
        };
        if let Some(id) = created {
            self.selected_task_id = Some(id);
        }
    }

    /// Gives the selected task the estimate that the text field holds.
    fn commit_estimate(&mut self)
        ensures
            final(self)@ == commit_estimate(old(self)@),
    {
        if let Some(id) = &self.selected_task_id {
            let value = parse_estimate(self.input_field_text.as_str());
            self.estimate_app.set_estimate(id.as_str(), value);
        }
        self.input_field_state = InputFieldAction::Hide;
    }
}

} // verus!
