//! Estimation tasks as a tree: identifiers, lookup, navigation in
//! pre-order, subtree sums, the editing state, the plan from which the
//! radial diagram is laid out, and the tree as rows for storage.

pub mod aggregate;
pub mod editor;
pub mod edits;
pub mod estimate_app;
pub mod forest;
pub mod layout;
pub mod numbering;
pub mod rows;
pub mod task;
pub mod text;

pub use editor::Editor;
pub use editor::InputEvent;
pub use editor::InputFieldAction;
pub use estimate_app::EstimateApp;
pub use layout::LayoutNode;
pub use rows::TaskRow;
pub use task::Task;
