//! Task-tree engine: groups holding forests of tasks and subtasks.
//!
//! - `task`: the task node and the mathematical model of a forest (sizes, dense pre-order
//!   numbering, parent links, and the relations that describe each change).
//! - `forest_lemmas`: proofs about that model.
//! - `group`: a named group and the operations on its forest (add, add under a parent,
//!   remove with renumbering, rename, completion cascade, folding, lookup by id).
//! - `store`: the list of groups, the selection cursor, the fold index and navigation, and
//!   the integrity check.
//! - `history`: snapshot-based undo and redo.
//! - `layout`: the panes' input state.
//! - `laws`: properties relating the operations to each other.

pub mod task;
pub mod forest_lemmas;
pub mod group;
pub mod store;
pub mod laws;
pub mod history;
pub mod layout;
