//! A todo store with many-to-many labels.
//!
//! The heart of the library is the row-folding engine (`fold`), which turns the
//! flat rows of a todo/label outer join back into nested entities, and the
//! in-memory stores (`label_store`, `todo_store`), which keep todos, labels and
//! the join table between them and read todos back through that engine.

pub mod error;
pub mod validate;
pub mod label;
pub mod todo;
pub mod fold;
pub mod label_store;
pub mod todo_store;

pub use error::{RepositoryError, ValidationError};
pub use fold::{entity_from_rows, flatten_entity, fold_to_entities};
pub use label::{CreateLabel, Label, LabelView};
pub use label_store::{LabelRepository, LabelRepositoryForMemory, LabelStoreModel};
pub use todo::{CreateTodo, RowView, Todo, TodoEntity, TodoView, TodoWithLabelRow, UpdateTodo};
pub use todo_store::{TodoLabel, TodoRepository, TodoRepositoryMemory, TodoStoreModel};
