//! A to-do list kept as a tree of groups and tasks.
//!
//! Every node is addressed by the position at which a depth-first walk,
//! children in order, reaches it; the root has position 0. The executable
//! type is [`TodoList`]; its mathematical value is a [`Tree`], and every
//! contract in this crate is stated over that value.
//!
//! - [`tree`]: the value of a list, and what holds of walks, replacement,
//!   marking and listings.
//! - [`todo_list`]: the list itself: adding, addressing, marking, listing.
//! - [`document`]: the stored form of a list, written and read back.
//! - [`command`]: the requests of a user, and a whole session.
//! - [`text`]: numbers and blanks as text.
//! - [`error`]: what can go wrong.

pub mod command;
pub mod document;
pub mod error;
pub mod text;
pub mod todo_list;
pub mod tree;

pub use command::{run, AddCommand, Command, MarkCommand, Outcome};
pub use document::{Document, Field};
pub use error::{Malformation, TodoError};
pub use todo_list::TodoList;
pub use tree::Tree;
