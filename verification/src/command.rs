//! The requests that a user makes of a list, and what each does.

use crate::document::{decode, encode, Doc, Document};
use crate::error::TodoError;
use crate::todo_list::TodoList;
use crate::tree::Tree;
use vstd::prelude::*;

verus! {

/// Add a task labelled `text` below the node at position `index`.
#[derive(Debug, PartialEq, Eq)]
pub struct AddCommand {
    pub text: String,
    pub index: usize,
}

/// Set the flag of the node at position `index`, and of every task below
/// it, to `mark`.
#[derive(Debug, PartialEq, Eq)]
pub struct MarkCommand {
    pub index: usize,
    pub mark: bool,
}

/// A request on a list.
#[derive(Debug, PartialEq, Eq)]
pub enum Command {
    /// Add a task.
    Add(AddCommand),
    /// Mark or unmark a node.
    Mark(MarkCommand),
    /// Show the list.
    List,
}

impl Command {
    /// Whether `tree` has the position that the request names. A request
    /// to show the list names none.
    pub open spec fn fits(self, tree: Tree) -> bool {
        match self {
            Command::Add(add) => add.index < tree.size(),
            Command::Mark(mark) => mark.index < tree.size(),
            Command::List => true,
        }
    }

    /// The list after the request is carried out on `tree`.
    pub open spec fn applied(self, tree: Tree) -> Tree {
        match self {
            Command::Add(add) => tree.replace_at(
                add.index as nat,
                tree.preorder()[add.index as int].with_child(
                    Tree::Leaf { label: add.text@, done: false },
                ),
            ),
            Command::Mark(mark) => tree.replace_at(
                mark.index as nat,
                tree.preorder()[mark.index as int].marked(mark.mark),
            ),
            Command::List => tree,
        }
    }

    /// What the request shows of `tree`: the listing, for a request to show
    /// the list, else nothing.
    pub open spec fn shown(self, tree: Tree) -> Option<Seq<char>> {
        match self {
            Command::List => Some(tree.rendered()),
            _ => None,
        }
    }
}

/// The text of an optional string.
pub open spec fn text_of(shown: Option<String>) -> Option<Seq<char>> {
    match shown {
        Some(text) => Some(text@),
        None => None,
    }
}

/// The list that a session starts from: the one that the stored document
/// describes, or, where nothing is stored, a fresh list.
pub open spec fn loaded(stored: Option<Doc>) -> Result<Tree, TodoError> {
    match stored {
        Some(doc) => decode(doc),
        None => Ok(Tree::Group { label: "ToDo List"@, children: Seq::empty() }),
    }
}

impl TodoList {
    /// Carries out `command` on the list. A request that names a position
    /// which the list does not have fails and leaves the list as it is.
    /// What is to be shown to the user is returned.
    pub fn execute(&mut self, command: Command) -> (shown: Result<Option<String>, TodoError>)
        ensures
            match shown {
                Ok(text) => {
                    &&& command.fits(old(self)@)
                    &&& final(self)@ == command.applied(old(self)@)
                    &&& text_of(text) == command.shown(old(self)@)
                },
                Err(error) => {
                    &&& !command.fits(old(self)@)
                    &&& error == TodoError::OutOfRange
                    &&& *final(self) == *old(self)
                },
            },
    {
        match command {
            Command::Add(AddCommand { text, index }) => {
                match self.get_index(index) {
                    Ok(node) => {
                        node.add_item(TodoList::Item { mark: false, text });
                        Ok(None)
                    },
                    Err(error) => Err(error),
                }
            },
            Command::Mark(MarkCommand { index, mark }) => {
                match self.get_index(index) {
                    Ok(node) => {
                        node.mark(mark);
                        Ok(None)
                    },
                    Err(error) => Err(error),
                }
            },
            Command::List => Ok(Some(self.print())),
        }
    }

    /// The list that a session starts from: the one that `stored`
    /// describes, or a fresh list labelled `ToDo List` where nothing is
    /// stored. A stored document that describes no list is an error: it is
    /// never taken for an empty list.
    pub fn load(stored: Option<&Document>) -> (list: Result<TodoList, TodoError>)
        ensures
            match list {
                Ok(list) => loaded(doc_of(stored)) == Ok::<Tree, TodoError>(list@),
                Err(error) => loaded(doc_of(stored)) == Err::<Tree, TodoError>(error),
            },
    {
        match stored {
            Some(document) => TodoList::deserialize(document),
            None => Ok(TodoList::new("ToDo List".to_owned())),
        }
    }
}

/// The value of an optional document.
pub open spec fn doc_of(stored: Option<&Document>) -> Option<Doc> {
    match stored {
        Some(document) => Some(document@),
        None => None,
    }
}

/// What a session leaves behind: the document to store and what is to be
/// shown to the user.
#[derive(Debug, PartialEq, Eq)]
pub struct Outcome {
    pub document: Document,
    pub shown: Option<String>,
}

/// A whole session: loads the list from `stored`, carries out `command`
/// and writes the list to a document again.
pub fn run(stored: Option<&Document>, command: Command) -> (outcome: Result<Outcome, TodoError>)
    ensures
        match loaded(doc_of(stored)) {
            Ok(tree) => if command.fits(tree) {
                &&& outcome is Ok
                &&& outcome->Ok_0.document@ == encode(command.applied(tree))
                &&& text_of(outcome->Ok_0.shown) == command.shown(tree)
            } else {
                outcome == Err::<Outcome, TodoError>(TodoError::OutOfRange)
            },
            Err(error) => outcome == Err::<Outcome, TodoError>(error),
        },
{
    let mut list = match TodoList::load(stored) {
        Ok(list) => list,
        Err(error) => {
            return Err(error);
        },
    };
    match list.execute(command) {
        Ok(shown) => Ok(Outcome { document: list.serialize(), shown }),
        Err(error) => Err(error),
    }
}

} // verus!
