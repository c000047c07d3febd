//! What an operation on a list reports when it cannot do its work.

use vstd::prelude::*;

verus! {

/// What is wrong with a document that does not describe a list.
#[derive(Debug, Clone, Copy, PartialEq, Eq, Structural)]
pub enum Malformation {
    /// A node is not a record of exactly one field, the tag.
    Untagged,
    /// The tag of a node names neither a group nor a task.
    UnknownTag,
    /// What stands under the tag is not a record.
    BodyNotRecord,
    /// A node has no label.
    MissingLabel,
    /// The label of a node is not text.
    LabelNotText,
    /// A task has no completion flag.
    MissingFlag,
    /// The completion flag of a task is not a boolean.
    FlagNotBoolean,
    /// A group has no list of children.
    MissingChildren,
    /// The children of a group are not a list.
    ChildrenNotList,
}

/// The ways in which a request on a list fails.
#[derive(Debug, Clone, Copy, PartialEq, Eq, Structural)]
pub enum TodoError {
    /// The position named does not exist: it is at least the number of
    /// nodes of the list.
    OutOfRange,
    /// The document read does not describe a list.
    MalformedDocument(Malformation),
}

impl Malformation {
    /// The fault in words.
    pub open spec fn message(self) -> Seq<char> {
        match self {
            Malformation::Untagged => "a node must be a record of one field, its tag"@,
            Malformation::UnknownTag => "the tag of a node must be `Container` or `Item`"@,
            Malformation::BodyNotRecord => "under its tag a node must be a record"@,
            Malformation::MissingLabel => "a node must have a field `text`"@,
            Malformation::LabelNotText => "the field `text` of a node must be text"@,
            Malformation::MissingFlag => "a task must have a field `mark`"@,
            Malformation::FlagNotBoolean => "the field `mark` of a task must be a boolean"@,
            Malformation::MissingChildren => "a group must have a field `items`"@,
            Malformation::ChildrenNotList => "the field `items` of a group must be a list"@,
        }
    }

    /// The fault in words, for a person to read.
    pub fn describe(&self) -> (text: String)
        ensures
            text@ == self.message(),
    {
        let words = match self {
            Malformation::Untagged => "a node must be a record of one field, its tag",
            Malformation::UnknownTag => "the tag of a node must be `Container` or `Item`",
            Malformation::BodyNotRecord => "under its tag a node must be a record",
            Malformation::MissingLabel => "a node must have a field `text`",
            Malformation::LabelNotText => "the field `text` of a node must be text",
            Malformation::MissingFlag => "a task must have a field `mark`",
            Malformation::FlagNotBoolean => "the field `mark` of a task must be a boolean",
            Malformation::MissingChildren => "a group must have a field `items`",
            Malformation::ChildrenNotList => "the field `items` of a group must be a list",
        };
        words.to_owned()
    }
}

impl TodoError {
    /// The error in words.
    pub open spec fn message(self) -> Seq<char> {
        match self {
            TodoError::OutOfRange => "index out of range"@,
            TodoError::MalformedDocument(fault) => "malformed document: "@ + fault.message(),
        }
    }

    /// The error in words, for a person to read.
    pub fn describe(&self) -> (text: String)
        ensures
            text@ == self.message(),
    {
        match self {
            TodoError::OutOfRange => "index out of range".to_owned(),
            TodoError::MalformedDocument(fault) => {
                let mut text = "malformed document: ".to_owned();
                let words = fault.describe();
                text.append(words.as_str());
                text
            },
        }
    }
}

} // verus!
