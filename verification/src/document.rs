//! The stored form of a list: a structured document, and how a list is
//! written to one and read back.
//!
//! A group is the record `{"Container": {"items": [..], "text": ".."}}`, a
//! task the record `{"Item": {"mark": .., "text": ".."}}`.

use crate::error::{Malformation, TodoError};
use crate::todo_list::{lemma_view_container, views, TodoList};
use crate::tree::Tree;
use vstd::prelude::*;

verus! {

/// A named value of a record.
#[derive(Debug, PartialEq, Eq)]
pub struct Field {
    pub name: String,
    pub value: Document,
}

/// A structured document: a value as a store of documents or a file of
/// records holds it.
#[derive(Debug, PartialEq, Eq)]
pub enum Document {
    Null,
    Boolean(bool),
    /// A number, kept as it is written.
    Number(String),
    Text(String),
    List(Vec<Document>),
    /// Named values in order. Where a name occurs twice, the later one
    /// counts.
    Record(Vec<Field>),
}

/// The mathematical value of a document.
pub ghost enum Doc {
    Null,
    Boolean(bool),
    Number(Seq<char>),
    Text(Seq<char>),
    List(Seq<Doc>),
    Record(Seq<(Seq<char>, Doc)>),
}

impl Document {
    /// The value of the document.
    pub open spec fn doc(self) -> Doc
        decreases self,
    {
        match self {
            Document::Null => Doc::Null,
            Document::Boolean(b) => Doc::Boolean(b),
            Document::Number(digits) => Doc::Number(digits@),
            Document::Text(text) => Doc::Text(text@),
            Document::List(items) => Doc::List(
                Seq::new(
                    items@.len(),
                    |i: int|
                        if 0 <= i < items@.len() {
                            items@[i].doc()
                        } else {
                            arbitrary()
                        },
                ),
            ),
            Document::Record(fields) => Doc::Record(
                Seq::new(
                    fields@.len(),
                    |i: int|
                        if 0 <= i < fields@.len() {
                            (fields@[i].name@, fields@[i].value.doc())
                        } else {
                            arbitrary()
                        },
                ),
            ),
        }
    }
}

impl View for Document {
    type V = Doc;

    open spec fn view(&self) -> Doc {
        self.doc()
    }
}

/// The values of the documents of a vector, in order.
pub open spec fn docs(items: Seq<Document>) -> Seq<Doc> {
    Seq::new(items.len(), |i: int| items[i]@)
}

/// The names and values of the fields of a vector, in order.
pub open spec fn entries(fields: Seq<Field>) -> Seq<(Seq<char>, Doc)> {
    Seq::new(fields.len(), |i: int| (fields[i].name@, fields[i].value@))
}

/// The value of a list document is made of the values of its items.
pub proof fn lemma_view_list(document: Document)
    requires
        document is List,
    ensures
        document@ == Doc::List(docs(document->List_0@)),
{
    assert(document@->List_0 =~= docs(document->List_0@));
}

/// The value of a record is made of the names and values of its fields.
pub proof fn lemma_view_record(document: Document)
    requires
        document is Record,
    ensures
        document@ == Doc::Record(entries(document->Record_0@)),
{
    assert(document@->Record_0 =~= entries(document->Record_0@));
}

/// The value of the last field named `name`, if there is one.
pub open spec fn field(fields: Seq<(Seq<char>, Doc)>, name: Seq<char>) -> Option<Doc>
    decreases fields.len(),
{
    if fields.len() == 0 {
        None
    } else if fields.last().0 == name {
        Some(fields.last().1)
    } else {
        field(fields.drop_last(), name)
    }
}

/// The document of a list.
pub open spec fn encode(tree: Tree) -> Doc
    decreases tree,
{
    match tree {
        Tree::Group { label, children } => Doc::Record(
            seq![
                (
                    "Container"@,
                    Doc::Record(
                        seq![("items"@, Doc::List(encode_all(children))), ("text"@, Doc::Text(label))],
                    ),
                ),
            ],
        ),
        Tree::Leaf { label, done } => Doc::Record(
            seq![
                ("Item"@, Doc::Record(seq![("mark"@, Doc::Boolean(done)), ("text"@, Doc::Text(label))])),
            ],
        ),
    }
}

/// The documents of the trees of a forest, in order.
pub open spec fn encode_all(forest: Seq<Tree>) -> Seq<Doc>
    decreases forest,
{
    if forest.len() == 0 {
        Seq::empty()
    } else {
        encode_all(forest.drop_last()).push(encode(forest.last()))
    }
}

/// A malformed document, as an error.
pub open spec fn malformed<T>(fault: Malformation) -> Result<T, TodoError> {
    Err(TodoError::MalformedDocument(fault))
}

/// The list that a document describes, or what is wrong with the document.
///
/// A node is a record of one field. The name of the field is the tag,
/// `Container` or `Item`, and its value is a record, the body. The body
/// holds the label, a text, under `text`; the body of a task holds the flag,
/// a boolean, under `mark`; the body of a group holds the children, a list
/// of nodes, under `items`. Other fields of a body are passed over. The
/// faults are looked for in this order, and in a group the first faulty
/// child decides.
pub open spec fn decode(doc: Doc) -> Result<Tree, TodoError>
    decreases doc,
    via decode_decreases
{
    if !(doc is Record) || doc->Record_0.len() != 1 {
        malformed(Malformation::Untagged)
    } else {
        let tag = doc->Record_0[0].0;
        let body = doc->Record_0[0].1;
        if tag != "Container"@ && tag != "Item"@ {
            malformed(Malformation::UnknownTag)
        } else if !(body is Record) {
            malformed(Malformation::BodyNotRecord)
        } else {
            match field(body->Record_0, "text"@) {
                None => malformed(Malformation::MissingLabel),
                Some(Doc::Text(label)) => if tag == "Container"@ {
                    match field(body->Record_0, "items"@) {
                        None => malformed(Malformation::MissingChildren),
                        Some(Doc::List(items)) => match decode_all(items) {
                            Ok(children) => Ok(Tree::Group { label, children }),
                            Err(error) => Err(error),
                        },
                        Some(_) => malformed(Malformation::ChildrenNotList),
                    }
                } else {
                    match field(body->Record_0, "mark"@) {
                        None => malformed(Malformation::MissingFlag),
                        Some(Doc::Boolean(done)) => Ok(Tree::Leaf { label, done }),
                        Some(_) => malformed(Malformation::FlagNotBoolean),
                    }
                },
                Some(_) => malformed(Malformation::LabelNotText),
            }
        }
    }
}

/// The lists that the documents of a sequence describe, or what is wrong
/// with the first document that describes none.
pub open spec fn decode_all(items: Seq<Doc>) -> Result<Seq<Tree>, TodoError>
    decreases items,
    via decode_all_decreases
{
    if items.len() == 0 {
        Ok(Seq::empty())
    } else {
        match decode_all(items.drop_last()) {
            Ok(trees) => match decode(items.last()) {
                Ok(tree) => Ok(trees.push(tree)),
                Err(error) => Err(error),
            },
            Err(error) => Err(error),
        }
    }
}

/// A field's value is a part of the record that holds it.
pub proof fn lemma_field_within(fields: Seq<(Seq<char>, Doc)>, name: Seq<char>)
    ensures
        field(fields, name) is Some ==> decreases_to!(fields => field(fields, name)->Some_0),
    decreases fields.len(),
{
    if fields.len() > 0 {
        if fields.last().0 == name {
            assert(decreases_to!(fields => fields.last()));
        } else {
            lemma_field_within(fields.drop_last(), name);
        }
    }
}

#[via_fn]
proof fn decode_decreases(doc: Doc) {
    if doc is Record && doc->Record_0.len() == 1 {
        let body = doc->Record_0[0].1;
        if body is Record {
            lemma_field_within(body->Record_0, "items"@);
        }
    }
}

#[via_fn]
proof fn decode_all_decreases(items: Seq<Doc>) {
}

/// The documents of the first `k + 1` trees of a forest are those of the
/// first `k`, then that of the tree at `k`.
pub proof fn lemma_encode_step(forest: Seq<Tree>, k: int)
    requires
        0 <= k < forest.len(),
    ensures
        encode_all(forest.take(k + 1)) == encode_all(forest.take(k)).push(encode(forest[k])),
{
    assert(forest.take(k + 1).drop_last() =~= forest.take(k));
}

/// The first `k + 1` documents of a sequence describe what the first `k`
/// describe, then what the document at `k` describes; the first fault
/// among them decides.
pub proof fn lemma_decode_step(items: Seq<Doc>, k: int)
    requires
        0 <= k < items.len(),
    ensures
        decode_all(items.take(k + 1)) == match decode_all(items.take(k)) {
            Ok(trees) => match decode(items[k]) {
                Ok(tree) => Ok(trees.push(tree)),
                Err(error) => Err(error),
            },
            Err(error) => Err(error),
        },
{
    assert(items.take(k + 1).drop_last() =~= items.take(k));
}

/// What is written can be read, and reading it gives the list that was
/// written: kinds, labels, flags, the order of the children and their
/// nesting are all kept.
pub proof fn lemma_round_trip(tree: Tree)
    ensures
        decode(encode(tree)) == Ok::<Tree, TodoError>(tree),
    decreases tree,
{
    reveal_strlit("Container");
    reveal_strlit("Item");
    reveal_strlit("items");
    reveal_strlit("text");
    reveal_strlit("mark");
    assert("text"@[0] != "mark"@[0]);
    assert("text"@.len() != "items"@.len());
    match tree {
        Tree::Group { label, children } => {
            let body = seq![("items"@, Doc::List(encode_all(children))), ("text"@, Doc::Text(label))];
            let node = seq![("Container"@, Doc::Record(body))];
            assert(encode(tree) == Doc::Record(node));
            assert(node[0].0 == "Container"@);
            assert(body.drop_last() =~= seq![("items"@, Doc::List(encode_all(children)))]);
            assert(field(body, "text"@) == Some(Doc::Text(label)));
            assert(field(body.drop_last(), "items"@) == Some(Doc::List(encode_all(children))));
            assert(field(body, "items"@) == Some(Doc::List(encode_all(children))));
            lemma_round_trip_all(children);
        },
        Tree::Leaf { label, done } => {
            let body = seq![("mark"@, Doc::Boolean(done)), ("text"@, Doc::Text(label))];
            let node = seq![("Item"@, Doc::Record(body))];
            assert(encode(tree) == Doc::Record(node));
            assert(node[0].0 == "Item"@);
            assert(body.drop_last() =~= seq![("mark"@, Doc::Boolean(done))]);
            assert(field(body, "text"@) == Some(Doc::Text(label)));
            assert(field(body.drop_last(), "mark"@) == Some(Doc::Boolean(done)));
            assert(field(body, "mark"@) == Some(Doc::Boolean(done)));
        },
    }
}

/// What is written of a forest reads back as the forest.
pub proof fn lemma_round_trip_all(forest: Seq<Tree>)
    ensures
        decode_all(encode_all(forest)) == Ok::<Seq<Tree>, TodoError>(forest),
    decreases forest,
{
    if forest.len() == 0 {
        assert(forest =~= Seq::empty());
    } else {
        lemma_round_trip_all(forest.drop_last());
        lemma_round_trip(forest.last());
        let written = encode_all(forest);
        assert(written.drop_last() =~= encode_all(forest.drop_last()));
        assert(written.last() == encode(forest.last()));
        assert(forest.drop_last().push(forest.last()) =~= forest);
    }
}

/// A field named `name` with the value `value`.
fn named(name: &str, value: Document) -> (field: Field)
    ensures
        field.name@ == name@,
        field.value == value,
{
    Field { name: name.to_owned(), value }
}

/// A record of two fields.
fn pair(first: Field, second: Field) -> (record: Document)
    ensures
        record@ == Doc::Record(seq![(first.name@, first.value@), (second.name@, second.value@)]),
{
    let mut fields: Vec<Field> = Vec::new();
    fields.push(first);
    fields.push(second);
    let record = Document::Record(fields);
    proof {
        lemma_view_record(record);
        assert(entries(fields@) =~= seq![
            (first.name@, first.value@),
            (second.name@, second.value@),
        ]);
    }
    record
}

/// A node: the record of the one field `tag`, whose value is `body`.
fn tagged(tag: &str, body: Document) -> (record: Document)
    ensures
        record@ == Doc::Record(seq![(tag@, body@)]),
{
    let mut fields: Vec<Field> = Vec::new();
    fields.push(named(tag, body));
    let record = Document::Record(fields);
    proof {
        lemma_view_record(record);
        assert(entries(fields@) =~= seq![(tag@, body@)]);
    }
    record
}

/// The place of the last field named `name`, if there is one.
fn find(fields: &Vec<Field>, name: &str) -> (at: Option<usize>)
    ensures
        match at {
            Some(i) => i < fields.len() && field(entries(fields@), name@) == Some(
                fields@[i as int].value@,
            ),
            None => field(entries(fields@), name@) is None,
        },
{
    let key: String = name.to_owned();
    let mut k: usize = fields.len();
    assert(entries(fields@).take(k as int) =~= entries(fields@));
    while k > 0
        invariant
            k <= fields.len(),
            key@ == name@,
            field(entries(fields@), name@) == field(entries(fields@).take(k as int), name@),
        decreases k,
    {
        k = k - 1;
        proof {
            let upto = entries(fields@).take(k + 1);
            assert(upto.drop_last() =~= entries(fields@).take(k as int));
            assert(upto.last() == entries(fields@)[k as int]);
        }
        if fields[k].name == key {
            return Some(k);
        }
    }
    None
}

impl TodoList {
    /// The document of the list.
    pub fn serialize(&self) -> (document: Document)
        ensures
            document@ == encode(self@),
        decreases self,
    {
        match self {
            TodoList::Item { mark, text } => {
                let body = pair(
                    named("mark", Document::Boolean(*mark)),
                    named("text", Document::Text(text.clone())),
                );
                tagged("Item", body)
            },
            TodoList::Container { items, text } => {
                let ghost children = views(items@);
                let mut written: Vec<Document> = Vec::new();
                let mut k: usize = 0;
                proof {
                    lemma_view_container(*self);
                    assert(children.take(0) =~= Seq::empty());
                    assert(docs(written@) =~= Seq::empty());
                }
                while k < items.len()
                    invariant
                        k <= items.len(),
                        self is Container,
                        self->items == *items,
                        children == views(items@),
                        docs(written@) == encode_all(children.take(k as int)),
                    decreases items.len() - k,
                {
                    proof {
                        vstd::std_specs::vec::axiom_vec_index_decreases(*items, k as int);
                        lemma_encode_step(children, k as int);
                    }
                    let ghost before = written@;
                    let child = items[k].serialize();
                    written.push(child);
                    proof {
                        assert(docs(written@) =~= docs(before).push(child@));
                    }
                    k = k + 1;
                }
                let list = Document::List(written);
                proof {
                    assert(children.take(k as int) =~= children);
                    lemma_view_list(list);
                }
                let body = pair(named("items", list), named("text", Document::Text(text.clone())));
                tagged("Container", body)
            },
        }
    }

    /// The list that `document` describes, or what is wrong with it.
    pub fn deserialize(document: &Document) -> (read: Result<TodoList, TodoError>)
        ensures
            match read {
                Ok(list) => decode(document@) == Ok::<Tree, TodoError>(list@),
                Err(error) => decode(document@) == Err::<Tree, TodoError>(error),
            },
        decreases document,
    {
        let node = match document {
            Document::Record(node) => node,
            _ => {
                return Err(TodoError::MalformedDocument(Malformation::Untagged));
            },
        };
        proof {
            lemma_view_record(*document);
        }
        if node.len() != 1 {
            return Err(TodoError::MalformedDocument(Malformation::Untagged));
        }
        let group: bool = node[0].name == "Container".to_owned();
        let task: bool = node[0].name == "Item".to_owned();
        if !group && !task {
            return Err(TodoError::MalformedDocument(Malformation::UnknownTag));
        }
        let body = match &node[0].value {
            Document::Record(body) => body,
            _ => {
                return Err(TodoError::MalformedDocument(Malformation::BodyNotRecord));
            },
        };
        proof {
            lemma_view_record(node[0].value);
        }
        let label: String = match find(body, "text") {
            None => {
                return Err(TodoError::MalformedDocument(Malformation::MissingLabel));
            },
            Some(at) => match &body[at].value {
                Document::Text(label) => label.clone(),
                _ => {
                    return Err(TodoError::MalformedDocument(Malformation::LabelNotText));
                },
            },
        };
        if !group {
            return match find(body, "mark") {
                None => Err(TodoError::MalformedDocument(Malformation::MissingFlag)),
                Some(at) => match &body[at].value {
                    Document::Boolean(done) => Ok(TodoList::Item { mark: *done, text: label }),
                    _ => Err(TodoError::MalformedDocument(Malformation::FlagNotBoolean)),
                },
            };
        }
        let written = match find(body, "items") {
            None => {
                return Err(TodoError::MalformedDocument(Malformation::MissingChildren));
            },
            Some(at) => match &body[at].value {
                Document::List(written) => {
                    proof {
                        lemma_view_list(body[at as int].value);
                    }
                    written
                },
                _ => {
                    return Err(TodoError::MalformedDocument(Malformation::ChildrenNotList));
                },
            },
        };
        let mut items: Vec<TodoList> = Vec::new();
        let mut k: usize = 0;
        proof {
            assert(docs(written@).take(0) =~= Seq::empty());
            assert(views(items@) =~= Seq::empty());
        }
        while k < written.len()
            invariant
                k <= written.len(),
                decreases_to!(document => *written),
                decode(document@) == match decode_all(docs(written@)) {
                    Ok(children) => Ok::<Tree, TodoError>(Tree::Group { label: label@, children }),
                    Err(error) => Err(error),
                },
                decode_all(docs(written@).take(k as int)) == Ok::<Seq<Tree>, TodoError>(
                    views(items@),
                ),
            decreases written.len() - k,
        {
            proof {
                vstd::std_specs::vec::axiom_vec_index_decreases(*written, k as int);
                lemma_decode_step(docs(written@), k as int);
            }
            let ghost before = items@;
            match TodoList::deserialize(&written[k]) {
                Ok(child) => {
                    items.push(child);
                    proof {
                        assert(views(items@) =~= views(before).push(child@));
                    }
                },
                Err(error) => {
                    proof {
                        lemma_first_fault(docs(written@), k as int);
                    }
                    return Err(error);
                },
            }
            k = k + 1;
        }
        let list = TodoList::Container { items, text: label };
        proof {
            assert(docs(written@).take(k as int) =~= docs(written@));
            lemma_view_container(list);
        }
        Ok(list)
    }
}

/// Where the documents before `k` describe lists and the one at `k` does
/// not, its fault is that of the whole sequence.
pub proof fn lemma_first_fault(items: Seq<Doc>, k: int)
    requires
        0 <= k < items.len(),
        decode_all(items.take(k)) is Ok,
        decode(items[k]) is Err,
    ensures
        decode_all(items) == Err::<Seq<Tree>, TodoError>(decode(items[k])->Err_0),
    decreases items.len(),
{
    if k == items.len() - 1 {
        assert(items.take(k) =~= items.drop_last());
    } else {
        assert(items.drop_last().take(k) =~= items.take(k));
        lemma_first_fault(items.drop_last(), k);
    }
}

} // verus!
