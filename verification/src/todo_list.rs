//! The list itself: the executable tree and its operations.

use crate::error::TodoError;
use crate::text::{lemma_decimal_nonempty, push_decimal, spaces};
use crate::tree;
use crate::tree::Tree;
use vstd::prelude::*;

verus! {

/// A node of a to-do list. A `Container` is a group: it owns its `items`,
/// in order, under the label `text`. An `Item` is a task with the label
/// `text`, done when `mark` is set.
#[derive(Debug, PartialEq, Eq)]
pub enum TodoList {
    Container { items: Vec<TodoList>, text: String },
    Item { mark: bool, text: String },
}

impl TodoList {
    /// The value of the node: a group of the values of its items, or a task.
    pub open spec fn tree(self) -> Tree
        decreases self,
    {
        match self {
            TodoList::Container { items, text } => Tree::Group {
                label: text@,
                children: Seq::new(
                    items@.len(),
                    |i: int|
                        if 0 <= i < items@.len() {
                            items@[i].tree()
                        } else {
                            arbitrary()
                        },
                ),
            },
            TodoList::Item { mark, text } => Tree::Leaf { label: text@, done: mark },
        }
    }
}

impl View for TodoList {
    type V = Tree;

    open spec fn view(&self) -> Tree {
        self.tree()
    }
}

impl Clone for TodoList {
    /// A copy of the list: a list of its own with the same value.
    fn clone(&self) -> (copy: Self)
        ensures
            copy@ == self@,
        decreases self,
    {
        match self {
            TodoList::Item { mark, text } => TodoList::Item { mark: *mark, text: text.clone() },
            TodoList::Container { items, text } => {
                let mut copies: Vec<TodoList> = Vec::new();
                let mut k: usize = 0;
                while k < items.len()
                    invariant
                        k <= items.len(),
                        self is Container,
                        self->items == *items,
                        copies@.len() == k,
                        forall|j: int| 0 <= j < k ==> (#[trigger] copies@[j])@ == items@[j]@,
                    decreases items.len() - k,
                {
                    proof {
                        vstd::std_specs::vec::axiom_vec_index_decreases(*items, k as int);
                    }
                    copies.push(items[k].clone());
                    k = k + 1;
                }
                let copy = TodoList::Container { items: copies, text: text.clone() };
                proof {
                    lemma_view_container(*self);
                    lemma_view_container(copy);
                    assert(views(copies@) =~= views(items@));
                }
                copy
            },
        }
    }
}

/// The values of the nodes of a vector, in order.
pub open spec fn views(items: Seq<TodoList>) -> Seq<Tree> {
    Seq::new(items.len(), |i: int| items[i]@)
}

/// The value of a group is made of the values of its items.
pub proof fn lemma_view_container(list: TodoList)
    requires
        list is Container,
    ensures
        list@ == (Tree::Group { label: list->Container_text@, children: views(list->items@) }),
{
    assert(list@->children =~= views(list->items@));
}

impl TodoList {
    /// A fresh list: a group labelled `name` without children.
    pub fn new(name: String) -> (list: Self)
        ensures
            list@ == (Tree::Group { label: name@, children: Seq::empty() }),
    {
        let list = TodoList::Container { items: Vec::new(), text: name };
        assert(list@->children =~= Seq::empty());
        list
    }

    /// Adds `item` below this node. A group takes it as its last child; a
    /// task first becomes a group that holds the task it was, then takes it.
    pub fn add_item(&mut self, item: Self)
        ensures
            final(self)@ == old(self)@.with_child(item@),
        decreases
            (if *old(self) is Item {
                1nat
            } else {
                0nat
            }),
    {
        let ghost whole = *final(self);
        match self {
            TodoList::Container { items, text: _ } => {
                let ghost before = items@;
                items.push(item);
                proof {
                    lemma_view_container(*old(self));
                    lemma_view_container(whole);
                    assert(views(items@) =~= views(before).push(item@));
                }
            },
            TodoList::Item { mark, text } => {
                let task = TodoList::Item { mark: *mark, text: text.clone() };
                let label = text.clone();
                let mut items: Vec<TodoList> = Vec::new();
                items.push(task);
                *self = TodoList::Container { items, text: label };
                proof {
                    lemma_view_container(*self);
                    assert(self@->children =~= seq![old(self)@]);
                }
                self.add_item(item);
                proof {
                    assert(seq![old(self)@].push(item@) =~= seq![old(self)@, item@]);
                }
            },
        }
    }

    /// Sets the flag of the node to `new_mark` where the node is a task,
    /// and the flag of every task below it where it is a group.
    pub fn mark(&mut self, new_mark: bool)
        ensures
            final(self)@ == old(self)@.marked(new_mark),
        decreases *old(self),
    {
        let ghost whole = *final(self);
        match self {
            TodoList::Item { mark, text: _ } => {
                *mark = new_mark;
            },
            TodoList::Container { items, text: _ } => {
                let ghost before = views(items@);
                proof {
                    lemma_view_container(*old(self));
                }
                let mut k: usize = 0;
                while k < items.len()
                    invariant
                        k <= items.len(),
                        *old(self) is Container,
                        items@.len() == before.len(),
                        before == views(old(self)->items@),
                        forall|j: int| k <= j < items.len() ==> items@[j] == old(self)->items@[j],
                        forall|j: int| 0 <= j < k ==> (#[trigger] items@[j])@ == before[j].marked(new_mark),
                    decreases items.len() - k,
                {
                    proof {
                        assert(items@[k as int] == old(self)->items@[k as int]);
                        vstd::std_specs::vec::axiom_vec_index_decreases(old(self)->items, k as int);
                    }
                    items[k].mark(new_mark);
                    k = k + 1;
                }
                proof {
                    lemma_view_container(whole);
                    assert(views(items@) =~= old(self)@.marked(new_mark)->children);
                }
            },
        }
    }

    /// The number of nodes of the list, counted no further than `cap`.
    fn capped_size(&self, cap: usize) -> (count: usize)
        ensures
            count == if self@.size() <= cap {
                self@.size()
            } else {
                cap as nat
            },
        decreases self,
    {
        if cap == 0 {
            return 0;
        }
        match self {
            TodoList::Item { mark: _, text: _ } => 1,
            TodoList::Container { items, text: _ } => {
                let ghost children = views(items@);
                proof {
                    lemma_view_container(*self);
                }
                let mut count: usize = 1;
                let mut k: usize = 0;
                assert(children.take(0) =~= Seq::empty());
                while k < items.len() && count < cap
                    invariant
                        k <= items.len(),
                        1 <= count <= cap,
                        self is Container,
                        self->items == *items,
                        children == views(items@),
                        self@.size() == 1 + Tree::total(children),
                        count == if 1 + Tree::total(children.take(k as int)) <= cap {
                            1 + Tree::total(children.take(k as int))
                        } else {
                            cap as nat
                        },
                    decreases items.len() - k,
                {
                    proof {
                        tree::lemma_total_take_step(children, k as int);
                        vstd::std_specs::vec::axiom_vec_index_decreases(*items, k as int);
                    }
                    let below: usize = items[k].capped_size(cap - count);
                    count = count + below;
                    k = k + 1;
                }
                proof {
                    tree::lemma_total_take_bound(children, k as int);
                    if k == items.len() {
                        assert(children.take(k as int) =~= children);
                    }
                }
                count
            },
        }
    }

    /// The node at position `index` of the walk, to read or to change.
    pub fn get_index(&mut self, index: usize) -> (found: Result<&mut TodoList, TodoError>)
        ensures
            match found {
                Ok(node) => {
                    &&& index < old(self)@.size()
                    &&& node@ == old(self)@.preorder()[index as int]
                    &&& final(self)@ == old(self)@.replace_at(index as nat, final(node)@)
                },
                Err(error) => {
                    &&& index >= old(self)@.size()
                    &&& error == TodoError::OutOfRange
                    &&& *final(self) == *old(self)
                },
            },
    {
        match self._get_index(index) {
            Some(node) => Ok(node),
            None => Err(TodoError::OutOfRange),
        }
    }

    /// Walks down to the node at position `index`: the root at 0, else the
    /// child whose part of the walk holds the position.
    pub fn _get_index(&mut self, index: usize) -> (found: Option<&mut TodoList>)
        ensures
            match found {
                Some(node) => {
                    &&& index < old(self)@.size()
                    &&& node@ == old(self)@.preorder()[index as int]
                    &&& final(self)@ == old(self)@.replace_at(index as nat, final(node)@)
                },
                None => index >= old(self)@.size() && *final(self) == *old(self),
            },
        decreases *old(self),
    {
        let ghost whole = *final(self);
        if index == 0 {
            return Some(self);
        }
        match self {
            TodoList::Item { mark: _, text: _ } => None,
            TodoList::Container { items, text: _ } => {
                let ghost children = views(items@);
                proof {
                    lemma_view_container(*old(self));
                    assert(children.take(0) =~= Seq::empty());
                }
                let mut rest: usize = index - 1;
                let mut k: usize = 0;
                let mut inside: bool = false;
                while !inside && k < items.len()
                    invariant
                        k <= items.len(),
                        rest < index,
                        *items == old(self)->items,
                        children == views(items@),
                        rest + Tree::total(children.take(k as int)) == index - 1,
                        inside ==> k < items.len() && rest < children[k as int].size(),
                    decreases items.len() - k + (if inside { 0int } else { 1int }),
                {
                    let below: usize = items[k].capped_size(rest + 1);
                    if below > rest {
                        inside = true;
                    } else {
                        proof {
                            tree::lemma_total_take_step(children, k as int);
                        }
                        rest = rest - below;
                        k = k + 1;
                    }
                }
                if inside {
                    proof {
                        vstd::std_specs::vec::axiom_vec_index_decreases(*items, k as int);
                        tree::lemma_flatten_index(children, k as int, rest as int);
                    }
                    let ghost after = *final(items);
                    let found = items[k]._get_index(rest);
                    proof {
                        let node = found->Some_0;
                        tree::lemma_replace_in_child(children, k as int, rest as nat, final(node)@);
                        tree::lemma_preorder_len(old(self)@);
                        assert(views(after@) =~= children.update(
                            k as int,
                            children[k as int].replace_at(rest as nat, final(node)@),
                        ));
                        lemma_view_container(whole);
                    }
                    found
                } else {
                    proof {
                        assert(children.take(k as int) =~= children);
                    }
                    None
                }
            },
        }
    }

    /// The listing of the list as text: one line for each node, in the
    /// order of the walk and numbered from 1, the children of a group four
    /// blanks further in than the group.
    pub fn print(&self) -> (listing: String)
        ensures
            listing@ == self@.rendered(),
    {
        let mut listing = String::new();
        let mut lines: usize = 0;
        proof {
            reveal_strlit("");
        }
        self._print("", &mut lines, &mut listing);
        assert(listing@ =~= self@.rendered());
        listing
    }

    /// Writes the listing of this node at the end of `out`, indented by
    /// `tabs`. `i` counts the lines written so far: the node's own line gets
    /// the next number.
    fn _print(&self, tabs: &str, i: &mut usize, out: &mut String)
        requires
            2 * *old(i) <= old(out)@.len(),
        ensures
            final(out)@ == old(out)@ + self@.listing(tabs@, (*old(i) + 1) as nat),
            *final(i) == *old(i) + self@.size(),
            2 * *final(i) <= final(out)@.len(),
        decreases self,
    {
        if *i == usize::MAX {
            // Every line has two characters or more, so no text that a
            // machine holds has that many lines.
            let length: usize = out.as_str().unicode_len();
            assert(false);
        }
        *i = *i + 1;
        let ghost number = *i as nat;
        proof {
            reveal_strlit(".");
            reveal_strlit(":\n");
            reveal_strlit(" X\n");
            reveal_strlit(" _\n");
            reveal_strlit("    ");
            lemma_decimal_nonempty(number);
        }
        out.append(tabs);
        push_decimal(out, *i);
        out.append(".");
        match self {
            TodoList::Item { mark, text } => {
                out.append(text.as_str());
                if *mark {
                    out.append(" X\n");
                } else {
                    out.append(" _\n");
                }
                assert(out@ =~= old(out)@ + self@.line(tabs@, number));
            },
            TodoList::Container { items, text } => {
                out.append(text.as_str());
                out.append(":\n");
                let mut deeper: String = tabs.to_owned();
                deeper.append("    ");
                let ghost children = views(items@);
                proof {
                    lemma_view_container(*self);
                    assert(out@ =~= old(out)@ + self@.line(tabs@, number));
                    assert(deeper@ =~= tabs@ + spaces(4));
                    assert(children.take(0) =~= Seq::empty());
                }
                let mut k: usize = 0;
                while k < items.len()
                    invariant
                        k <= items.len(),
                        self is Container,
                        self->items == *items,
                        children == views(items@),
                        number == *old(i) + 1,
                        *i == number + Tree::total(children.take(k as int)),
                        2 * *i <= out@.len(),
                        out@ == old(out)@ + self@.line(tabs@, number) + Tree::listing_all(
                            children.take(k as int),
                            deeper@,
                            number + 1,
                        ),
                    decreases items.len() - k,
                {
                    proof {
                        tree::lemma_total_take_step(children, k as int);
                        vstd::std_specs::vec::axiom_vec_index_decreases(*items, k as int);
                    }
                    items[k]._print(deeper.as_str(), i, out);
                    proof {
                        assert(out@ =~= old(out)@ + self@.line(tabs@, number) + Tree::listing_all(
                            children.take(k + 1),
                            deeper@,
                            number + 1,
                        ));
                    }
                    k = k + 1;
                }
                proof {
                    assert(children.take(k as int) =~= children);
                    assert(out@ =~= old(out)@ + self@.listing(tabs@, number));
                }
            },
        }
    }
}

} // verus!
