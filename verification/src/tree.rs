//! The mathematical model of a to-do list and what holds of it.

use crate::text::{decimal, spaces};
use vstd::prelude::*;

verus! {

/// The value of a list: a group with a label and children in order, or a
/// task with a label and a completion flag.
pub ghost enum Tree {
    Group { label: Seq<char>, children: Seq<Tree> },
    Leaf { label: Seq<char>, done: bool },
}

impl Tree {
    /// The node's label.
    pub open spec fn label(self) -> Seq<char> {
        match self {
            Tree::Group { label, .. } => label,
            Tree::Leaf { label, .. } => label,
        }
    }

    /// The number of nodes of the tree, the root included.
    pub open spec fn size(self) -> nat
        decreases self,
    {
        match self {
            Tree::Group { children, .. } => 1 + Self::total(children),
            Tree::Leaf { .. } => 1,
        }
    }

    /// The number of nodes of all the trees of a forest.
    pub open spec fn total(forest: Seq<Tree>) -> nat
        decreases forest,
    {
        if forest.len() == 0 {
            0
        } else {
            Self::total(forest.drop_last()) + forest.last().size()
        }
    }

    /// The nodes of the tree in the order of a depth-first walk that visits
    /// a node before its children and the children from first to last. The
    /// position of a node is its index in this sequence.
    pub open spec fn preorder(self) -> Seq<Tree>
        decreases self,
    {
        match self {
            Tree::Group { children, .. } => seq![self] + Self::flatten(children),
            Tree::Leaf { .. } => seq![self],
        }
    }

    /// The walks of the trees of a forest, one after the other.
    pub open spec fn flatten(forest: Seq<Tree>) -> Seq<Tree>
        decreases forest,
    {
        if forest.len() == 0 {
            Seq::empty()
        } else {
            Self::flatten(forest.drop_last()) + forest.last().preorder()
        }
    }

    /// The tree with the node at position `index` replaced by `node`. A
    /// position that the tree does not have leaves it as it is.
    pub open spec fn replace_at(self, index: nat, node: Tree) -> Tree
        decreases self,
    {
        if index == 0 {
            node
        } else {
            match self {
                Tree::Group { label, children } => Tree::Group {
                    label,
                    children: Self::replace_in(children, (index - 1) as nat, node),
                },
                Tree::Leaf { .. } => self,
            }
        }
    }

    /// The forest with the node at position `index` of its walk replaced by
    /// `node`.
    pub open spec fn replace_in(forest: Seq<Tree>, index: nat, node: Tree) -> Seq<Tree>
        decreases forest,
    {
        if forest.len() == 0 {
            forest
        } else if index < Self::total(forest.drop_last()) {
            Self::replace_in(forest.drop_last(), index, node).push(forest.last())
        } else {
            forest.drop_last().push(
                forest.last().replace_at((index - Self::total(forest.drop_last())) as nat, node),
            )
        }
    }

    /// The tree after `item` is added to it. A group gets it as its last
    /// child. A task becomes a group under the task's label: its first
    /// child is the task as it was, its second child is `item`.
    pub open spec fn with_child(self, item: Tree) -> Tree {
        match self {
            Tree::Group { label, children } => Tree::Group { label, children: children.push(item) },
            Tree::Leaf { label, done } => Tree::Group {
                label,
                children: seq![Tree::Leaf { label, done }, item],
            },
        }
    }

    /// The tree with the flag of every task in it set to `value`.
    pub open spec fn marked(self, value: bool) -> Tree
        decreases self,
    {
        match self {
            Tree::Group { label, children } => Tree::Group {
                label,
                children: Seq::new(
                    children.len(),
                    |i: int|
                        if 0 <= i < children.len() {
                            children[i].marked(value)
                        } else {
                            arbitrary()
                        },
                ),
            },
            Tree::Leaf { label, .. } => Tree::Leaf { label, done: value },
        }
    }

    /// Each tree of a forest with every task's flag set to `value`.
    pub open spec fn marked_all(forest: Seq<Tree>, value: bool) -> Seq<Tree> {
        Seq::new(forest.len(), |i: int| forest[i].marked(value))
    }

    /// What ends the line of a node: a colon for a group, for a task a
    /// blank and `X` where it is done, `_` where it is not.
    pub open spec fn ending(self) -> Seq<char> {
        match self {
            Tree::Group { .. } => seq![':'],
            Tree::Leaf { done, .. } => if done {
                seq![' ', 'X']
            } else {
                seq![' ', '_']
            },
        }
    }

    /// The line of a node in a listing: the indentation, the number of the
    /// line, a dot, the label, the ending and a line feed.
    pub open spec fn line(self, indent: Seq<char>, number: nat) -> Seq<char> {
        indent + decimal(number) + seq!['.'] + self.label() + self.ending() + seq!['\n']
    }

    /// The listing of a tree whose root stands on line `number`: the line of
    /// each node in the order of the walk, the children of a group four
    /// blanks further in than the group.
    pub open spec fn listing(self, indent: Seq<char>, number: nat) -> Seq<char>
        decreases self,
    {
        match self {
            Tree::Group { children, .. } => self.line(indent, number) + Self::listing_all(
                children,
                indent + spaces(4),
                number + 1,
            ),
            Tree::Leaf { .. } => self.line(indent, number),
        }
    }

    /// The listings of the trees of a forest, the first on line `number`.
    pub open spec fn listing_all(forest: Seq<Tree>, indent: Seq<char>, number: nat) -> Seq<char>
        decreases forest,
    {
        if forest.len() == 0 {
            Seq::empty()
        } else {
            Self::listing_all(forest.drop_last(), indent, number) + forest.last().listing(
                indent,
                number + Self::total(forest.drop_last()),
            )
        }
    }

    /// The listing of a whole list: the root on line 1, not indented.
    pub open spec fn rendered(self) -> Seq<char> {
        self.listing(Seq::empty(), 1)
    }
}

/// The first `k + 1` trees of a forest hold the nodes of the first `k` and
/// those of the tree at `k`: in their number, in their walk and in their
/// listing.
pub proof fn lemma_total_take_step(forest: Seq<Tree>, k: int)
    requires
        0 <= k < forest.len(),
    ensures
        Tree::total(forest.take(k + 1)) == Tree::total(forest.take(k)) + forest[k].size(),
        Tree::flatten(forest.take(k + 1)) == Tree::flatten(forest.take(k)) + forest[k].preorder(),
        forall|indent: Seq<char>, number: nat| #[trigger]
            Tree::listing_all(forest.take(k + 1), indent, number) == Tree::listing_all(
                forest.take(k),
                indent,
                number,
            ) + forest[k].listing(indent, number + Tree::total(forest.take(k))),
{
    let longer = forest.take(k + 1);
    assert(longer.drop_last() =~= forest.take(k));
    assert(longer.last() == forest[k]);
}

/// A prefix of a forest holds no more nodes than the forest.
pub proof fn lemma_total_take_bound(forest: Seq<Tree>, k: int)
    requires
        0 <= k <= forest.len(),
    ensures
        Tree::total(forest.take(k)) <= Tree::total(forest),
    decreases forest.len() - k,
{
    if k == forest.len() {
        assert(forest.take(k) =~= forest);
    } else {
        lemma_total_take_step(forest, k);
        lemma_total_take_bound(forest, k + 1);
    }
}

/// A walk visits each node once: it is as long as the tree has nodes.
pub proof fn lemma_preorder_len(tree: Tree)
    ensures
        tree.preorder().len() == tree.size(),
    decreases tree,
{
    match tree {
        Tree::Group { children, .. } => {
            lemma_flatten_len(children);
        },
        Tree::Leaf { .. } => {},
    }
}

/// The walk of a forest is as long as the forest has nodes.
pub proof fn lemma_flatten_len(forest: Seq<Tree>)
    ensures
        Tree::flatten(forest).len() == Tree::total(forest),
    decreases forest,
{
    if forest.len() > 0 {
        lemma_flatten_len(forest.drop_last());
        lemma_preorder_len(forest.last());
    }
}

/// In the walk of a forest, the walk of its tree at `k` begins where the
/// walks of the trees before it end.
pub proof fn lemma_flatten_index(forest: Seq<Tree>, k: int, j: int)
    requires
        0 <= k < forest.len(),
        0 <= j < forest[k].size(),
    ensures
        Tree::total(forest.take(k)) + j < Tree::total(forest),
        Tree::flatten(forest)[Tree::total(forest.take(k)) + j] == forest[k].preorder()[j],
    decreases forest.len(),
{
    let front = forest.drop_last();
    lemma_flatten_len(front);
    lemma_preorder_len(forest.last());
    if k == forest.len() - 1 {
        assert(forest.take(k) =~= front);
    } else {
        lemma_flatten_index(front, k, j);
        assert(front.take(k) =~= forest.take(k));
    }
}

/// To replace a node inside the tree at `k` of a forest is to replace that
/// tree by the one in which the node is replaced.
pub proof fn lemma_replace_in_child(forest: Seq<Tree>, k: int, j: nat, node: Tree)
    requires
        0 <= k < forest.len(),
        j < forest[k].size(),
    ensures
        Tree::replace_in(forest, Tree::total(forest.take(k)) + j, node) == forest.update(
            k,
            forest[k].replace_at(j, node),
        ),
    decreases forest.len(),
{
    let front = forest.drop_last();
    if k == forest.len() - 1 {
        assert(forest.take(k) =~= front);
        assert(front.push(forest.last().replace_at(j, node)) =~= forest.update(
            k,
            forest[k].replace_at(j, node),
        ));
    } else {
        lemma_replace_in_child(front, k, j, node);
        assert(front.take(k) =~= forest.take(k));
        lemma_flatten_index(front, k, j as int);
        assert(front.update(k, forest[k].replace_at(j, node)).push(forest.last())
            =~= forest.update(k, forest[k].replace_at(j, node)));
    }
}

/// A task that is given a child becomes a group under the task's label with
/// two children: first the task itself, label and flag as they were, then
/// the child.
pub proof fn lemma_promotion(label: Seq<char>, done: bool, child: Tree)
    ensures
        (Tree::Leaf { label, done }).with_child(child) is Group,
        (Tree::Leaf { label, done }).with_child(child).label() == label,
        (Tree::Leaf { label, done }).with_child(child)->children.len() == 2,
        (Tree::Leaf { label, done }).with_child(child)->children[0] == (Tree::Leaf { label, done }),
        (Tree::Leaf { label, done }).with_child(child)->children[1] == child,
{
}

/// A group that is given a child keeps its label and its children, in
/// order, and has the child after them.
pub proof fn lemma_append(label: Seq<char>, children: Seq<Tree>, child: Tree)
    ensures
        (Tree::Group { label, children }).with_child(child) == (Tree::Group {
            label,
            children: children + seq![child],
        }),
{
    assert(children.push(child) =~= children + seq![child]);
}

/// Position 0 of the walk is the root.
pub proof fn lemma_root_first(tree: Tree)
    ensures
        tree.preorder().len() >= 1,
        tree.preorder()[0] == tree,
{
}

/// In the walk of a group, the walk of its child at `k` begins after the
/// group itself and the walks of the children before it.
pub proof fn lemma_child_positions(tree: Tree, k: int, j: int)
    requires
        tree is Group,
        0 <= k < tree->children.len(),
        0 <= j < tree->children[k].size(),
    ensures
        1 + Tree::total(tree->children.take(k)) + j < tree.size(),
        tree.preorder()[1 + Tree::total(tree->children.take(k)) + j]
            == tree->children[k].preorder()[j],
{
    lemma_flatten_index(tree->children, k, j);
    lemma_flatten_len(tree->children);
}

/// To replace the node at a position by itself changes nothing.
pub proof fn lemma_replace_same(tree: Tree, index: nat)
    requires
        index < tree.size(),
    ensures
        tree.replace_at(index, tree.preorder()[index as int]) == tree,
    decreases tree,
{
    if index > 0 {
        let children = tree->children;
        lemma_replace_same_in(children, (index - 1) as nat);
        lemma_flatten_len(children);
    }
}

/// To replace a node of a forest by itself changes nothing.
pub proof fn lemma_replace_same_in(forest: Seq<Tree>, index: nat)
    requires
        index < Tree::total(forest),
    ensures
        Tree::replace_in(forest, index, Tree::flatten(forest)[index as int]) == forest,
    decreases forest,
{
    let front = forest.drop_last();
    lemma_flatten_len(front);
    lemma_preorder_len(forest.last());
    if index < Tree::total(front) {
        lemma_replace_same_in(front, index);
        assert(front.push(forest.last()) =~= forest);
    } else {
        lemma_replace_same(forest.last(), (index - Tree::total(front)) as nat);
        assert(front.push(forest.last()) =~= forest);
    }
}

/// After the node at a position is replaced, the walk has the new node at
/// that position.
pub proof fn lemma_replace_then_read(tree: Tree, index: nat, node: Tree)
    requires
        index < tree.size(),
    ensures
        index < tree.replace_at(index, node).size(),
        tree.replace_at(index, node).preorder()[index as int] == node,
    decreases tree,
{
    lemma_root_first(node);
    lemma_preorder_len(node);
    if index > 0 {
        let children = tree->children;
        lemma_replace_then_read_in(children, (index - 1) as nat, node);
        lemma_flatten_len(Tree::replace_in(children, (index - 1) as nat, node));
    }
}

/// After a node of a forest is replaced, the walk of the forest has the new
/// node at that position.
pub proof fn lemma_replace_then_read_in(forest: Seq<Tree>, index: nat, node: Tree)
    requires
        index < Tree::total(forest),
    ensures
        index < Tree::total(Tree::replace_in(forest, index, node)),
        Tree::flatten(Tree::replace_in(forest, index, node))[index as int] == node,
    decreases forest,
{
    let front = forest.drop_last();
    let after = Tree::replace_in(forest, index, node);
    lemma_flatten_len(front);
    if index < Tree::total(front) {
        lemma_replace_then_read_in(front, index, node);
        let changed = Tree::replace_in(front, index, node);
        assert(after.drop_last() =~= changed);
        assert(after.last() == forest.last());
        lemma_flatten_len(changed);
    } else {
        let inner = (index - Tree::total(front)) as nat;
        lemma_replace_then_read(forest.last(), inner, node);
        let changed = forest.last().replace_at(inner, node);
        assert(after.drop_last() =~= front);
        assert(after.last() == changed);
        lemma_preorder_len(changed);
    }
}

/// To set every flag changes no node's place: the walk of the marked tree
/// is the walk of the tree, each node marked.
pub proof fn lemma_marked_walk(tree: Tree, value: bool)
    ensures
        tree.marked(value).preorder() == Tree::marked_all(tree.preorder(), value),
    decreases tree,
{
    match tree {
        Tree::Group { label, children } => {
            assert(tree.marked(value)->children =~= Tree::marked_all(children, value));
            lemma_marked_walk_in(children, value);
            assert(tree.marked(value).preorder() =~= Tree::marked_all(tree.preorder(), value));
        },
        Tree::Leaf { .. } => {
            assert(tree.marked(value).preorder() =~= Tree::marked_all(tree.preorder(), value));
        },
    }
}

/// The walk of a marked forest is the walk of the forest, each node marked.
pub proof fn lemma_marked_walk_in(forest: Seq<Tree>, value: bool)
    ensures
        Tree::flatten(Tree::marked_all(forest, value)) == Tree::marked_all(
            Tree::flatten(forest),
            value,
        ),
    decreases forest,
{
    let marked = Tree::marked_all(forest, value);
    if forest.len() == 0 {
        assert(Tree::flatten(marked) =~= Tree::marked_all(Tree::flatten(forest), value));
    } else {
        lemma_marked_walk_in(forest.drop_last(), value);
        lemma_marked_walk(forest.last(), value);
        assert(marked.drop_last() =~= Tree::marked_all(forest.drop_last(), value));
        assert(Tree::flatten(marked) =~= Tree::marked_all(Tree::flatten(forest), value));
    }
}

/// Marking cascades: the marked tree has as many nodes as the tree; each
/// node keeps its place, its kind and its label, whatever its depth; and
/// every task in it has the flag `value`.
pub proof fn lemma_mark_cascade(tree: Tree, value: bool)
    ensures
        tree.marked(value).size() == tree.size(),
        tree.marked(value).preorder().len() == tree.preorder().len(),
        forall|i: int|
            0 <= i < tree.preorder().len() ==> {
                let before = tree.preorder()[i];
                let after = #[trigger] tree.marked(value).preorder()[i];
                &&& after.label() == before.label()
                &&& after is Group <==> before is Group
                &&& after is Leaf ==> after->done == value
            },
{
    lemma_marked_walk(tree, value);
    lemma_preorder_len(tree);
    lemma_preorder_len(tree.marked(value));
}

} // verus!
