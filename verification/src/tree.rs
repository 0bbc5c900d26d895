//! An arena of labelled nodes, each listing its children in order. A node is
//! always added after its children, so following children goes to smaller
//! indices.

use vstd::prelude::*;
use crate::bit_set::Bitset;
use crate::term::Term;
use crate::{Label, NodeId};

verus! {

/// One node of a [`Tree`]: its label and the indices of its children.
#[derive(Debug)]
pub struct TreeNode {
    item: Label,
    children: Vec<NodeId>,
}

/// A forest of labelled nodes, stored by index.
#[derive(Debug)]
pub struct Tree {
    nodes: Vec<TreeNode>,
}

impl Tree {
    /// The number of nodes.
    pub closed spec fn len(&self) -> nat {
        self.nodes@.len()
    }

    /// The label of node `id`.
    pub closed spec fn label(&self, id: nat) -> Label {
        self.nodes@[id as int].item
    }

    /// The children of node `id`, in order.
    pub closed spec fn children(&self, id: nat) -> Seq<NodeId> {
        self.nodes@[id as int].children@
    }

    /// Every child of a node has a smaller index than the node.
    pub open spec fn wf(&self) -> bool {
        forall|id: nat, j: int|
            id < self.len() && 0 <= j < self.children(id).len() ==> #[trigger] self.children(
                id,
            )[j] < id
    }

    /// No node has more than 255 children.
    pub open spec fn small_arity(&self) -> bool {
        forall|id: nat| id < self.len() ==> #[trigger] self.children(id).len() <= 255
    }

    /// The empty tree.
    pub fn new() -> (r: Tree)
        ensures
            r.len() == 0,
            r.wf(),
            r.small_arity(),
    {
        Tree { nodes: Vec::new() }
    }

    /// Adds a node with the given label and children, and returns its index.
    pub fn add_node(&mut self, item: Label, children: &[NodeId]) -> (id: NodeId)
        requires
            old(self).wf(),
            forall|j: int| 0 <= j < children@.len() ==> children@[j] < old(self).len(),
        ensures
            final(self).wf(),
            old(self).small_arity() && children@.len() <= 255 ==> final(self).small_arity(),
            id == old(self).len(),
            final(self).len() == old(self).len() + 1,
            final(self).label(id as nat) == item,
            final(self).children(id as nat) == children@,
            forall|k: nat|
                k < old(self).len() ==> final(self).label(k) == old(self).label(k)
                    && final(self).children(k) == old(self).children(k),
    {
        let id = self.nodes.len();
        let mut kids: Vec<NodeId> = Vec::new();
        let n = children.len();
        for j in 0..n
            invariant
                n == children@.len(),
                kids@ == children@.take(j as int),
        {
            kids.push(children[j]);
        }
        assert(kids@ == children@);
        self.nodes.push(TreeNode { item, children: kids });
        assert forall|k: nat, j: int|
            k < self.len() && 0 <= j < self.children(k).len() implies #[trigger] self.children(
                k,
            )[j] < k by {
            if k < id {
                assert(self.children(k) == old(self).children(k));
            }
        }
        assert(old(self).small_arity() && children@.len() <= 255 ==> self.small_arity()) by {
            if old(self).small_arity() && children@.len() <= 255 {
                assert forall|k: nat| k < self.len() implies #[trigger] self.children(k).len()
                    <= 255 by {
                    if k < id {
                        assert(self.children(k) == old(self).children(k));
                    }
                }
            }
        }
        id
    }

    /// The label of node `id`.
    pub fn item(&self, id: NodeId) -> (r: Label)
        requires
            id < self.len(),
        ensures
            r == self.label(id as nat),
    {
        self.nodes[id].item
    }

    /// The number of children of node `id`.
    pub fn nb_children(&self, id: NodeId) -> (r: usize)
        requires
            id < self.len(),
        ensures
            r == self.children(id as nat).len(),
    {
        self.nodes[id].children.len()
    }

    /// Whether node `id` has children.
    pub fn has_children(&self, id: NodeId) -> (r: bool)
        requires
            id < self.len(),
        ensures
            r == (self.children(id as nat).len() > 0),
    {
        self.nodes[id].children.len() > 0
    }

    /// The `index`-th child of node `id`.
    pub fn child(&self, id: NodeId, index: usize) -> (r: NodeId)
        requires
            id < self.len(),
            index < self.children(id as nat).len(),
        ensures
            r == self.children(id as nat)[index as int],
    {
        self.nodes[id].children[index]
    }

    /// The `index`-th child of node `id`, or `None` if it has fewer children.
    pub fn nth_child(&self, id: NodeId, index: usize) -> (r: Option<NodeId>)
        requires
            id < self.len(),
        ensures
            r == (if index < self.children(id as nat).len() {
                Some(self.children(id as nat)[index as int])
            } else {
                None
            }),
    {
        if index < self.nodes[id].children.len() {
            Some(self.nodes[id].children[index])
        } else {
            None
        }
    }
}

/// The term rooted at node `id` of `tree`, where a node is a variable when
/// `vars` holds its index.
pub open spec fn term_at(tree: Tree, vars: Bitset, id: nat) -> Term
    decreases id,
{
    Term {
        label: tree.label(id),
        is_var: vars.has(id),
        args: Seq::new(
            tree.children(id).len(),
            |j: int|
                if 0 <= j < tree.children(id).len() && tree.children(id)[j] < id {
                    term_at(tree, vars, tree.children(id)[j] as nat)
                } else {
                    crate::term::leaf(0, false)
                },
        ),
    }
}

/// The subterms of the term at node `id` are the terms at its children.
pub proof fn lemma_term_at_args(tree: &Tree, vars: Bitset, id: nat)
    requires
        tree.wf(),
        id < tree.len(),
    ensures
        term_at(*tree, vars, id).label == tree.label(id),
        term_at(*tree, vars, id).is_var == vars.has(id),
        term_at(*tree, vars, id).args.len() == tree.children(id).len(),
        forall|j: int|
            0 <= j < tree.children(id).len() ==> #[trigger] term_at(*tree, vars, id).args[j]
                == term_at(*tree, vars, tree.children(id)[j] as nat) && tree.children(id)[j] < id,
{
    assert forall|j: int| 0 <= j < tree.children(id).len() implies tree.children(id)[j] < id by {
        assert(tree.children(id)[j] < id);
    }
}

/// The term at a node depends only on the nodes and flags at indices up to it.
pub proof fn lemma_term_at_frame(t1: &Tree, v1: Bitset, t2: &Tree, v2: Bitset, id: nat)
    requires
        forall|k: nat|
            k <= id ==> t1.label(k) == t2.label(k) && t1.children(k) == t2.children(k) && v1.has(k)
                == v2.has(k),
    ensures
        term_at(*t1, v1, id) == term_at(*t2, v2, id),
    decreases id,
{
    let a = term_at(*t1, v1, id);
    let b = term_at(*t2, v2, id);
    assert forall|j: int| 0 <= j < a.args.len() implies a.args[j] == b.args[j] by {
        let c = t1.children(id)[j];
        if c < id {
            lemma_term_at_frame(t1, v1, t2, v2, c as nat);
        }
    }
    assert(a.args =~= b.args);
}

/// Whatever the variable flags, the terms at one node of a tree are equal in
/// the sense of `sub_equal`.
pub proof fn lemma_sub_equal_flags(tree: &Tree, v1: Bitset, v2: Bitset, id: nat)
    requires
        tree.wf(),
        id < tree.len(),
    ensures
        crate::term::sub_equal(term_at(*tree, v1, id), term_at(*tree, v2, id)),
    decreases id,
{
    lemma_term_at_args(tree, v1, id);
    lemma_term_at_args(tree, v2, id);
    let a = term_at(*tree, v1, id);
    let b = term_at(*tree, v2, id);
    assert forall|i: int|
        #![trigger a.args[i]]
        0 <= i < a.args.len() implies crate::term::sub_equal(
            a.args[i],
            b.args[i],
        ) by {
        lemma_sub_equal_flags(tree, v1, v2, tree.children(id)[i] as nat);
    }
}

} // verus!
