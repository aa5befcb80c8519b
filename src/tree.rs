//! The tree type, its mathematical measures and the executable counters.
use vstd::prelude::*;

verus! {

/// A binary tree: a terminal `Leaf`, or a `Branch` owning a left and a right child.
#[derive(Debug)]
pub enum Node {
    Leaf,
    Branch(Box<(Node, Node)>),
}

/// Number of leaves of `t`.
pub open spec fn leaves(t: Node) -> nat
    decreases t,
{
    match t {
        Node::Leaf => 1,
        Node::Branch(bx) => leaves(bx.0) + leaves(bx.1),
    }
}

/// Number of branch (internal) nodes of `t`.
pub open spec fn branches(t: Node) -> nat
    decreases t,
{
    match t {
        Node::Leaf => 0,
        Node::Branch(bx) => 1 + branches(bx.0) + branches(bx.1),
    }
}

/// Number of nodes of `t`, leaves and branches alike.
pub open spec fn nodes(t: Node) -> nat
    decreases t,
{
    match t {
        Node::Leaf => 1,
        Node::Branch(bx) => 1 + nodes(bx.0) + nodes(bx.1),
    }
}

/// The deepest generation of `t`: edges on the longest path from the root.
pub open spec fn depth(t: Node) -> nat
    decreases t,
{
    match t {
        Node::Leaf => 0,
        Node::Branch(bx) => 1 + if depth(bx.0) >= depth(bx.1) {
            depth(bx.0)
        } else {
            depth(bx.1)
        },
    }
}

/// Every tree has as many nodes as it has leaves and branches together.
pub proof fn lemma_nodes_are_leaves_plus_branches(t: Node)
    ensures
        nodes(t) == leaves(t) + branches(t),
    decreases t,
{
    if let Node::Branch(bx) = t {
        lemma_nodes_are_leaves_plus_branches(bx.0);
        lemma_nodes_are_leaves_plus_branches(bx.1);
    }
}

/// Leaves, branches and depth never exceed the node count.
pub proof fn lemma_measures_bounded_by_nodes(t: Node)
    ensures
        leaves(t) <= nodes(t),
        branches(t) < nodes(t),
        depth(t) < nodes(t),
    decreases t,
{
    lemma_nodes_are_leaves_plus_branches(t);
    if let Node::Branch(bx) = t {
        lemma_measures_bounded_by_nodes(bx.0);
        lemma_measures_bounded_by_nodes(bx.1);
    }
}

/// A bare leaf is generation zero.
pub proof fn lemma_leaf_depth()
    ensures
        depth(Node::Leaf) == 0,
{
}

/// Counts the leaves of `tree`.
pub fn count_leaves(tree: &Node) -> (r: u32)
    requires
        nodes(*tree) <= u32::MAX,
    ensures
        r == leaves(*tree),
    decreases tree,
{
    proof {
        lemma_measures_bounded_by_nodes(*tree);
    }
    match tree {
        Node::Leaf => 1,
        Node::Branch(bx) => {
            proof {
                lemma_measures_bounded_by_nodes(bx.0);
                lemma_measures_bounded_by_nodes(bx.1);
            }
            count_leaves(&bx.0) + count_leaves(&bx.1)
        },
    }
}

/// Counts the branch nodes of `tree`.
pub fn count_branches(tree: &Node) -> (r: u32)
    requires
        nodes(*tree) <= u32::MAX,
    ensures
        r == branches(*tree),
    decreases tree,
{
    proof {
        lemma_measures_bounded_by_nodes(*tree);
    }
    match tree {
        Node::Leaf => 0,
        Node::Branch(bx) => {
            proof {
                lemma_measures_bounded_by_nodes(bx.0);
                lemma_measures_bounded_by_nodes(bx.1);
            }
            1 + count_branches(&bx.0) + count_branches(&bx.1)
        },
    }
}

/// Counts every node of `tree`.
pub fn count_nodes(tree: &Node) -> (r: u32)
    requires
        nodes(*tree) <= u32::MAX,
    ensures
        r == nodes(*tree),
    decreases tree,
{
    match tree {
        Node::Leaf => 1,
        Node::Branch(bx) => 1 + count_nodes(&bx.0) + count_nodes(&bx.1),
    }
}

/// The deepest generation reached by `tree`; a bare leaf is generation zero.
pub fn count_generations(tree: &Node) -> (r: u32)
    requires
        nodes(*tree) <= u32::MAX,
    ensures
        r == depth(*tree),
    decreases tree,
{
    proof {
        lemma_measures_bounded_by_nodes(*tree);
    }
    match tree {
        Node::Leaf => 0,
        Node::Branch(bx) => {
            proof {
                lemma_measures_bounded_by_nodes(bx.0);
                lemma_measures_bounded_by_nodes(bx.1);
            }
            let l = count_generations(&bx.0);
            let r = count_generations(&bx.1);
            1 + if l >= r {
                l
            } else {
                r
            }
        },
    }
}

/// Takes a branch apart into its left and right children; a leaf has none.
impl TryFrom<Node> for (Node, Node) {
    type Error = &'static str;

    fn try_from(value: Node) -> (r: Result<(Node, Node), &'static str>) {
        match value {
            Node::Branch(bx) => Ok((bx.0, bx.1)),
            _ => Err("Not a branch"),
        }
    }
}

impl vstd::std_specs::convert::TryFromSpecImpl<Node> for (Node, Node) {
    open spec fn obeys_try_from_spec() -> bool {
        true
    }

    open spec fn try_from_spec(value: Node) -> Result<(Node, Node), &'static str> {
        match value {
            Node::Branch(bx) => Ok((bx.0, bx.1)),
            _ => Err("Not a branch"),
        }
    }
}

} // verus!
