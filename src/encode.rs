//! Per-generation structural encoding of a tree's shape.
use vstd::prelude::*;
use vstd::string::*;
use crate::tree::{Node, nodes, depth, lemma_measures_bounded_by_nodes};

verus! {

/// The symbols met, left to right, at generation `seek` of the subtree `t`
/// whose root stands at generation `gen`: `'0'` for a leaf, `'1'` for a branch.
pub open spec fn row(t: Node, seek: nat, gen: nat) -> Seq<char>
    decreases t,
{
    if gen == seek {
        match t {
            Node::Leaf => seq!['0'],
            Node::Branch(_) => seq!['1'],
        }
    } else {
        match t {
            Node::Leaf => Seq::empty(),
            Node::Branch(bx) => row(bx.0, seek, gen + 1) + row(bx.1, seek, gen + 1),
        }
    }
}

/// The number of paths of `t` still alive `g` generations below its root.
pub open spec fn width(t: Node, g: nat) -> nat
    decreases t,
{
    if g == 0 {
        1
    } else {
        match t {
            Node::Leaf => 0,
            Node::Branch(bx) => width(bx.0, (g - 1) as nat) + width(bx.1, (g - 1) as nat),
        }
    }
}

/// The rows of generations `from` to `last` of `t`, concatenated in order.
pub open spec fn rows(t: Node, from: nat, last: nat) -> Seq<char>
    decreases last + 1 - from,
{
    if from > last {
        Seq::empty()
    } else {
        row(t, from, 0) + rows(t, from + 1, last)
    }
}

/// The number of alive paths summed over generations `from` to `last`.
pub open spec fn widths(t: Node, from: nat, last: nat) -> nat
    decreases last + 1 - from,
{
    if from > last {
        0
    } else {
        width(t, from) + widths(t, from + 1, last)
    }
}

/// The encoding of `t`: its rows from generation two down to its deepest.
pub open spec fn encoding(t: Node) -> Seq<char> {
    rows(t, 2, depth(t))
}

/// A row holds one symbol for each path alive at that generation.
pub proof fn lemma_row_len(t: Node, seek: nat, gen: nat)
    ensures
        row(t, seek, gen).len() == if gen <= seek {
            width(t, (seek - gen) as nat)
        } else {
            0
        },
    decreases t,
{
    if gen != seek {
        if let Node::Branch(bx) = t {
            lemma_row_len(bx.0, seek, gen + 1);
            lemma_row_len(bx.1, seek, gen + 1);
        }
    }
}

/// The length of a run of rows is the number of alive paths over those generations.
pub proof fn lemma_rows_len(t: Node, from: nat, last: nat)
    ensures
        rows(t, from, last).len() == widths(t, from, last),
    decreases last + 1 - from,
{
    if from <= last {
        lemma_row_len(t, from, 0);
        lemma_rows_len(t, from + 1, last);
    }
}

/// The encoding holds exactly one symbol per path alive at each generation
/// from two down to the tree's deepest.
pub proof fn lemma_encoding_len(t: Node)
    ensures
        encoding(t).len() == widths(t, 2, depth(t)),
{
    lemma_rows_len(t, 2, depth(t));
}

/// The symbols of the nodes at generation `seek_gen`, left to right, in the
/// subtree `tree` whose root stands at generation `gen`.
pub fn get_nodes_at_generation(tree: &Node, seek_gen: u32, gen: u32) -> (r: String)
    ensures
        r@ == row(*tree, seek_gen as nat, gen as nat),
    decreases tree,
{
    if gen == seek_gen {
        let mut s = String::new();
        match tree {
            Node::Leaf => {
                proof {
                    reveal_strlit("0");
                }
                s.append("0");
            },
            Node::Branch(_) => {
                proof {
                    reveal_strlit("1");
                }
                s.append("1");
            },
        }
        proof {
            assert(s@ =~= row(*tree, seek_gen as nat, gen as nat));
        }
        s
    } else if gen > seek_gen {
        proof {
            lemma_row_len(*tree, seek_gen as nat, gen as nat);
        }
        String::new()
    } else {
        match tree {
            Node::Leaf => String::new(),
            Node::Branch(bx) => {
                let mut s = get_nodes_at_generation(&bx.0, seek_gen, gen + 1);
                let t = get_nodes_at_generation(&bx.1, seek_gen, gen + 1);
                s.append(t.as_str());
                s
            },
        }
    }
}

/// The structural encoding of `tree`: the rows of generations two to its
/// deepest, concatenated.
pub fn tree_to_string(tree: &Node) -> (r: String)
    requires
        nodes(*tree) <= u32::MAX,
    ensures
        r@ == encoding(*tree),
{
    let last = crate::tree::count_generations(tree);
    proof {
        lemma_measures_bounded_by_nodes(*tree);
    }
    let mut acc = String::new();
    let mut i: u32 = 2;
    while i <= last
        invariant
            last == depth(*tree),
            last < u32::MAX,
            2 <= i <= last + 1 || (i == 2 && last < 2),
            acc@ + rows(*tree, i as nat, last as nat) == encoding(*tree),
        decreases last + 1 - i,
    {
        let part = get_nodes_at_generation(tree, i, 0);
        proof {
            assert(rows(*tree, i as nat, last as nat) == part@ + rows(*tree, (i + 1) as nat, last as nat));
            assert(acc@ + part@ + rows(*tree, (i + 1) as nat, last as nat) =~= acc@ + rows(*tree, i as nat, last as nat));
        }
        acc.append(part.as_str());
        i = i + 1;
    }
    proof {
        assert(rows(*tree, i as nat, last as nat) =~= Seq::<char>::empty());
        assert(acc@ =~= acc@ + rows(*tree, i as nat, last as nat));
    }
    acc
}

} // verus!
