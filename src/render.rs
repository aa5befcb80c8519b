//! A drawing of a tree, one line per node, with box-drawing guides.
use vstd::prelude::*;
use vstd::string::*;
use crate::tree::{Node, depth};

verus! {

/// The generation recorded last in `open`; zero when nothing is recorded.
pub open spec fn current_gen(open: Seq<u32>) -> int {
    if open.len() == 0 {
        0
    } else {
        open.last() as int
    }
}

/// The guides of generations `from` up to, not including, `to`: a vertical
/// bar where `open` still has a sibling to draw below, a space elsewhere.
pub open spec fn guides(open: Seq<u32>, from: int, to: int) -> Seq<char>
    decreases to - from,
{
    if from >= to {
        Seq::empty()
    } else {
        seq![
            if exists|k: int| 0 <= k < open.len() && open[k] == from {
                '║'
            } else {
                ' '
            },
        ] + guides(open, from + 1, to)
    }
}

/// The drawing of `t`. `open` lists the generations whose subtrees still have
/// a sibling below, its last entry the generation of `t`; `last` marks `t` as
/// the final child of its parent.
pub open spec fn drawing(t: Node, last: bool, open: Seq<u32>) -> Seq<char>
    decreases t,
{
    let g = current_gen(open);
    let kept = if last && open.len() > 0 {
        open.drop_last()
    } else {
        open
    };
    let pad = guides(kept, 1, g);
    match t {
        Node::Leaf => pad + if last {
            "╚Leaf\n"@
        } else {
            "╠Leaf\n"@
        },
        Node::Branch(bx) => pad + (if g == 0 {
            "Root\n"@
        } else if last {
            "╚Branch\n"@
        } else {
            "╠Branch\n"@
        }) + drawing(bx.0, false, kept.push((g + 1) as u32)) + drawing(
            bx.1,
            true,
            kept.push((g + 1) as u32),
        ),
    }
}

fn holds(v: &Vec<u32>, x: u32) -> (r: bool)
    ensures
        r == exists|k: int| 0 <= k < v@.len() && v@[k] == x,
{
    let mut i: usize = 0;
    while i < v.len()
        invariant
            i <= v@.len(),
            forall|k: int| 0 <= k < i ==> v@[k] != x,
        decreases v@.len() - i,
    {
        if v[i] == x {
            return true;
        }
        i = i + 1;
    }
    false
}

/// Draws `tree` one node per line: the root as `Root`, every other node as
/// `Branch` or `Leaf` behind `╠` (more siblings follow) or `╚` (the last
/// child), indented by guides for the generations above it.
pub fn print_tree(tree: &Node, last: bool, branches: Vec<u32>) -> (r: String)
    requires
        current_gen(branches@) + depth(*tree) < u32::MAX,
    ensures
        r@ == drawing(*tree, last, branches@),
    decreases tree,
{
    let generations: u32 = if branches.len() == 0 {
        0
    } else {
        branches[branches.len() - 1]
    };
    let mut branches = branches;
    let ghost open = branches@;
    if last && branches.len() > 0 {
        branches.pop();
        proof {
            assert(branches@ =~= open.drop_last());
        }
    }
    let mut res = String::new();
    let mut i: u32 = 1;
    while i < generations
        invariant
            1 <= i,
            res@ + guides(branches@, i as int, generations as int) == guides(
                branches@,
                1,
                generations as int,
            ),
        decreases generations - i,
    {
        let bar = holds(&branches, i);
        proof {
            reveal_strlit("║");
            reveal_strlit(" ");
        }
        if bar {
            res.append("║");
        } else {
            res.append(" ");
        }
        proof {
            assert(res@ + guides(branches@, i + 1, generations as int) =~= guides(
                branches@,
                1,
                generations as int,
            ));
        }
        i = i + 1;
    }
    proof {
        assert(res@ =~= guides(branches@, 1, generations as int));
    }
    match tree {
        Node::Leaf => {
            proof {
                reveal_strlit("╚Leaf\n");
                reveal_strlit("╠Leaf\n");
            }
            if last {
                res.append("╚Leaf\n");
            } else {
                res.append("╠Leaf\n");
            }
            res
        },
        Node::Branch(bx) => {
            proof {
                reveal_strlit("Root\n");
                reveal_strlit("╚Branch\n");
                reveal_strlit("╠Branch\n");
            }
            if generations == 0 {
                res.append("Root\n");
            } else if last {
                res.append("╚Branch\n");
            } else {
                res.append("╠Branch\n");
            }
            let mut first_kids = branches.clone();
            let mut second_kids = branches.clone();
            proof {
                assert(first_kids@ =~= branches@);
                assert(second_kids@ =~= branches@);
            }
            first_kids.push(generations + 1);
            let left = print_tree(&bx.0, false, first_kids);
            res.append(left.as_str());
            second_kids.push(generations + 1);
            let right = print_tree(&bx.1, true, second_kids);
            res.append(right.as_str());
            res
        },
    }
}

} // verus!
