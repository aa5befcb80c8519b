use branching_trees::encode::{get_nodes_at_generation, tree_to_string};
use branching_trees::generate::{
    draw, generate_tree, replay_tree, right_grows, terminates, TreeError, MAX_DEPTH_CEILING,
};
use branching_trees::render::print_tree;
use branching_trees::stats::{check_stats, summarize};
use branching_trees::tree::{count_branches, count_generations, count_leaves, count_nodes, Node};

fn branch(l: Node, r: Node) -> Node {
    Node::Branch(Box::new((l, r)))
}

/// Root over two branches; the left one has a branch on its right.
fn sample_tree() -> Node {
    branch(
        branch(Node::Leaf, branch(Node::Leaf, Node::Leaf)),
        branch(Node::Leaf, Node::Leaf),
    )
}

#[test]
fn leaf_measures() {
    let t = Node::Leaf;
    assert_eq!(count_leaves(&t), 1);
    assert_eq!(count_branches(&t), 0);
    assert_eq!(count_nodes(&t), 1);
    assert_eq!(count_generations(&t), 0);
}

#[test]
fn sample_tree_measures() {
    let t = sample_tree();
    assert_eq!(count_leaves(&t), 5);
    assert_eq!(count_branches(&t), 4);
    assert_eq!(count_nodes(&t), 9);
    assert_eq!(count_generations(&t), 3);
    assert_eq!(count_nodes(&t), count_leaves(&t) + count_branches(&t));
}

#[test]
fn measures_repeat() {
    let t = sample_tree();
    assert_eq!(count_leaves(&t), count_leaves(&t));
    assert_eq!(count_branches(&t), count_branches(&t));
    assert_eq!(count_nodes(&t), count_nodes(&t));
    assert_eq!(count_generations(&t), count_generations(&t));
}

#[test]
fn rows_of_sample_tree() {
    let t = sample_tree();
    assert_eq!(get_nodes_at_generation(&t, 0, 0), "1");
    assert_eq!(get_nodes_at_generation(&t, 1, 0), "11");
    assert_eq!(get_nodes_at_generation(&t, 2, 0), "0100");
    assert_eq!(get_nodes_at_generation(&t, 3, 0), "00");
    assert_eq!(get_nodes_at_generation(&t, 4, 0), "");
    assert_eq!(get_nodes_at_generation(&t, 1, 3), "");
}

#[test]
fn encoding_of_sample_tree() {
    let t = sample_tree();
    let e = tree_to_string(&t);
    assert_eq!(e, "010000");
    assert_eq!(tree_to_string(&t), e);
    // one symbol per path alive at generations two and three
    assert_eq!(e.len(), 4 + 2);
}

#[test]
fn encoding_of_shallow_trees() {
    assert_eq!(tree_to_string(&Node::Leaf), "");
    assert_eq!(tree_to_string(&branch(Node::Leaf, Node::Leaf)), "");
}

#[test]
fn take_apart() {
    let parts = <(Node, Node)>::try_from(branch(Node::Leaf, branch(Node::Leaf, Node::Leaf)));
    let (l, r) = parts.unwrap();
    assert_eq!(count_nodes(&l), 1);
    assert_eq!(count_nodes(&r), 3);
    assert_eq!(<(Node, Node)>::try_from(Node::Leaf).err(), Some("Not a branch"));
}

#[test]
fn decisions_on_draws() {
    assert!(terminates(6, 3, 10));
    assert!(!terminates(7, 3, 10));
    assert!(!terminates(0, 10, 10));
    assert!(!terminates(0, 12, 10));
    assert!(terminates(9, 0, 10));
    assert!(right_grows(2, 3));
    assert!(!right_grows(3, 3));
}

#[test]
fn draws_stay_below_bound() {
    for _ in 0..200 {
        assert!(draw(10, true) < 10);
        assert!(draw(10, false) < 10);
    }
    assert_eq!(draw(1, true), 0);
    assert_eq!(draw(1, false), 0);
}

#[test]
fn zero_probability_gives_forced_shape() {
    for fast in [true, false] {
        for _ in 0..20 {
            let t = generate_tree(0, 10, fast, 12).unwrap();
            assert_eq!(count_leaves(&t), 4);
            assert_eq!(count_branches(&t), 3);
            assert_eq!(count_nodes(&t), 7);
            assert_eq!(count_generations(&t), 2);
            assert_eq!(tree_to_string(&t), "0000");
        }
    }
}

#[test]
fn certain_growth_fills_to_ceiling() {
    let mut previous = 0;
    for ceiling in 2..=10u32 {
        let t = generate_tree(10, 10, true, ceiling).unwrap();
        let leaves = count_leaves(&t);
        assert_eq!(leaves, 1u32 << ceiling);
        assert_eq!(count_generations(&t), ceiling);
        assert!(leaves >= previous);
        previous = leaves;
    }
    let t = generate_tree(15, 10, false, 5).unwrap();
    assert_eq!(count_leaves(&t), 32);
}

#[test]
fn generated_invariants() {
    for _ in 0..200 {
        let t = generate_tree(50, 100, true, 20).unwrap();
        assert_eq!(count_nodes(&t), count_leaves(&t) + count_branches(&t));
        let g = count_generations(&t);
        assert!(g >= 2 && g <= 20);
        let e = tree_to_string(&t);
        assert!(e.chars().all(|c| c == '0' || c == '1'));
        assert_eq!(tree_to_string(&t), e);
        let alive: usize = (2..=g).map(|i| get_nodes_at_generation(&t, i, 0).len()).sum();
        assert_eq!(e.len(), alive);
    }
}

#[test]
fn generation_errors() {
    assert_eq!(generate_tree(1, 0, true, 10).err(), Some(TreeError::ZeroDenominator));
    assert_eq!(generate_tree(1, 2, true, 1).err(), Some(TreeError::CeilingOutOfRange));
    assert_eq!(
        generate_tree(1, 2, true, MAX_DEPTH_CEILING + 1).err(),
        Some(TreeError::CeilingOutOfRange)
    );
    assert!(generate_tree(1, 2, true, MAX_DEPTH_CEILING).is_ok());
}

#[test]
fn median_takes_upper_middle() {
    let s = summarize(vec![1, 2, 3, 4]).unwrap();
    assert_eq!(s.median, 3);
    assert_eq!(s.min, 1);
    assert_eq!(s.max, 4);
    assert_eq!(s.mean, 2);
    // deviations from the truncated mean 2: 1 + 0 + 1 + 4
    assert_eq!(s.squared_deviation, 6);
    assert_eq!(s.size, 4);
}

#[test]
fn median_of_unsorted_sample() {
    let s = summarize(vec![5, 1, 4, 2, 3]).unwrap();
    assert_eq!(s.median, 3);
    assert_eq!(s.min, 1);
    assert_eq!(s.max, 5);
    assert_eq!(s.mean, 3);
    assert_eq!(s.squared_deviation, 10);
}

#[test]
fn mean_truncates() {
    let s = summarize(vec![4, 4, 5]).unwrap();
    assert_eq!(s.mean, 4);
    assert_eq!(s.median, 4);
    assert_eq!(s.squared_deviation, 1);
}

#[test]
fn single_count_sample() {
    let s = summarize(vec![7]).unwrap();
    assert_eq!((s.min, s.median, s.max, s.mean), (7, 7, 7, 7));
    assert_eq!(s.squared_deviation, 0);
}

#[test]
fn large_counts_do_not_overflow() {
    let s = summarize(vec![u32::MAX, u32::MAX, 0]).unwrap();
    assert_eq!(s.mean, 2863311530);
    assert_eq!(s.max, u32::MAX);
    assert_eq!(s.min, 0);
}

#[test]
fn empty_sample_rejected() {
    assert_eq!(summarize(Vec::new()).err(), Some(TreeError::EmptySample));
    assert_eq!(check_stats(1, 2, true, 0, 10).err(), Some(TreeError::EmptySample));
    assert_eq!(check_stats(1, 0, true, 5, 10).err(), Some(TreeError::ZeroDenominator));
    assert_eq!(check_stats(1, 2, true, 5, 0).err(), Some(TreeError::CeilingOutOfRange));
}

#[test]
fn stats_of_one_tree() {
    let s = check_stats(1, 2, true, 1, 15).unwrap();
    assert_eq!(s.min, s.median);
    assert_eq!(s.median, s.max);
    assert_eq!(s.max, s.mean);
    assert_eq!(s.squared_deviation, 0);
    assert_eq!(s.size, 1);
}

#[test]
fn stats_without_growth() {
    let s = check_stats(0, 10, false, 25, 8).unwrap();
    assert_eq!((s.min, s.median, s.max, s.mean), (4, 4, 4, 4));
    assert_eq!(s.squared_deviation, 0);
    assert_eq!(s.size, 25);
}

#[test]
fn stats_with_certain_growth() {
    let mut previous = 0;
    for ceiling in 2..=8u32 {
        let s = check_stats(5, 5, true, 3, ceiling).unwrap();
        assert_eq!(s.min, 1 << ceiling);
        assert_eq!(s.max, 1 << ceiling);
        assert!(s.median >= previous);
        previous = s.median;
    }
}

#[test]
fn stats_ordering() {
    let s = check_stats(40, 100, true, 101, 20).unwrap();
    assert!(s.min >= 4);
    assert!(s.min <= s.median && s.median <= s.max);
    assert!(s.min <= s.mean && s.mean <= s.max);
}

#[test]
fn drawing_of_sample_tree() {
    let d = print_tree(&sample_tree(), false, Vec::new());
    assert_eq!(
        d,
        "Root\n╠Branch\n║╠Leaf\n║╚Branch\n║ ╠Leaf\n║ ╚Leaf\n╚Branch\n ╠Leaf\n ╚Leaf\n"
    );
    assert_eq!(print_tree(&sample_tree(), true, Vec::new()), d);
}

#[test]
fn drawing_of_leaves() {
    assert_eq!(print_tree(&Node::Leaf, false, Vec::new()), "╠Leaf\n");
    assert_eq!(print_tree(&Node::Leaf, true, Vec::new()), "╚Leaf\n");
    assert_eq!(print_tree(&Node::Leaf, true, vec![1, 3]), "║ ╚Leaf\n");
}

#[test]
fn replay_follows_draws() {
    // n / m = 3 / 10: a draw under 7 ends a node, a draw under 3 grows a right child
    let draws = vec![9, 0, 1, 0, 0, 8, 0, 5, 0];
    let t = replay_tree(&draws, 3, 10, 5).unwrap().unwrap();
    assert_eq!(count_leaves(&t), 6);
    assert_eq!(count_branches(&t), 5);
    assert_eq!(count_nodes(&t), 11);
    assert_eq!(count_generations(&t), 3);
    assert_eq!(tree_to_string(&t), "10100000");
}

#[test]
fn replay_left_always_grows() {
    // the outer branch's left child branches again; its right child stops on 5
    let draws = vec![9, 9, 0, 5, 5, 0, 0, 0];
    let t = replay_tree(&draws, 3, 10, 5).unwrap().unwrap();
    assert_eq!(tree_to_string(&t), "10001000");
    assert_eq!(count_generations(&t), 4);
    assert_eq!(count_leaves(&t), 6);
}

#[test]
fn replay_needs_one_complete_run() {
    assert!(replay_tree(&vec![9], 3, 10, 5).unwrap().is_none());
    assert!(replay_tree(&vec![0, 0, 0, 0, 0], 3, 10, 5).unwrap().is_none());
    let t = replay_tree(&vec![0, 0, 0, 0], 3, 10, 5).unwrap().unwrap();
    assert_eq!(count_leaves(&t), 4);
    assert_eq!(tree_to_string(&t), "0000");
}

#[test]
fn replay_at_ceiling_reads_nothing() {
    let t = replay_tree(&Vec::new(), 3, 10, 2).unwrap().unwrap();
    assert_eq!(count_nodes(&t), 7);
    assert!(replay_tree(&vec![0], 3, 10, 2).unwrap().is_none());
}

#[test]
fn replay_certain_growth() {
    // every node below the ceiling branches; one decision draw per right child
    let draws = vec![0, 9, 0, 9, 0, 9, 0, 9];
    let t = replay_tree(&draws, 10, 10, 3).unwrap().unwrap();
    assert_eq!(count_leaves(&t), 8);
    assert_eq!(tree_to_string(&t), "111100000000");
}

#[test]
fn replay_errors() {
    assert_eq!(replay_tree(&vec![0], 1, 0, 5).err(), Some(TreeError::ZeroDenominator));
    assert_eq!(replay_tree(&vec![0], 1, 2, 31).err(), Some(TreeError::CeilingOutOfRange));
}
