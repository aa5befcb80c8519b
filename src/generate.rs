//! The branching process that grows a tree from uniform random draws.
use vstd::prelude::*;
use rand::Rng;
use rand::rngs::OsRng;
use rand::rngs::adapter::ReseedingRng;
use rand_chacha::ChaCha20Core;
use rand_chacha::rand_core::SeedableRng;
use crate::tree::{Node, leaves, branches, nodes, depth};

verus! {

/// The largest depth ceiling accepted: it keeps every count of a generated
/// tree within `u32`.
pub const MAX_DEPTH_CEILING: u32 = 30;

/// Why a request was rejected.
#[derive(Debug, Clone, Copy, PartialEq, Eq, Structural)]
pub enum TreeError {
    /// The probability denominator `m` is zero.
    ZeroDenominator,
    /// The depth ceiling is below two or above `MAX_DEPTH_CEILING`.
    CeilingOutOfRange,
    /// A statistics sample of size zero was asked for.
    EmptySample,
}

/// Relies on rand's `thread_rng().gen_range(0..bound)`: a uniform draw from
/// `[0, bound)`. `gen_range` panics on an empty range, which `requires` rules
/// out; seeding the thread generator panics if the operating system has no
/// entropy to give, which no argument can rule out.
#[verifier::external_body]
fn fast_draw(bound: u32) -> (r: u32)
    requires
        bound > 0,
    ensures
        r < bound,
{
    rand::thread_rng().gen_range(0..bound)
}

/// Relies on rand's `ReseedingRng` over a `ChaCha20Core` seeded from the
/// operating system (`from_entropy`), reseeded from `OsRng`, and its
/// `gen_range(0..bound)`: a uniform draw from `[0, bound)`. `gen_range` panics
/// on an empty range, which `requires` rules out; `from_entropy` panics if the
/// operating system has no entropy to give, which no argument can rule out.
#[verifier::external_body]
fn secure_draw(bound: u32) -> (r: u32)
    requires
        bound > 0,
    ensures
        r < bound,
{
    ReseedingRng::new(ChaCha20Core::from_entropy(), 4, OsRng).gen_range(0..bound)
}

/// One uniform draw from `[0, bound)`, from the fast generator or from the
/// reseeding cryptographic one.
pub fn draw(bound: u32, fast_rng: bool) -> (r: u32)
    requires
        bound > 0,
    ensures
        r < bound,
{
    if fast_rng {
        fast_draw(bound)
    } else {
        secure_draw(bound)
    }
}

/// Whether a draw from `[0, m)` ends the process at a non-root node: it does
/// when the draw falls below `m - n`, which never happens when `n >= m`.
pub fn terminates(sample: u32, n: u32, m: u32) -> (r: bool)
    ensures
        r == (sample < m - n),
{
    n < m && sample < m - n
}

/// Whether a draw from `[0, m)` lets the right child of a new branch grow: it
/// does when the draw falls below `n`.
pub fn right_grows(sample: u32, n: u32) -> (r: bool)
    ensures
        r == (sample < n),
{
    sample < n
}

/// `t` is a possible outcome of the process at a non-root node of generation
/// `gen` with probability `n / m` and depth ceiling `ceil`. A node at the
/// ceiling is a leaf. Below it a node is a leaf unless `n >= m`, and a branch
/// unless `n == 0`; a branch's children are outcomes one generation down.
pub open spec fn grown(t: Node, n: nat, m: nat, gen: nat, ceil: nat) -> bool
    decreases t,
{
    if gen >= ceil {
        t is Leaf
    } else {
        match t {
            Node::Leaf => n < m,
            Node::Branch(bx) => n > 0 && grown(bx.0, n, m, gen + 1, ceil) && grown(
                bx.1,
                n,
                m,
                gen + 1,
                ceil,
            ),
        }
    }
}

/// `t` is a possible outcome of a whole tree: a root branch whose two
/// children are branches, whose four children are outcomes at generation two.
pub open spec fn generated(t: Node, n: nat, m: nat, ceil: nat) -> bool {
    match t {
        Node::Leaf => false,
        Node::Branch(root) => match (root.0, root.1) {
            (Node::Branch(a), Node::Branch(b)) => grown(a.0, n, m, 2, ceil) && grown(
                a.1,
                n,
                m,
                2,
                ceil,
            ) && grown(b.0, n, m, 2, ceil) && grown(b.1, n, m, 2, ceil),
            _ => false,
        },
    }
}

/// The subtree that the process grows at a non-root node of generation `gen`
/// from the draws `d`, read in order, with the number of draws it reads; `None`
/// when `d` runs out first. Below the ceiling a first draw under `m - n` makes
/// a leaf. Otherwise the node is a branch: its left child always grows from
/// the draws that follow, then one more draw decides the right child, which
/// grows from the rest when that draw is under `n` and is a leaf otherwise.
pub open spec fn outcome(d: Seq<u32>, n: nat, m: nat, gen: nat, ceil: nat) -> Option<(Node, nat)>
    decreases ceil - gen,
{
    if gen >= ceil {
        Some((Node::Leaf, 0))
    } else if d.len() == 0 {
        None
    } else if d[0] < m - n {
        Some((Node::Leaf, 1))
    } else {
        match outcome(d.skip(1), n, m, gen + 1, ceil) {
            None => None,
            Some((l, kl)) => {
                let at = 1 + kl;
                if at >= d.len() {
                    None
                } else if d[at as int] < n {
                    match outcome(d.skip((at + 1) as int), n, m, gen + 1, ceil) {
                        None => None,
                        Some((r, kr)) => Some((Node::Branch(Box::new((l, r))), at + 1 + kr)),
                    }
                } else {
                    Some((Node::Branch(Box::new((l, Node::Leaf))), at + 1))
                }
            },
        }
    }
}

/// A complete run reads a prefix of the draws; draws after it change nothing.
proof fn lemma_outcome_extends(d: Seq<u32>, e: Seq<u32>, n: nat, m: nat, gen: nat, ceil: nat)
    requires
        outcome(d, n, m, gen, ceil) is Some,
    ensures
        outcome(d, n, m, gen, ceil).unwrap().1 <= d.len(),
        outcome(d + e, n, m, gen, ceil) == outcome(d, n, m, gen, ceil),
    decreases ceil - gen,
{
    if gen < ceil {
        assert((d + e)[0] == d[0]);
        if d[0] >= m - n {
            assert((d + e).skip(1) =~= d.skip(1) + e);
            lemma_outcome_extends(d.skip(1), e, n, m, gen + 1, ceil);
            let kl = outcome(d.skip(1), n, m, gen + 1, ceil).unwrap().1;
            let at = 1 + kl;
            assert((d + e)[at as int] == d[at as int]);
            if d[at as int] < n {
                assert((d + e).skip((at + 1) as int) =~= d.skip((at + 1) as int) + e);
                lemma_outcome_extends(d.skip((at + 1) as int), e, n, m, gen + 1, ceil);
            }
        }
    }
}

/// Every complete run on draws from `[0, m)` is a possible outcome.
proof fn lemma_outcome_grown(d: Seq<u32>, n: nat, m: nat, gen: nat, ceil: nat)
    requires
        outcome(d, n, m, gen, ceil) is Some,
        forall|i: int| 0 <= i < d.len() ==> d[i] < m,
    ensures
        grown(outcome(d, n, m, gen, ceil).unwrap().0, n, m, gen, ceil),
    decreases ceil - gen,
{
    if gen < ceil {
        assert(d[0] < m);
        if d[0] >= m - n {
            let d1 = d.skip(1);
            assert(forall|i: int| 0 <= i < d1.len() ==> d1[i] == d[i + 1]);
            lemma_outcome_grown(d1, n, m, gen + 1, ceil);
            let kl = outcome(d1, n, m, gen + 1, ceil).unwrap().1;
            let at = 1 + kl;
            assert(d[at as int] < m);
            if d[at as int] < n {
                let d2 = d.skip((at + 1) as int);
                assert(forall|i: int| 0 <= i < d2.len() ==> d2[i] == d[i + at + 1]);
                lemma_outcome_grown(d2, n, m, gen + 1, ceil);
                let r = outcome(d2, n, m, gen + 1, ceil).unwrap().0;
                let l = outcome(d1, n, m, gen + 1, ceil).unwrap().0;
                assert(n > 0);
                assert(outcome(d, n, m, gen, ceil).unwrap().0 == Node::Branch(Box::new((l, r))));
            } else {
                let l = outcome(d1, n, m, gen + 1, ceil).unwrap().0;
                assert(n > 0);
                assert(grown(Node::Leaf, n, m, gen + 1, ceil));
                assert(outcome(d, n, m, gen, ceil).unwrap().0 == Node::Branch(Box::new((l, Node::Leaf))));
            }
        } else {
            assert(n < m);
        }
    }
}

/// `s` is a complete run of draws from `[0, m)` that grows exactly `t`.
pub open spec fn run(s: Seq<u32>, t: Node, n: nat, m: nat, gen: nat, ceil: nat) -> bool {
    &&& outcome(s, n, m, gen, ceil) == Some((t, s.len()))
    &&& forall|i: int| 0 <= i < s.len() ==> s[i] < m
}

/// A source of uniform draws that remembers, as ghost state, what it handed out.
struct Draws {
    fast_rng: bool,
    drawn: Ghost<Seq<u32>>,
}

impl Draws {
    spec fn log(&self) -> Seq<u32> {
        self.drawn@
    }

    fn new(fast_rng: bool) -> (r: Draws)
        ensures
            r.log() == Seq::<u32>::empty(),
    {
        Draws { fast_rng, drawn: Ghost(Seq::empty()) }
    }

    fn next(&mut self, bound: u32) -> (r: u32)
        requires
            bound > 0,
        ensures
            r < bound,
            final(self).log() == old(self).log().push(r),
    {
        let r = draw(bound, self.fast_rng);
        self.drawn = Ghost(self.drawn@.push(r));
        r
    }
}

/// Grows the subtree of a non-root node at generation `gen`.
#[verifier::rlimit(40)]
fn grow(src: &mut Draws, n: u32, m: u32, gen: u32, ceil: u32) -> (r: Node)
    requires
        m > 0,
        gen <= ceil,
    ensures
        old(src).log().len() <= final(src).log().len(),
        final(src).log().take(old(src).log().len() as int) == old(src).log(),
        run(
            final(src).log().skip(old(src).log().len() as int),
            r,
            n as nat,
            m as nat,
            gen as nat,
            ceil as nat,
        ),
    decreases ceil - gen,
{
    let ghost l0 = src.log();
    if gen == ceil {
        proof {
            assert(src.log().take(l0.len() as int) =~= l0);
        }
        return Node::Leaf;
    }
    let first = src.next(m);
    if terminates(first, n, m) {
        proof {
            assert(src.log().take(l0.len() as int) =~= l0);
            assert(src.log().skip(l0.len() as int) =~= seq![first]);
        }
        Node::Leaf
    } else {
        let ghost l1 = src.log();
        let left = grow(src, n, m, gen + 1, ceil);
        let ghost l2 = src.log();
        let ghost sl = l2.skip(l1.len() as int);
        let second = src.next(m);
        let ghost l3 = src.log();
        let right = if right_grows(second, n) {
            grow(src, n, m, gen + 1, ceil)
        } else {
            Node::Leaf
        };
        let ghost l4 = src.log();
        let ghost sr = l4.skip(l3.len() as int);
        proof {
            assert(l2.take(l1.len() as int) =~= l1);
            assert(l4.take(l3.len() as int) =~= l3);
            assert(l2 =~= l1 + sl);
            assert(l4 =~= l3 + sr);
            assert(l4 =~= l0 + (seq![first] + sl + seq![second] + sr));
            assert(l4.take(l0.len() as int) =~= l0);
            let spent = l4.skip(l0.len() as int);
            assert(spent =~= seq![first] + sl + seq![second] + sr);
            assert(spent.skip(1) =~= sl + (seq![second] + sr));
            lemma_outcome_extends(sl, seq![second] + sr, n as nat, m as nat, (gen + 1) as nat, ceil as nat);
            let at = 1 + sl.len();
            assert(spent[at as int] == second);
            assert(spent.skip((at + 1) as int) =~= sr);
            if second >= n {
                assert(sr.len() == 0);
            }
            assert(forall|i: int| 0 <= i < spent.len() ==> spent[i] < m) by {
                assert(forall|i: int| 0 <= i < sl.len() ==> spent[i + 1] == sl[i]);
                assert(forall|i: int| 0 <= i < sr.len() ==> spent[i + at + 1] == sr[i]);
            }
        }
        Node::Branch(Box::new((left, right)))
    }
}

/// The whole tree that the process grows from the draws `d`, or `None` unless
/// `d` is one complete run: the root and its two children are branches, and
/// the four grandchildren grow at generation two, left to right, each from
/// the draws that the previous one left.
pub open spec fn root_outcome(d: Seq<u32>, n: nat, m: nat, ceil: nat) -> Option<Node> {
    match outcome(d, n, m, 2, ceil) {
        None => None,
        Some((a, ka)) => match outcome(d.skip(ka as int), n, m, 2, ceil) {
            None => None,
            Some((b, kb)) => match outcome(d.skip((ka + kb) as int), n, m, 2, ceil) {
                None => None,
                Some((c, kc)) => match outcome(d.skip((ka + kb + kc) as int), n, m, 2, ceil) {
                    None => None,
                    Some((e, ke)) => if ka + kb + kc + ke == d.len() {
                        Some(
                            Node::Branch(
                                Box::new(
                                    (
                                        Node::Branch(Box::new((a, b))),
                                        Node::Branch(Box::new((c, e))),
                                    ),
                                ),
                            ),
                        )
                    } else {
                        None
                    },
                },
            },
        },
    }
}

proof fn lemma_root_outcome(
    da: Seq<u32>,
    db: Seq<u32>,
    dc: Seq<u32>,
    dd: Seq<u32>,
    a: Node,
    b: Node,
    c: Node,
    e: Node,
    n: nat,
    m: nat,
    ceil: nat,
)
    requires
        run(da, a, n, m, 2, ceil),
        run(db, b, n, m, 2, ceil),
        run(dc, c, n, m, 2, ceil),
        run(dd, e, n, m, 2, ceil),
    ensures
        root_outcome(da + db + dc + dd, n, m, ceil) == Some(
            Node::Branch(
                Box::new((Node::Branch(Box::new((a, b))), Node::Branch(Box::new((c, e))))),
            ),
        ),
        forall|i: int| 0 <= i < (da + db + dc + dd).len() ==> (da + db + dc + dd)[i] < m,
{
    let d = da + db + dc + dd;
    assert(d =~= da + (db + dc + dd));
    lemma_outcome_extends(da, db + dc + dd, n, m, 2, ceil);
    assert(d.skip(da.len() as int) =~= db + (dc + dd));
    lemma_outcome_extends(db, dc + dd, n, m, 2, ceil);
    assert(d.skip((da.len() + db.len()) as int) =~= dc + dd);
    lemma_outcome_extends(dc, dd, n, m, 2, ceil);
    assert(d.skip((da.len() + db.len() + dc.len()) as int) =~= dd);
    assert forall|i: int| 0 <= i < d.len() implies d[i] < m by {
        if i < da.len() {
            assert(d[i] == da[i]);
        } else if i < da.len() + db.len() {
            assert(d[i] == db[i - da.len()]);
        } else if i < da.len() + db.len() + dc.len() {
            assert(d[i] == dc[i - da.len() - db.len()]);
        } else {
            assert(d[i] == dd[i - da.len() - db.len() - dc.len()]);
        }
    }
}

/// Generates one tree with branch probability `n / m`, cutting every path at
/// generation `max_depth`: the root and its two children are always branches,
/// and each of their four children grows by the process.
pub fn generate_tree(n: u32, m: u32, fast_rng: bool, max_depth: u32) -> (r: Result<
    Node,
    TreeError,
>)
    ensures
        m == 0 ==> r == Err::<Node, TreeError>(TreeError::ZeroDenominator),
        m != 0 && (max_depth < 2 || max_depth > MAX_DEPTH_CEILING) ==> r == Err::<
            Node,
            TreeError,
        >(TreeError::CeilingOutOfRange),
        m != 0 && 2 <= max_depth <= MAX_DEPTH_CEILING ==> r is Ok && generated(
            r->Ok_0,
            n as nat,
            m as nat,
            max_depth as nat,
        ) && exists|d: Seq<u32>|
            {
                &&& forall|i: int| 0 <= i < d.len() ==> d[i] < m
                &&& root_outcome(d, n as nat, m as nat, max_depth as nat) == Some(r->Ok_0)
            },
{
    if m == 0 {
        return Err(TreeError::ZeroDenominator);
    }
    if max_depth < 2 || max_depth > MAX_DEPTH_CEILING {
        return Err(TreeError::CeilingOutOfRange);
    }
    let mut src = Draws::new(fast_rng);
    let a = grow(&mut src, n, m, 2, max_depth);
    let ghost la = src.log();
    let b = grow(&mut src, n, m, 2, max_depth);
    let ghost lb = src.log();
    let c = grow(&mut src, n, m, 2, max_depth);
    let ghost lc = src.log();
    let e = grow(&mut src, n, m, 2, max_depth);
    let ghost ld = src.log();
    let tree = Node::Branch(Box::new((Node::Branch(Box::new((a, b))), Node::Branch(Box::new((c, e))))));
    proof {
        let da = la.skip(0);
        let db = lb.skip(la.len() as int);
        let dc = lc.skip(lb.len() as int);
        let dd = ld.skip(lc.len() as int);
        assert(la =~= da);
        assert(lb =~= da + db) by {
            assert(lb.take(la.len() as int) =~= la);
        }
        assert(lc =~= da + db + dc) by {
            assert(lc.take(lb.len() as int) =~= lb);
        }
        assert(ld =~= da + db + dc + dd) by {
            assert(ld.take(lc.len() as int) =~= lc);
        }
        lemma_root_outcome(da, db, dc, dd, a, b, c, e, n as nat, m as nat, max_depth as nat);
        lemma_outcome_grown(da, n as nat, m as nat, 2, max_depth as nat);
        lemma_outcome_grown(db, n as nat, m as nat, 2, max_depth as nat);
        lemma_outcome_grown(dc, n as nat, m as nat, 2, max_depth as nat);
        lemma_outcome_grown(dd, n as nat, m as nat, 2, max_depth as nat);
    }
    Ok(tree)
}

/// Grows the subtree of a non-root node at generation `gen` from the draws
/// of `d` that start at index `pos`; gives the subtree and the index after
/// the last draw read.
fn regrow(d: &Vec<u32>, pos: usize, n: u32, m: u32, gen: u32, ceil: u32) -> (r: Option<(Node, usize)>)
    requires
        pos <= d@.len(),
        gen <= ceil,
    ensures
        match outcome(d@.skip(pos as int), n as nat, m as nat, gen as nat, ceil as nat) {
            None => r is None,
            Some((t, k)) => r is Some && r->Some_0.0 == t && r->Some_0.1 == pos + k && pos + k
                <= d@.len(),
        },
    decreases ceil - gen,
{
    let ghost rest = d@.skip(pos as int);
    proof {
        if outcome(rest, n as nat, m as nat, gen as nat, ceil as nat) is Some {
            lemma_outcome_extends(rest, Seq::empty(), n as nat, m as nat, gen as nat, ceil as nat);
        }
    }
    if gen == ceil {
        return Some((Node::Leaf, pos));
    }
    if pos == d.len() {
        return None;
    }
    assert(rest[0] == d@[pos as int]);
    if terminates(d[pos], n, m) {
        return Some((Node::Leaf, pos + 1));
    }
    assert(rest.skip(1) =~= d@.skip(pos + 1));
    match regrow(d, pos + 1, n, m, gen + 1, ceil) {
        None => None,
        Some((left, at)) => {
            proof {
                lemma_outcome_extends(rest.skip(1), Seq::empty(), n as nat, m as nat, (gen + 1) as nat, ceil as nat);
                assert(rest.skip(1) + Seq::<u32>::empty() =~= rest.skip(1));
            }
            if at >= d.len() {
                None
            } else {
                assert(rest[at - pos] == d@[at as int]);
                if right_grows(d[at], n) {
                    assert(rest.skip(at - pos + 1) =~= d@.skip(at + 1));
                    match regrow(d, at + 1, n, m, gen + 1, ceil) {
                        None => None,
                        Some((right, end)) => Some((Node::Branch(Box::new((left, right))), end)),
                    }
                } else {
                    Some((Node::Branch(Box::new((left, Node::Leaf))), at + 1))
                }
            }
        },
    }
}

/// Builds the tree that the process grows from the given run of draws, read in
/// order, instead of fresh random ones: `None` unless the draws form exactly
/// one complete run. The request is checked as `generate_tree` checks it.
pub fn replay_tree(draws: &Vec<u32>, n: u32, m: u32, max_depth: u32) -> (r: Result<
    Option<Node>,
    TreeError,
>)
    ensures
        m == 0 ==> r == Err::<Option<Node>, TreeError>(TreeError::ZeroDenominator),
        m != 0 && (max_depth < 2 || max_depth > MAX_DEPTH_CEILING) ==> r == Err::<
            Option<Node>,
            TreeError,
        >(TreeError::CeilingOutOfRange),
        m != 0 && 2 <= max_depth <= MAX_DEPTH_CEILING ==> r == Ok::<Option<Node>, TreeError>(
            root_outcome(draws@, n as nat, m as nat, max_depth as nat),
        ),
{
    if m == 0 {
        return Err(TreeError::ZeroDenominator);
    }
    if max_depth < 2 || max_depth > MAX_DEPTH_CEILING {
        return Err(TreeError::CeilingOutOfRange);
    }
    let ghost d = draws@;
    let ghost (nn, mm, cc) = (n as nat, m as nat, max_depth as nat);
    assert(d.skip(0) =~= d);
    let (a, pa) = match regrow(draws, 0, n, m, 2, max_depth) {
        None => {
            return Ok(None);
        },
        Some(x) => x,
    };
    assert(outcome(d, nn, mm, 2, cc) == Some((a, pa as nat)));
    let (b, pb) = match regrow(draws, pa, n, m, 2, max_depth) {
        None => {
            assert(outcome(d.skip(pa as int), nn, mm, 2, cc) is None);
            return Ok(None);
        },
        Some(x) => x,
    };
    assert(outcome(d.skip(pa as int), nn, mm, 2, cc) == Some((b, (pb - pa) as nat)));
    let (c, pc) = match regrow(draws, pb, n, m, 2, max_depth) {
        None => {
            assert(outcome(d.skip(pb as int), nn, mm, 2, cc) is None);
            return Ok(None);
        },
        Some(x) => x,
    };
    assert(outcome(d.skip(pb as int), nn, mm, 2, cc) == Some((c, (pc - pb) as nat)));
    let (e, pe) = match regrow(draws, pc, n, m, 2, max_depth) {
        None => {
            assert(outcome(d.skip(pc as int), nn, mm, 2, cc) is None);
            return Ok(None);
        },
        Some(x) => x,
    };
    assert(outcome(d.skip(pc as int), nn, mm, 2, cc) == Some((e, (pe - pc) as nat)));
    if pe != draws.len() {
        return Ok(None);
    }
    Ok(Some(Node::Branch(Box::new((Node::Branch(Box::new((a, b))), Node::Branch(Box::new((c, e))))))))
}


/// Two to the power `d`.
pub open spec fn pow2(d: nat) -> nat
    decreases d,
{
    if d == 0 {
        1
    } else {
        2 * pow2((d - 1) as nat)
    }
}

/// Powers of two grow with the exponent.
pub proof fn lemma_pow2_monotone(a: nat, b: nat)
    requires
        a <= b,
    ensures
        pow2(a) <= pow2(b),
    decreases b,
{
    if a < b {
        lemma_pow2_monotone(a, (b - 1) as nat);
    }
}

/// An outcome at generation `gen` reaches no deeper than the ceiling, and so
/// has fewer than `2^(ceil - gen + 1)` nodes.
proof fn lemma_grown_bounds(t: Node, n: nat, m: nat, gen: nat, ceil: nat)
    requires
        grown(t, n, m, gen, ceil),
        gen <= ceil,
    ensures
        depth(t) <= ceil - gen,
        nodes(t) < pow2((ceil - gen + 1) as nat),
    decreases t,
{
    lemma_pow2_monotone(0, (ceil - gen) as nat);
    assert(pow2((ceil - gen + 1) as nat) == 2 * pow2((ceil - gen) as nat));
    if let Node::Branch(bx) = t {
        lemma_grown_bounds(bx.0, n, m, gen + 1, ceil);
        lemma_grown_bounds(bx.1, n, m, gen + 1, ceil);
    }
}

/// Every generated tree reaches generation two and no generation past its
/// ceiling, and has fewer than `2^(ceil + 1)` nodes.
pub proof fn lemma_generated_bounds(t: Node, n: nat, m: nat, ceil: nat)
    requires
        generated(t, n, m, ceil),
        ceil >= 2,
    ensures
        2 <= depth(t) <= ceil,
        nodes(t) < pow2(ceil + 1),
{
    reveal_with_fuel(leaves, 3);
    reveal_with_fuel(branches, 3);
    reveal_with_fuel(nodes, 3);
    reveal_with_fuel(depth, 3);
    if let Node::Branch(root) = t {
        if let (Node::Branch(a), Node::Branch(b)) = (root.0, root.1) {
            lemma_grown_bounds(a.0, n, m, 2, ceil);
            lemma_grown_bounds(a.1, n, m, 2, ceil);
            lemma_grown_bounds(b.0, n, m, 2, ceil);
            lemma_grown_bounds(b.1, n, m, 2, ceil);
            assert(pow2((ceil - 1) as nat) == 2 * pow2((ceil - 2) as nat));
            assert(pow2(ceil) == 2 * pow2((ceil - 1) as nat));
            assert(pow2(ceil + 1) == 2 * pow2(ceil));
        }
    }
}

/// Every count of a tree generated under an accepted ceiling fits in `u32`.
pub proof fn lemma_generated_fits(t: Node, n: nat, m: nat, ceil: nat)
    requires
        generated(t, n, m, ceil),
        2 <= ceil <= MAX_DEPTH_CEILING,
    ensures
        nodes(t) <= u32::MAX,
{
    lemma_generated_bounds(t, n, m, ceil);
    lemma_pow2_monotone(ceil + 1, 31);
    reveal_with_fuel(pow2, 32);
}

/// With `n == 0` the process never grows below the forced levels: every
/// generated tree is the root, its two branches and their four leaves.
pub proof fn lemma_no_growth(t: Node, m: nat, ceil: nat)
    requires
        generated(t, 0, m, ceil),
    ensures
        leaves(t) == 4,
        branches(t) == 3,
        nodes(t) == 7,
        depth(t) == 2,
{
    reveal_with_fuel(leaves, 3);
    reveal_with_fuel(branches, 3);
    reveal_with_fuel(nodes, 3);
    reveal_with_fuel(depth, 3);
    if let Node::Branch(root) = t {
        if let (Node::Branch(a), Node::Branch(b)) = (root.0, root.1) {
            assert(a.0 is Leaf && a.1 is Leaf && b.0 is Leaf && b.1 is Leaf);
        }
    }
}

/// With `n >= m` every node below the ceiling branches on both sides.
proof fn lemma_full_growth(t: Node, n: nat, m: nat, gen: nat, ceil: nat)
    requires
        grown(t, n, m, gen, ceil),
        n >= m > 0,
        gen <= ceil,
    ensures
        leaves(t) == pow2((ceil - gen) as nat),
    decreases t,
{
    if let Node::Branch(bx) = t {
        lemma_full_growth(bx.0, n, m, gen + 1, ceil);
        lemma_full_growth(bx.1, n, m, gen + 1, ceil);
    }
}

/// With `n >= m` the process always continues, so a generated tree has
/// exactly `2^ceil` leaves, and its leaf count never decreases as the depth
/// ceiling is raised.
pub proof fn lemma_certain_growth(t1: Node, t2: Node, n: nat, m: nat, c1: nat, c2: nat)
    requires
        n >= m > 0,
        2 <= c1 <= c2,
        generated(t1, n, m, c1),
        generated(t2, n, m, c2),
    ensures
        leaves(t1) == pow2(c1),
        leaves(t2) == pow2(c2),
        leaves(t1) <= leaves(t2),
{
    lemma_certain_growth_one(t1, n, m, c1);
    lemma_certain_growth_one(t2, n, m, c2);
    lemma_pow2_monotone(c1, c2);
}

proof fn lemma_certain_growth_one(t: Node, n: nat, m: nat, ceil: nat)
    requires
        n >= m > 0,
        ceil >= 2,
        generated(t, n, m, ceil),
    ensures
        leaves(t) == pow2(ceil),
{
    reveal_with_fuel(leaves, 3);
    reveal_with_fuel(branches, 3);
    reveal_with_fuel(nodes, 3);
    reveal_with_fuel(depth, 3);
    if let Node::Branch(root) = t {
        if let (Node::Branch(a), Node::Branch(b)) = (root.0, root.1) {
            lemma_full_growth(a.0, n, m, 2, ceil);
            lemma_full_growth(a.1, n, m, 2, ceil);
            lemma_full_growth(b.0, n, m, 2, ceil);
            lemma_full_growth(b.1, n, m, 2, ceil);
            assert(pow2((ceil - 1) as nat) == 2 * pow2((ceil - 2) as nat));
            assert(pow2(ceil) == 2 * pow2((ceil - 1) as nat));
        }
    }
}

} // verus!
