//! Summary statistics over the leaf counts of a sample of trees.
use vstd::prelude::*;
use vstd::relations::{sorted_by, total_ordering};
use vstd::seq_lib::lemma_sorted_unique;
use crate::generate::{TreeError, MAX_DEPTH_CEILING, generate_tree, root_outcome, lemma_generated_fits};
use crate::tree::{Node, leaves, count_leaves};

verus! {

/// The ascending order on counts.
pub open spec fn ascending() -> spec_fn(u32, u32) -> bool {
    |a: u32, b: u32| a <= b
}

/// The sum of the counts in `s`.
pub open spec fn total(s: Seq<u32>) -> int
    decreases s.len(),
{
    if s.len() == 0 {
        0
    } else {
        total(s.drop_last()) + s.last()
    }
}

/// The least count in `s`; zero for an empty sequence.
pub open spec fn least(s: Seq<u32>) -> int
    decreases s.len(),
{
    if s.len() == 0 {
        0
    } else if s.len() == 1 || s.last() <= least(s.drop_last()) {
        s.last() as int
    } else {
        least(s.drop_last())
    }
}

/// The greatest count in `s`; zero for an empty sequence.
pub open spec fn greatest(s: Seq<u32>) -> int
    decreases s.len(),
{
    if s.len() == 0 {
        0
    } else if s.last() >= greatest(s.drop_last()) {
        s.last() as int
    } else {
        greatest(s.drop_last())
    }
}

/// The sum of the squared distances of the counts in `s` from `centre`.
pub open spec fn squared_deviation(s: Seq<u32>, centre: int) -> int
    decreases s.len(),
{
    if s.len() == 0 {
        0
    } else {
        squared_deviation(s.drop_last(), centre) + (s.last() - centre) * (s.last() - centre)
    }
}

/// The truncated mean: the sum divided by the number of counts, rounded down.
pub open spec fn truncated_mean(s: Seq<u32>) -> int {
    total(s) / (s.len() as int)
}

/// The upper median: the count at index `len / 2` once `s` is sorted ascending.
pub open spec fn upper_median(s: Seq<u32>) -> int {
    s.sort_by(ascending())[(s.len() / 2) as int] as int
}

/// The statistics of a sample of leaf counts. The population standard
/// deviation is the square root of `squared_deviation / size`. The squared
/// deviation is deliberately measured from the truncated integer mean, not
/// from the exact one, so that the deviation agrees with established figures.
#[derive(Debug, Clone, Copy, PartialEq, Eq, Structural)]
pub struct SampleStats {
    pub min: u32,
    pub median: u32,
    pub max: u32,
    pub mean: u32,
    pub squared_deviation: u128,
    pub size: usize,
}

/// `st` holds the statistics of the non-empty sample `s`.
pub open spec fn summarizes(st: SampleStats, s: Seq<u32>) -> bool {
    &&& st.size == s.len()
    &&& st.min == least(s)
    &&& st.median == upper_median(s)
    &&& st.max == greatest(s)
    &&& st.mean == truncated_mean(s)
    &&& st.squared_deviation == squared_deviation(s, truncated_mean(s))
}

/// Relies on `slice::sort`: it leaves the elements in ascending order and
/// keeps each element as often as it was there.
#[verifier::external_body]
fn sort_counts(v: &mut Vec<u32>)
    ensures
        final(v)@.to_multiset() == old(v)@.to_multiset(),
        sorted_by(final(v)@, ascending()),
{
    v.sort();
}

proof fn lemma_ascending_total()
    ensures
        total_ordering(ascending()),
{
}

proof fn lemma_least_greatest_bounds(s: Seq<u32>)
    requires
        s.len() > 0,
    ensures
        least(s) <= greatest(s),
        0 <= least(s),
        greatest(s) <= u32::MAX,
        forall|i: int| 0 <= i < s.len() ==> least(s) <= #[trigger] s[i] <= greatest(s),
    decreases s.len(),
{
    if s.len() > 1 {
        lemma_least_greatest_bounds(s.drop_last());
        assert forall|i: int| 0 <= i < s.len() implies least(s) <= #[trigger] s[i] <= greatest(
            s,
        ) by {
            if i < s.len() - 1 {
                assert(s[i] == s.drop_last()[i]);
            }
        }
    } else {
        assert(greatest(s.drop_last()) == 0);
    }
}

proof fn lemma_total_bounds(s: Seq<u32>)
    ensures
        0 <= total(s) <= s.len() * (u32::MAX as int),
    decreases s.len(),
{
    if s.len() > 0 {
        lemma_total_bounds(s.drop_last());
    }
}

/// Computes the statistics of a sample of leaf counts.
pub fn summarize(counts: Vec<u32>) -> (r: Result<SampleStats, TreeError>)
    ensures
        counts@.len() == 0 ==> r == Err::<SampleStats, TreeError>(TreeError::EmptySample),
        counts@.len() > 0 ==> r is Ok && summarizes(r->Ok_0, counts@),
{
    let len = counts.len();
    if len == 0 {
        return Err(TreeError::EmptySample);
    }
    let mut sum: u128 = 0;
    let mut lo: u32 = counts[0];
    let mut hi: u32 = counts[0];
    let mut i: usize = 0;
    while i < len
        invariant
            len == counts@.len(),
            len > 0,
            i <= len,
            sum == total(counts@.take(i as int)),
            i == 0 ==> lo == counts@[0] && hi == counts@[0],
            i > 0 ==> lo == least(counts@.take(i as int)) && hi == greatest(counts@.take(i as int)),
        decreases len - i,
    {
        proof {
            assert(counts@.take(i + 1).drop_last() =~= counts@.take(i as int));
            assert(counts@.take(i + 1).last() == counts@[i as int]);
            assert(greatest(counts@.take(0)) == 0);
            lemma_total_bounds(counts@.take(i as int));
            assert(i * (u32::MAX as int) <= 0xffff_ffff_ffff_ffff * (u32::MAX as int)) by (nonlinear_arith)
                requires i <= 0xffff_ffff_ffff_ffff;
        }
        let x = counts[i];
        sum = sum + x as u128;
        if i == 0 || x < lo {
            lo = x;
        }
        if x > hi {
            hi = x;
        }
        i = i + 1;
    }
    proof {
        assert(counts@.take(len as int) =~= counts@);
        lemma_total_bounds(counts@);
        lemma_least_greatest_bounds(counts@);
        assert(total(counts@) / (len as int) <= u32::MAX) by (nonlinear_arith)
            requires total(counts@) <= len * (u32::MAX as int), len > 0;
    }
    let mean: u32 = (sum / len as u128) as u32;
    let mut dev: u128 = 0;
    let mut j: usize = 0;
    while j < len
        invariant
            len == counts@.len(),
            j <= len,
            mean == truncated_mean(counts@),
            dev == squared_deviation(counts@.take(j as int), mean as int),
            dev <= j * 0xffff_ffff_ffff_ffff,
        decreases len - j,
    {
        proof {
            assert(counts@.take(j + 1).drop_last() =~= counts@.take(j as int));
        }
        let x = counts[j];
        let d: u64 = if x >= mean {
            (x - mean) as u64
        } else {
            (mean - x) as u64
        };
        proof {
            assert(d * d <= 0xffff_ffff_ffff_ffff) by (nonlinear_arith)
                requires d <= 0xffff_ffff;
            assert((x - mean) * (x - mean) == d * d) by (nonlinear_arith)
                requires d == x - mean || d == mean - x;
            assert(j * 0xffff_ffff_ffff_ffff + 0xffff_ffff_ffff_ffff <= 0xffff_ffff_ffff_ffff_ffff_ffff_ffff_ffff) by (nonlinear_arith)
                requires j < 0xffff_ffff_ffff_ffff;
        }
        dev = dev + (d as u128) * (d as u128);
        j = j + 1;
    }
    proof {
        assert(counts@.take(len as int) =~= counts@);
    }
    let mut sorted = counts;
    sort_counts(&mut sorted);
    proof {
        lemma_ascending_total();
        counts@.lemma_sort_by_ensures(ascending());
        lemma_sorted_unique(sorted@, counts@.sort_by(ascending()), ascending());
        broadcast use vstd::seq_lib::group_to_multiset_ensures;
        assert(sorted@.len() == sorted@.to_multiset().len());
    }
    let median = sorted[len / 2];
    Ok(SampleStats { min: lo, median, max: hi, mean, squared_deviation: dev, size: len })
}

/// `x` is the leaf count of a tree that the process grows, with probability
/// `n / m` under depth ceiling `ceil`, from some run of draws from `[0, m)`.
pub open spec fn possible_leaf_count(x: u32, n: nat, m: nat, ceil: nat) -> bool {
    exists|t: Node, d: Seq<u32>|
        {
            &&& forall|i: int| 0 <= i < d.len() ==> d[i] < m
            &&& root_outcome(d, n, m, ceil) == Some(t)
            &&& leaves(t) == x
        }
}

/// Generates `sample_size` trees with branch probability `n / m` and depth
/// ceiling `max_depth`, and computes the statistics of their leaf counts.
pub fn check_stats(n: u32, m: u32, fast_rng: bool, sample_size: u32, max_depth: u32) -> (r: Result<
    SampleStats,
    TreeError,
>)
    ensures
        m == 0 ==> r == Err::<SampleStats, TreeError>(TreeError::ZeroDenominator),
        m != 0 && (max_depth < 2 || max_depth > MAX_DEPTH_CEILING) ==> r == Err::<
            SampleStats,
            TreeError,
        >(TreeError::CeilingOutOfRange),
        m != 0 && 2 <= max_depth <= MAX_DEPTH_CEILING && sample_size == 0 ==> r == Err::<
            SampleStats,
            TreeError,
        >(TreeError::EmptySample),
        m != 0 && 2 <= max_depth <= MAX_DEPTH_CEILING && sample_size > 0 ==> r is Ok && exists|
            c: Seq<u32>,
        |
            {
                &&& c.len() == sample_size
                &&& forall|i: int|
                    0 <= i < c.len() ==> possible_leaf_count(
                        #[trigger] c[i],
                        n as nat,
                        m as nat,
                        max_depth as nat,
                    )
                &&& summarizes(r->Ok_0, c)
            },
{
    if m == 0 {
        return Err(TreeError::ZeroDenominator);
    }
    if max_depth < 2 || max_depth > MAX_DEPTH_CEILING {
        return Err(TreeError::CeilingOutOfRange);
    }
    if sample_size == 0 {
        return Err(TreeError::EmptySample);
    }
    let mut counts: Vec<u32> = Vec::new();
    let mut k: u32 = 0;
    while k < sample_size
        invariant
            m != 0,
            2 <= max_depth <= MAX_DEPTH_CEILING,
            k <= sample_size,
            counts@.len() == k,
            forall|i: int|
                0 <= i < counts@.len() ==> possible_leaf_count(
                    #[trigger] counts@[i],
                    n as nat,
                    m as nat,
                    max_depth as nat,
                ),
        decreases sample_size - k,
    {
        let tree = generate_tree(n, m, fast_rng, max_depth);
        match tree {
            Ok(t) => {
                proof {
                    lemma_generated_fits(t, n as nat, m as nat, max_depth as nat);
                }
                let x = count_leaves(&t);
                proof {
                    let d = choose|d: Seq<u32>|
                        {
                            &&& forall|i: int| 0 <= i < d.len() ==> d[i] < m
                            &&& root_outcome(d, n as nat, m as nat, max_depth as nat) == Some(t)
                        };
                    assert(root_outcome(d, n as nat, m as nat, max_depth as nat) == Some(t)
                        && leaves(t) == x);
                }
                counts.push(x);
            },
            Err(e) => {
                return Err(e);
            },
        }
        k = k + 1;
    }
    let ghost c = counts@;
    let r = summarize(counts);
    assert(summarizes(r->Ok_0, c));
    r
}

/// A sample of one count has that count as its least, median, greatest and
/// mean value, and no deviation.
pub proof fn lemma_single_sample(st: SampleStats, x: u32)
    requires
        summarizes(st, seq![x]),
    ensures
        st.min == x,
        st.median == x,
        st.max == x,
        st.mean == x,
        st.squared_deviation == 0,
{
    let s = seq![x];
    assert(s.drop_last() =~= Seq::<u32>::empty());
    assert(total(s.drop_last()) == 0);
    assert(total(s) == x);
    assert(s.len() == 1);
    assert(total(s) / 1 == total(s)) by (nonlinear_arith);
    assert(truncated_mean(s) == x);
    assert(s.last() == x);
    assert((s.last() - x) * (s.last() - x) == 0) by (nonlinear_arith)
        requires s.last() == x;
    assert(squared_deviation(s, x as int) == squared_deviation(s.drop_last(), x as int) + (s.last()
        - x) * (s.last() - x));
    assert(greatest(s.drop_last()) == 0);
    assert(squared_deviation(s.drop_last(), x as int) == 0);
    lemma_ascending_total();
    s.lemma_sort_by_ensures(ascending());
    assert(sorted_by(s, ascending()));
    lemma_sorted_unique(s, s.sort_by(ascending()), ascending());
}

} // verus!
