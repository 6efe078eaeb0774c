use vstd::arithmetic::div_mod::{lemma_div_is_ordered, lemma_fundamental_div_mod};
use vstd::arithmetic::mul::lemma_mul_inequality;
use vstd::prelude::*;

verus! {

/// Lower rank of the `p`-th percentile of `n` sorted values: the floor of the
/// real index `p / 100 * (n - 1)`.
pub open spec fn rank_lower(n: int, p: int) -> int {
    (p * (n - 1)) / 100
}

/// Upper rank of the `p`-th percentile of `n` sorted values: the ceiling of the
/// real index `p / 100 * (n - 1)`.
pub open spec fn rank_upper(n: int, p: int) -> int {
    (p * (n - 1) + 99) / 100
}

/// The one or two ranks whose values make the median of `n` sorted values.
pub open spec fn median_rank_pair(n: int) -> (int, int) {
    if n % 2 == 0 {
        (n / 2 - 1, n / 2)
    } else {
        (n / 2, n / 2)
    }
}

/// The two closest ranks of the `p`-th percentile (linear interpolation between
/// closest ranks) of `n` sorted values. They are equal exactly when the real
/// index `p / 100 * (n - 1)` is a whole number.
pub fn percentile_ranks(n: usize, p: u32) -> (r: (usize, usize))
    requires
        n >= 1,
        p <= 100,
    ensures
        r.0 == rank_lower(n as int, p as int),
        r.1 == rank_upper(n as int, p as int),
        r.0 <= r.1 < n,
        (r.0 == r.1) == ((p * (n - 1)) % 100 == 0),
{
    proof {
        lemma_mul_inequality(p as int, 100, (n - 1) as int);
    }
    let scaled: u128 = (p as u128) * ((n - 1) as u128);
    proof {
        lemma_ranks_in_bounds(n as int, p as int);
        lemma_fundamental_div_mod(p * (n - 1), 100);
        lemma_fundamental_div_mod(p * (n - 1) + 99, 100);
    }
    let lower = (scaled / 100) as usize;
    let upper = ((scaled + 99) / 100) as usize;
    (lower, upper)
}

/// The one or two ranks whose values make the median of `n` sorted values: the
/// middle rank where `n` is odd, the two middle ranks where it is even.
pub fn median_ranks(n: usize) -> (r: (usize, usize))
    requires
        n >= 1,
    ensures
        r == ((median_rank_pair(n as int).0 as usize, median_rank_pair(n as int).1 as usize)),
        r.0 <= r.1 < n,
{
    if n % 2 == 0 {
        (n / 2 - 1, n / 2)
    } else {
        (n / 2, n / 2)
    }
}

/// Both ranks of every percentile lie between the first and the last rank, the
/// lower one not above the upper one.
pub proof fn lemma_ranks_in_bounds(n: int, p: int)
    requires
        n >= 1,
        0 <= p <= 100,
    ensures
        0 <= rank_lower(n, p) <= rank_upper(n, p) <= n - 1,
{
    lemma_mul_inequality(p, 100, n - 1);
    lemma_mul_inequality(0, p, n - 1);
    lemma_div_is_ordered(p * (n - 1), p * (n - 1) + 99, 100);
    lemma_div_is_ordered(p * (n - 1) + 99, 100 * (n - 1) + 99, 100);
    lemma_div_is_ordered(0, p * (n - 1), 100);
    assert((100 * (n - 1) + 99) / 100 == n - 1) by (nonlinear_arith)
        requires n >= 1;
}

/// Percentile ranks never decrease as the percentile grows: for `p <= q` the
/// lower and the upper rank of `p` are at most those of `q`.
pub proof fn lemma_ranks_monotone(n: int, p: int, q: int)
    requires
        n >= 1,
        0 <= p <= q <= 100,
    ensures
        rank_lower(n, p) <= rank_lower(n, q),
        rank_upper(n, p) <= rank_upper(n, q),
{
    lemma_mul_inequality(p, q, n - 1);
    lemma_div_is_ordered(p * (n - 1), q * (n - 1), 100);
    lemma_div_is_ordered(p * (n - 1) + 99, q * (n - 1) + 99, 100);
}

/// The median takes the ranks of the 50th percentile.
pub proof fn lemma_median_is_fiftieth_percentile(n: int)
    requires
        n >= 1,
    ensures
        median_rank_pair(n) == (rank_lower(n, 50), rank_upper(n, 50)),
{
    assert((50 * (n - 1)) / 100 == (n - 1) / 2) by (nonlinear_arith)
        requires n >= 1;
    assert((50 * (n - 1) + 99) / 100 == n / 2) by (nonlinear_arith)
        requires n >= 1;
}


/// For `n` sorted values, the ranks read by the 25th percentile, the median, and
/// the 75th, 90th and 95th percentiles never decrease in that order, and all lie
/// between the first rank and the last.
pub proof fn lemma_summary_ranks_ordered(n: int)
    requires
        n >= 1,
    ensures
        0 <= rank_lower(n, 25),
        rank_lower(n, 25) <= median_rank_pair(n).0,
        rank_upper(n, 25) <= median_rank_pair(n).1,
        median_rank_pair(n).0 <= rank_lower(n, 75),
        median_rank_pair(n).1 <= rank_upper(n, 75),
        rank_lower(n, 75) <= rank_lower(n, 90) <= rank_lower(n, 95),
        rank_upper(n, 75) <= rank_upper(n, 90) <= rank_upper(n, 95),
        rank_upper(n, 95) <= n - 1,
{
    lemma_median_is_fiftieth_percentile(n);
    lemma_ranks_in_bounds(n, 25);
    lemma_ranks_in_bounds(n, 95);
    lemma_ranks_monotone(n, 25, 50);
    lemma_ranks_monotone(n, 50, 75);
    lemma_ranks_monotone(n, 75, 90);
    lemma_ranks_monotone(n, 90, 95);
}

} // verus!
