//! Finite sums of integer terms, and the facts about them that the cost
//! model leans on.

use vstd::prelude::*;

verus! {

/// `term(0) + term(1) + ... + term(n - 1)`; zero when `n` is not positive.
pub open spec fn sum_below(n: int, term: spec_fn(int) -> int) -> int
    decreases n,
{
    if n <= 0 {
        0
    } else {
        sum_below(n - 1, term) + term(n - 1)
    }
}

/// Sums of terms that agree below `n` agree.
pub proof fn lemma_sum_below_agrees(n: int, f: spec_fn(int) -> int, g: spec_fn(int) -> int)
    requires
        forall|i: int| 0 <= i < n ==> #[trigger] f(i) == g(i),
    ensures
        sum_below(n, f) == sum_below(n, g),
    decreases n,
{
    if n > 0 {
        lemma_sum_below_agrees(n - 1, f, g);
    }
}

/// A sum of `n` terms that all lie between `low` and `high` lies between
/// `n * low` and `n * high`.
pub proof fn lemma_sum_below_bounds(n: int, term: spec_fn(int) -> int, low: int, high: int)
    requires
        0 <= n,
        forall|i: int| 0 <= i < n ==> low <= #[trigger] term(i) <= high,
    ensures
        n * low <= sum_below(n, term) <= n * high,
    decreases n,
{
    if n > 0 {
        lemma_sum_below_bounds(n - 1, term, low, high);
        assert(low <= term(n - 1) <= high);
        assert((n - 1) * low + low == n * low) by (nonlinear_arith);
        assert((n - 1) * high + high == n * high) by (nonlinear_arith);
    } else {
        assert(n * low == 0 && n * high == 0) by (nonlinear_arith)
            requires
                n == 0,
        ;
    }
}

/// A sum whose terms are all zero except perhaps the one at `at` is that term.
pub proof fn lemma_sum_below_single(n: int, term: spec_fn(int) -> int, at: int)
    requires
        0 <= at < n,
        forall|i: int| 0 <= i < n && i != at ==> #[trigger] term(i) == 0,
    ensures
        sum_below(n, term) == term(at),
    decreases n,
{
    if n - 1 == at {
        lemma_sum_below_bounds(n - 1, term, 0, 0);
    } else {
        lemma_sum_below_single(n - 1, term, at);
    }
}

/// A sum of terms that are each the sum of two others is the sum of the two
/// sums.
pub proof fn lemma_sum_below_adds(
    n: int,
    f: spec_fn(int) -> int,
    g: spec_fn(int) -> int,
    both: spec_fn(int) -> int,
)
    requires
        forall|i: int| 0 <= i < n ==> #[trigger] both(i) == f(i) + g(i),
    ensures
        sum_below(n, both) == sum_below(n, f) + sum_below(n, g),
    decreases n,
{
    if n > 0 {
        lemma_sum_below_adds(n - 1, f, g, both);
    }
}

/// A sum whose first `n` terms are those of `f` and whose next `m` terms are
/// those of `g` is the sum of the two sums.
pub proof fn lemma_sum_below_joins(
    n: int,
    m: int,
    f: spec_fn(int) -> int,
    g: spec_fn(int) -> int,
    joined: spec_fn(int) -> int,
)
    requires
        0 <= n,
        0 <= m,
        forall|i: int| 0 <= i < n ==> #[trigger] joined(i) == f(i),
        forall|i: int| 0 <= i < m ==> #[trigger] g(i) == joined(n + i),
    ensures
        sum_below(n + m, joined) == sum_below(n, f) + sum_below(m, g),
    decreases m,
{
    if m == 0 {
        lemma_sum_below_agrees(n, joined, f);
    } else {
        lemma_sum_below_joins(n, m - 1, f, g, joined);
        assert(g(m - 1) == joined(n + (m - 1)));
    }
}

} // verus!
