//! Finite sums of integer functions, and the few laws of them that the proofs need.

use vstd::prelude::*;

verus! {

/// The sum of `f(0)` to `f(n - 1)`.
pub open spec fn sum_to(f: spec_fn(int) -> int, n: int) -> int
    decreases n,
{
    if n <= 0 {
        0
    } else {
        sum_to(f, n - 1) + f(n - 1)
    }
}

/// Functions that agree below `n` have the same sum.
pub proof fn lemma_sum_equal(f: spec_fn(int) -> int, g: spec_fn(int) -> int, n: int)
    requires
        forall|i: int| 0 <= i < n ==> #[trigger] f(i) == g(i),
    ensures
        sum_to(f, n) == sum_to(g, n),
    decreases n,
{
    if n > 0 {
        lemma_sum_equal(f, g, n - 1);
    }
}

/// A sum of terms that are not negative is not negative, and grows with its length.
pub proof fn lemma_sum_monotone(f: spec_fn(int) -> int, m: int, n: int)
    requires
        m <= n,
        forall|i: int| 0 <= i < n ==> #[trigger] f(i) >= 0,
    ensures
        0 <= sum_to(f, m) <= sum_to(f, n),
    decreases n,
{
    if n <= 0 {
    } else if m == n {
        lemma_sum_monotone(f, m - 1, n - 1);
    } else {
        lemma_sum_monotone(f, m, n - 1);
    }
}

/// Where `g` is `f` but for the one place `d`, at which it is larger by `c`, its sum is larger
/// by `c`.
pub proof fn lemma_sum_point(
    f: spec_fn(int) -> int,
    g: spec_fn(int) -> int,
    n: int,
    d: int,
    c: int,
)
    requires
        forall|i: int| 0 <= i < n && i != d ==> #[trigger] g(i) == f(i),
        0 <= d < n ==> g(d) == f(d) + c,
    ensures
        sum_to(g, n) == sum_to(f, n) + if 0 <= d < n {
            c
        } else {
            0
        },
    decreases n,
{
    if n > 0 {
        lemma_sum_point(f, g, n - 1, d, c);
    }
}

/// Where `g` is `k` times `f`, its sum is `k` times the sum of `f`.
pub proof fn lemma_sum_scaled(f: spec_fn(int) -> int, g: spec_fn(int) -> int, n: int, k: int)
    requires
        forall|i: int| 0 <= i < n ==> #[trigger] g(i) == k * f(i),
    ensures
        sum_to(g, n) == k * sum_to(f, n),
    decreases n,
{
    if n > 0 {
        lemma_sum_scaled(f, g, n - 1, k);
        assert(k * sum_to(f, n - 1) + k * f(n - 1) == k * (sum_to(f, n - 1) + f(n - 1)))
            by (nonlinear_arith);
    } else {
        assert(k * 0 == 0);
    }
}

/// A sum above 0 of terms that are not negative has a term above 0.
pub proof fn lemma_sum_positive_term(f: spec_fn(int) -> int, n: int) -> (i: int)
    requires
        sum_to(f, n) > 0,
        forall|i: int| 0 <= i < n ==> #[trigger] f(i) >= 0,
    ensures
        0 <= i < n,
        f(i) > 0,
    decreases n,
{
    if f(n - 1) > 0 {
        n - 1
    } else {
        lemma_sum_positive_term(f, n - 1)
    }
}

} // verus!
