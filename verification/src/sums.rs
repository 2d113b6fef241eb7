//! Finite sums of integers, for counting over workers and queues.

use vstd::prelude::*;

verus! {

/// The sum of `f(0)` to `f(n - 1)`.
pub open spec fn sum(f: spec_fn(int) -> int, n: int) -> int
    decreases n,
{
    if n <= 0 {
        0
    } else {
        sum(f, n - 1) + f(n - 1)
    }
}

/// Sums grow with their terms, and equal sums of ordered terms have equal terms.
pub proof fn sum_is_monotone(f: spec_fn(int) -> int, g: spec_fn(int) -> int, n: int)
    requires
        forall|i: int| 0 <= i < n ==> #[trigger] f(i) <= g(i),
    ensures
        sum(f, n) <= sum(g, n),
        sum(f, n) == sum(g, n) ==> forall|i: int| 0 <= i < n ==> #[trigger] f(i) == g(i),
    decreases n,
{
    if n > 0 {
        sum_is_monotone(f, g, n - 1);
        assert(f(n - 1) <= g(n - 1));
    }
}

/// Sums of equal terms are equal.
pub proof fn sum_of_equals(f: spec_fn(int) -> int, g: spec_fn(int) -> int, n: int)
    requires
        forall|i: int| 0 <= i < n ==> #[trigger] f(i) == g(i),
    ensures
        sum(f, n) == sum(g, n),
    decreases n,
{
    if n > 0 {
        sum_of_equals(f, g, n - 1);
        assert(f(n - 1) == g(n - 1));
    }
}

/// A change of one term changes the sum by as much.
pub proof fn sum_changes_by(f: spec_fn(int) -> int, g: spec_fn(int) -> int, k: int, n: int)
    requires
        0 <= k < n,
        forall|i: int| 0 <= i < n && i != k ==> #[trigger] f(i) == g(i),
    ensures
        sum(g, n) == sum(f, n) + g(k) - f(k),
    decreases n,
{
    if k == n - 1 {
        sum_of_equals(f, g, n - 1);
    } else {
        sum_changes_by(f, g, k, n - 1);
        assert(f(n - 1) == g(n - 1));
    }
}

/// A sum of `n` terms between 0 and `b` is between 0 and `n * b`.
pub proof fn sum_is_bounded(f: spec_fn(int) -> int, b: int, n: int)
    requires
        0 <= n,
        forall|i: int| 0 <= i < n ==> 0 <= #[trigger] f(i) <= b,
    ensures
        0 <= sum(f, n) <= n * b,
    decreases n,
{
    if n > 0 {
        sum_is_bounded(f, b, n - 1);
        assert(0 <= f(n - 1) <= b);
        assert((n - 1) * b + b == n * b) by (nonlinear_arith);
    } else {
        assert(0 * b == 0) by (nonlinear_arith);
    }
}

/// The sum of sums of terms.
pub proof fn sum_of_sum(f: spec_fn(int) -> int, g: spec_fn(int) -> int, h: spec_fn(int) -> int, n: int)
    requires
        forall|i: int| 0 <= i < n ==> #[trigger] h(i) == f(i) + g(i),
    ensures
        sum(h, n) == sum(f, n) + sum(g, n),
    decreases n,
{
    if n > 0 {
        sum_of_sum(f, g, h, n - 1);
        assert(h(n - 1) == f(n - 1) + g(n - 1));
    }
}

/// A square can be summed by rows or by columns.
pub proof fn sum_by_rows_or_columns(f: spec_fn(int, int) -> int, n: int, k: int)
    requires
        0 <= n,
        0 <= k,
    ensures
        sum(|i: int| sum(|j: int| f(i, j), k), n) == sum(|j: int| sum(|i: int| f(i, j), n), k),
    decreases n,
{
    let rows = |i: int| sum(|j: int| f(i, j), k);
    let cols = |j: int| sum(|i: int| f(i, j), n);
    if n > 0 {
        let short = |j: int| sum(|i: int| f(i, j), n - 1);
        let last = |j: int| f(n - 1, j);
        sum_by_rows_or_columns(f, n - 1, k);
        assert forall|j: int| 0 <= j < k implies #[trigger] cols(j) == short(j) + last(j) by {
            let g = |i: int| f(i, j);
            assert(sum(g, n) == sum(g, n - 1) + g(n - 1));
        }
        sum_of_sum(short, last, cols, k);
        assert(rows(n - 1) == sum(last, k)) by {
            sum_of_equals(|j: int| f(n - 1, j), last, k);
        }
        assert(sum(rows, n) == sum(rows, n - 1) + rows(n - 1));
    } else {
        assert forall|j: int| 0 <= j < k implies 0 <= #[trigger] cols(j) <= 0 by {}
        sum_is_bounded(cols, 0, k);
        assert(k * 0 == 0);
    }
}

/// The sum over an `n` by `n` square.
pub open spec fn grid_sum(f: spec_fn(int, int) -> int, n: int) -> int {
    sum(|i: int| sum(|j: int| f(i, j), n), n)
}

/// A change of one cell changes the sum of the square by as much.
pub proof fn grid_sum_changes_by(f: spec_fn(int, int) -> int, g: spec_fn(int, int) -> int, x: int, y: int, n: int)
    requires
        0 <= x < n,
        0 <= y < n,
        forall|i: int, j: int| 0 <= i < n && 0 <= j < n && !(i == x && j == y) ==> #[trigger] f(i, j) == g(i, j),
    ensures
        grid_sum(g, n) == grid_sum(f, n) + g(x, y) - f(x, y),
{
    let a = |i: int| sum(|j: int| f(i, j), n);
    let b = |i: int| sum(|j: int| g(i, j), n);
    assert forall|i: int| 0 <= i < n && i != x implies #[trigger] a(i) == b(i) by {
        let p = |j: int| f(i, j);
        let q = |j: int| g(i, j);
        assert forall|j: int| 0 <= j < n implies #[trigger] p(j) == q(j) by {
            assert(f(i, j) == g(i, j));
        }
        sum_of_equals(p, q, n);
    }
    sum_changes_by(a, b, x, n);
    let p = |j: int| f(x, j);
    let q = |j: int| g(x, j);
    assert forall|j: int| 0 <= j < n && j != y implies #[trigger] p(j) == q(j) by {
        assert(f(x, j) == g(x, j));
    }
    sum_changes_by(p, q, y, n);
}

/// A square of terms that are not negative has a sum that is not negative.
pub proof fn grid_sum_is_nonnegative(f: spec_fn(int, int) -> int, n: int)
    requires
        forall|i: int, j: int| 0 <= i < n && 0 <= j < n ==> #[trigger] f(i, j) >= 0,
    ensures
        grid_sum(f, n) >= 0,
{
    let zero = |i: int| 0int;
    let a = |i: int| sum(|j: int| f(i, j), n);
    if n > 0 {
        sum_is_bounded(zero, 0, n);
        assert forall|i: int| 0 <= i < n implies zero(i) <= #[trigger] a(i) by {
            let p = |j: int| f(i, j);
            assert forall|j: int| 0 <= j < n implies #[trigger] zero(j) <= p(j) by {
                assert(f(i, j) >= 0);
            }
            sum_is_monotone(zero, p, n);
        }
        assert forall|i: int| 0 <= i < n implies #[trigger] zero(i) <= a(i) by {
            assert(a(i) >= zero(i));
        }
        sum_is_monotone(zero, a, n);
    }
}

} // verus!
