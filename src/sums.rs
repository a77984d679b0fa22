//! Finite sums over an index range, and the facts about them that the cost
//! model uses.

use vstd::prelude::*;

verus! {

/// `f(0) + f(1) + ... + f(k - 1)`.
pub open spec fn sum_upto(f: spec_fn(int) -> int, k: int) -> int
    decreases k,
{
    if k <= 0 {
        0
    } else {
        sum_upto(f, k - 1) + f(k - 1)
    }
}

/// Sums of functions that agree on the range are equal.
pub proof fn lemma_sum_ext(f: spec_fn(int) -> int, g: spec_fn(int) -> int, k: int)
    requires
        forall|i: int| 0 <= i < k ==> #[trigger] f(i) == g(i),
    ensures
        sum_upto(f, k) == sum_upto(g, k),
    decreases k,
{
    if k > 0 {
        lemma_sum_ext(f, g, k - 1);
    }
}

/// Two functions that differ at `a` and `b` only have sums that differ by those terms.
pub proof fn lemma_sum_two(f: spec_fn(int) -> int, g: spec_fn(int) -> int, k: int, a: int, b: int)
    requires
        0 <= a < k,
        0 <= b < k,
        a != b,
        forall|i: int| 0 <= i < k && i != a && i != b ==> #[trigger] f(i) == g(i),
    ensures
        sum_upto(f, k) == sum_upto(g, k) + (f(a) - g(a)) + (f(b) - g(b)),
    decreases k,
{
    lemma_sum_two_partial(f, g, k, a, b);
}

proof fn lemma_sum_two_partial(f: spec_fn(int) -> int, g: spec_fn(int) -> int, k: int, a: int, b: int)
    requires
        a != b,
        forall|i: int| 0 <= i < k && i != a && i != b ==> #[trigger] f(i) == g(i),
    ensures
        sum_upto(f, k) == sum_upto(g, k) + (if 0 <= a < k { f(a) - g(a) } else { 0 }) + (if 0
            <= b < k {
            f(b) - g(b)
        } else {
            0
        }),
    decreases k,
{
    if k > 0 {
        lemma_sum_two_partial(f, g, k - 1, a, b);
    }
}

/// The sum of a sum is the sum of the sums.
pub proof fn lemma_sum_add(f: spec_fn(int) -> int, g: spec_fn(int) -> int, k: int)
    ensures
        sum_upto(|i: int| f(i) + g(i), k) == sum_upto(f, k) + sum_upto(g, k),
    decreases k,
{
    if k > 0 {
        lemma_sum_add(f, g, k - 1);
    }
}

/// The sum of a difference is the difference of the sums.
pub proof fn lemma_sum_sub(f: spec_fn(int) -> int, g: spec_fn(int) -> int, k: int)
    ensures
        sum_upto(|i: int| f(i) - g(i), k) == sum_upto(f, k) - sum_upto(g, k),
    decreases k,
{
    if k > 0 {
        lemma_sum_sub(f, g, k - 1);
    }
}

/// A sum of terms in `0 ..= m` lies in `0 ..= k * m`.
pub proof fn lemma_sum_bounds(f: spec_fn(int) -> int, k: int, m: int)
    requires
        0 <= k,
        forall|i: int| 0 <= i < k ==> 0 <= #[trigger] f(i) <= m,
    ensures
        0 <= sum_upto(f, k) <= k * m,
    decreases k,
{
    if k > 0 {
        lemma_sum_bounds(f, k - 1, m);
        assert(0 <= f(k - 1) <= m);
        assert((k - 1) * m + m == k * m) by (nonlinear_arith);
        assert(sum_upto(f, k) == sum_upto(f, k - 1) + f(k - 1));
    } else {
        assert(k * m == 0) by (nonlinear_arith)
            requires
                k == 0,
        ;
    }
}

/// A sum of non-negative terms is at least each of its terms.
pub proof fn lemma_sum_at_least_term(f: spec_fn(int) -> int, k: int, a: int)
    requires
        0 <= a < k,
        forall|i: int| 0 <= i < k ==> 0 <= #[trigger] f(i),
    ensures
        sum_upto(f, k) >= f(a),
    decreases k,
{
    if k - 1 != a {
        lemma_sum_at_least_term(f, k - 1, a);
    } else {
        lemma_sum_nonneg(f, k - 1);
    }
}

/// A sum of non-negative terms is non-negative.
pub proof fn lemma_sum_nonneg(f: spec_fn(int) -> int, k: int)
    requires
        forall|i: int| 0 <= i < k ==> 0 <= #[trigger] f(i),
    ensures
        sum_upto(f, k) >= 0,
    decreases k,
{
    if k > 0 {
        lemma_sum_nonneg(f, k - 1);
    }
}

/// Pointwise order carries over to the sums.
pub proof fn lemma_sum_le(f: spec_fn(int) -> int, g: spec_fn(int) -> int, k: int)
    requires
        forall|i: int| 0 <= i < k ==> #[trigger] f(i) <= g(i),
    ensures
        sum_upto(f, k) <= sum_upto(g, k),
    decreases k,
{
    if k > 0 {
        lemma_sum_le(f, g, k - 1);
    }
}

/// A sum of non-negative terms is zero exactly when every term is.
pub proof fn lemma_sum_zero(f: spec_fn(int) -> int, k: int)
    requires
        forall|i: int| 0 <= i < k ==> 0 <= #[trigger] f(i),
    ensures
        sum_upto(f, k) == 0 <==> forall|i: int| 0 <= i < k ==> #[trigger] f(i) == 0,
    decreases k,
{
    if k > 0 {
        lemma_sum_zero(f, k - 1);
        lemma_sum_nonneg(f, k - 1);
    }
}

} // verus!
