//! What the kernels compute, stated over sequences.
//!
//! The kernels do not know the arithmetic of their elements. They are handed a step, the
//! fused multiply-add `(acc, x, y) -> acc + x * y` of the element type, and promise how they
//! chain its calls: element `(i, j)` of the output goes through one call for each term of the
//! dot product of row `i` of `a` with column `j` of `b`, in the order of the terms. What a
//! call returns is whatever the step's own contract allows.

use vstd::prelude::*;
use crate::view::{col, entry, row};

verus! {

/// `acc` is a possible outcome of this fold: start at `init` and, for each position of `xs`
/// in order, replace the accumulator by what `step` returns for the accumulator and the
/// elements of `xs` and `ys` at that position.
pub open spec fn folds_to<T, F: Fn(T, T, T) -> T>(
    step: F,
    xs: Seq<T>,
    ys: Seq<T>,
    init: T,
    acc: T,
) -> bool
    recommends
        xs.len() == ys.len(),
    decreases xs.len(),
{
    if xs.len() == 0 {
        acc == init
    } else {
        exists|prev: T|
            folds_to(step, xs.drop_last(), ys.drop_last(), init, prev) && #[trigger] step.ensures(
                (prev, xs.last(), ys.last()),
                acc,
            )
    }
}

/// Every call that the fold can come to make is one that `step` accepts.
pub open spec fn fold_defined<T, F: Fn(T, T, T) -> T>(
    step: F,
    xs: Seq<T>,
    ys: Seq<T>,
    init: T,
) -> bool
    recommends
        xs.len() == ys.len(),
{
    forall|t: int, acc: T|
        0 <= t < xs.len() && #[trigger] folds_to(step, xs.take(t), ys.take(t), init, acc)
            ==> step.requires((acc, xs[t], ys[t]))
}

/// Every fold is defined that accumulates the product of `a` (`m` rows of `k`) and `b` (`k`
/// rows of `n`) onto `c` (`m` rows of `n`).
pub open spec fn product_defined<T, F: Fn(T, T, T) -> T>(
    step: F,
    a: Seq<T>,
    b: Seq<T>,
    c: Seq<T>,
    m: int,
    k: int,
    n: int,
) -> bool {
    forall|i: int, j: int|
        0 <= i < m && 0 <= j < n ==> fold_defined(
            step,
            row(a, k, i),
            col(b, n, k, j),
            #[trigger] entry(c, n, i, j),
        )
}

/// `after` is `before` with the product of `a` and `b` accumulated onto its first `m` rows of
/// `n`: element `(i, j)` has gone through the fold over row `i` of `a` and column `j` of `b`,
/// and what lies behind those rows is as it was.
pub open spec fn accumulated<T, F: Fn(T, T, T) -> T>(
    step: F,
    a: Seq<T>,
    b: Seq<T>,
    m: int,
    k: int,
    n: int,
    before: Seq<T>,
    after: Seq<T>,
) -> bool {
    &&& after.len() == before.len()
    &&& forall|i: int, j: int|
        0 <= i < m && 0 <= j < n ==> folds_to(
            step,
            row(a, k, i),
            col(b, n, k, j),
            entry(before, n, i, j),
            #[trigger] entry(after, n, i, j),
        )
    &&& forall|p: int| m * n <= p < before.len() ==> after[p] == before[p]
}

/// One more term: a fold over the first `t` positions, then `step` at position `t`, is a fold
/// over the first `t + 1`.
pub proof fn lemma_fold_next<T, F: Fn(T, T, T) -> T>(
    step: F,
    xs: Seq<T>,
    ys: Seq<T>,
    t: int,
    init: T,
    prev: T,
    acc: T,
)
    requires
        0 <= t < xs.len(),
        t < ys.len(),
        folds_to(step, xs.take(t), ys.take(t), init, prev),
        step.ensures((prev, xs[t], ys[t]), acc),
    ensures
        folds_to(step, xs.take(t + 1), ys.take(t + 1), init, acc),
{
    let xs1 = xs.take(t + 1);
    let ys1 = ys.take(t + 1);
    assert(xs1.drop_last() =~= xs.take(t));
    assert(ys1.drop_last() =~= ys.take(t));
    assert(xs1.last() == xs[t] && ys1.last() == ys[t]);
}

} // verus!
