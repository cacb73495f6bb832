//! What follows from the kernels' contracts.

use vstd::prelude::*;
use crate::model::{accumulated, folds_to};
use crate::view::{col, entry, lemma_split_offset, row};

verus! {

/// `step` has at most one outcome for each triple of arguments.
pub open spec fn deterministic<T, F: Fn(T, T, T) -> T>(step: F) -> bool {
    forall|acc: T, x: T, y: T, r1: T, r2: T|
        #[trigger] step.ensures((acc, x, y), r1) && #[trigger] step.ensures((acc, x, y), r2)
            ==> r1 == r2
}

/// Under the reading `val` of the elements as integers, `step` is an exact multiply-add.
pub open spec fn exact<T, F: Fn(T, T, T) -> T>(step: F, val: spec_fn(T) -> int) -> bool {
    forall|acc: T, x: T, y: T, r: T| #[trigger]
        step.ensures((acc, x, y), r) ==> val(r) == val(acc) + val(x) * val(y)
}

/// The dot product of two sequences of integers of one length.
pub open spec fn dot(xs: Seq<int>, ys: Seq<int>) -> int
    decreases xs.len(),
{
    if xs.len() == 0 {
        0
    } else {
        dot(xs.drop_last(), ys.drop_last()) + xs.last() * ys.last()
    }
}

/// A fold with a deterministic step has one outcome.
pub proof fn lemma_fold_unique<T, F: Fn(T, T, T) -> T>(
    step: F,
    xs: Seq<T>,
    ys: Seq<T>,
    init: T,
    r1: T,
    r2: T,
)
    requires
        deterministic(step),
        folds_to(step, xs, ys, init, r1),
        folds_to(step, xs, ys, init, r2),
    ensures
        r1 == r2,
    decreases xs.len(),
{
    if xs.len() > 0 {
        let first = choose|p: T|
            folds_to(step, xs.drop_last(), ys.drop_last(), init, p) && #[trigger] step.ensures(
                (p, xs.last(), ys.last()),
                r1,
            );
        let second = choose|p: T|
            folds_to(step, xs.drop_last(), ys.drop_last(), init, p) && #[trigger] step.ensures(
                (p, xs.last(), ys.last()),
                r2,
            );
        lemma_fold_unique(step, xs.drop_last(), ys.drop_last(), init, first, second);
    }
}

/// A fold that goes on from where another ended is one fold over both runs of terms.
pub proof fn lemma_fold_concat<T, F: Fn(T, T, T) -> T>(
    step: F,
    xs1: Seq<T>,
    ys1: Seq<T>,
    xs2: Seq<T>,
    ys2: Seq<T>,
    init: T,
    mid: T,
    acc: T,
)
    requires
        xs1.len() == ys1.len(),
        xs2.len() == ys2.len(),
        folds_to(step, xs1, ys1, init, mid),
        folds_to(step, xs2, ys2, mid, acc),
    ensures
        folds_to(step, xs1 + xs2, ys1 + ys2, init, acc),
    decreases xs2.len(),
{
    if xs2.len() == 0 {
        assert(xs1 + xs2 =~= xs1);
        assert(ys1 + ys2 =~= ys1);
    } else {
        let p = choose|p: T|
            folds_to(step, xs2.drop_last(), ys2.drop_last(), mid, p) && #[trigger] step.ensures(
                (p, xs2.last(), ys2.last()),
                acc,
            );
        lemma_fold_concat(step, xs1, ys1, xs2.drop_last(), ys2.drop_last(), init, mid, p);
        assert((xs1 + xs2).drop_last() =~= xs1 + xs2.drop_last());
        assert((ys1 + ys2).drop_last() =~= ys1 + ys2.drop_last());
        assert((xs1 + xs2).last() == xs2.last());
        assert((ys1 + ys2).last() == ys2.last());
    }
}

/// With an exact step a fold adds the dot product of its terms to what it started from.
pub proof fn lemma_fold_exact<T, F: Fn(T, T, T) -> T>(
    step: F,
    val: spec_fn(T) -> int,
    xs: Seq<T>,
    ys: Seq<T>,
    init: T,
    acc: T,
)
    requires
        exact(step, val),
        xs.len() == ys.len(),
        folds_to(step, xs, ys, init, acc),
    ensures
        val(acc) == val(init) + dot(xs.map_values(val), ys.map_values(val)),
    decreases xs.len(),
{
    if xs.len() > 0 {
        let p = choose|p: T|
            folds_to(step, xs.drop_last(), ys.drop_last(), init, p) && #[trigger] step.ensures(
                (p, xs.last(), ys.last()),
                acc,
            );
        lemma_fold_exact(step, val, xs.drop_last(), ys.drop_last(), init, p);
        assert(xs.map_values(val).drop_last() =~= xs.drop_last().map_values(val));
        assert(ys.map_values(val).drop_last() =~= ys.drop_last().map_values(val));
    }
}

/// With a deterministic step the inputs decide the outcome: two buffers that both hold the
/// product accumulated onto the same contents are equal, whichever kernel filled them and
/// however the rows were spread over the workers.
pub proof fn lemma_outcome_unique<T, F: Fn(T, T, T) -> T>(
    step: F,
    a: Seq<T>,
    b: Seq<T>,
    m: int,
    k: int,
    n: int,
    before: Seq<T>,
    one: Seq<T>,
    other: Seq<T>,
)
    requires
        0 <= m,
        0 <= n,
        m * n <= before.len(),
        deterministic(step),
        accumulated(step, a, b, m, k, n, before, one),
        accumulated(step, a, b, m, k, n, before, other),
    ensures
        one == other,
{
    assert forall|p: int| 0 <= p < before.len() implies one[p] == other[p] by {
        if p < m * n {
            lemma_split_offset(p, m, n);
            let i = p / n;
            let j = p % n;
            assert(entry(one, n, i, j) == one[p]);
            assert(entry(other, n, i, j) == other[p]);
            lemma_fold_unique(
                step,
                row(a, k, i),
                col(b, n, k, j),
                entry(before, n, i, j),
                one[p],
                other[p],
            );
        }
    }
    assert(one =~= other);
}

/// Accumulation, not overwrite: a second pass goes on from what the first left. After two
/// passes with the same `a` and `b`, element `(i, j)` has gone through one fold over the terms
/// of its dot product taken twice over.
pub proof fn lemma_accumulated_twice<T, F: Fn(T, T, T) -> T>(
    step: F,
    a: Seq<T>,
    b: Seq<T>,
    m: int,
    k: int,
    n: int,
    before: Seq<T>,
    once: Seq<T>,
    twice: Seq<T>,
    i: int,
    j: int,
)
    requires
        0 <= i < m,
        0 <= j < n,
        accumulated(step, a, b, m, k, n, before, once),
        accumulated(step, a, b, m, k, n, once, twice),
    ensures
        folds_to(
            step,
            row(a, k, i) + row(a, k, i),
            col(b, n, k, j) + col(b, n, k, j),
            entry(before, n, i, j),
            entry(twice, n, i, j),
        ),
{
    assert(folds_to(
        step,
        row(a, k, i),
        col(b, n, k, j),
        entry(before, n, i, j),
        entry(once, n, i, j),
    ));
    assert(folds_to(
        step,
        row(a, k, i),
        col(b, n, k, j),
        entry(once, n, i, j),
        entry(twice, n, i, j),
    ));
    lemma_fold_concat(
        step,
        row(a, k, i),
        col(b, n, k, j),
        row(a, k, i),
        col(b, n, k, j),
        entry(before, n, i, j),
        entry(once, n, i, j),
        entry(twice, n, i, j),
    );
}

/// In exact arithmetic the kernels compute `c + a * b`: element `(i, j)` grows by the dot
/// product of row `i` of `a` and column `j` of `b`.
pub proof fn lemma_exact_product<T, F: Fn(T, T, T) -> T>(
    step: F,
    val: spec_fn(T) -> int,
    a: Seq<T>,
    b: Seq<T>,
    m: int,
    k: int,
    n: int,
    before: Seq<T>,
    after: Seq<T>,
    i: int,
    j: int,
)
    requires
        0 <= i < m,
        0 <= j < n,
        exact(step, val),
        accumulated(step, a, b, m, k, n, before, after),
    ensures
        val(entry(after, n, i, j)) == val(entry(before, n, i, j)) + dot(
            row(a, k, i).map_values(val),
            col(b, n, k, j).map_values(val),
        ),
{
    assert(folds_to(
        step,
        row(a, k, i),
        col(b, n, k, j),
        entry(before, n, i, j),
        entry(after, n, i, j),
    ));
    lemma_fold_exact(
        step,
        val,
        row(a, k, i),
        col(b, n, k, j),
        entry(before, n, i, j),
        entry(after, n, i, j),
    );
}

/// In exact arithmetic two passes with the same `a` and `b` add the product twice: element
/// `(i, j)` grows by twice the dot product of row `i` of `a` and column `j` of `b`.
pub proof fn lemma_exact_twice<T, F: Fn(T, T, T) -> T>(
    step: F,
    val: spec_fn(T) -> int,
    a: Seq<T>,
    b: Seq<T>,
    m: int,
    k: int,
    n: int,
    before: Seq<T>,
    once: Seq<T>,
    twice: Seq<T>,
    i: int,
    j: int,
)
    requires
        0 <= i < m,
        0 <= j < n,
        exact(step, val),
        accumulated(step, a, b, m, k, n, before, once),
        accumulated(step, a, b, m, k, n, once, twice),
    ensures
        val(entry(twice, n, i, j)) == val(entry(before, n, i, j)) + 2 * dot(
            row(a, k, i).map_values(val),
            col(b, n, k, j).map_values(val),
        ),
{
    lemma_exact_product(step, val, a, b, m, k, n, before, once, i, j);
    lemma_exact_product(step, val, a, b, m, k, n, once, twice, i, j);
}

/// With a dimension of zero there is nothing to add: the buffer stays as it was.
pub proof fn lemma_nothing_to_add<T, F: Fn(T, T, T) -> T>(
    step: F,
    a: Seq<T>,
    b: Seq<T>,
    m: int,
    k: int,
    n: int,
    before: Seq<T>,
    after: Seq<T>,
)
    requires
        0 <= m,
        0 <= k,
        0 <= n,
        m * n <= before.len(),
        m == 0 || k == 0 || n == 0,
        accumulated(step, a, b, m, k, n, before, after),
    ensures
        after == before,
{
    assert(m == 0 || n == 0 ==> m * n == 0) by (nonlinear_arith);
    assert forall|p: int| 0 <= p < before.len() implies after[p] == before[p] by {
        if p < m * n {
            lemma_split_offset(p, m, n);
            let i = p / n;
            let j = p % n;
            assert(entry(after, n, i, j) == after[p]);
            assert(entry(before, n, i, j) == before[p]);
            assert(row(a, k, i).len() == 0);
        }
    }
    assert(after =~= before);
}

} // verus!
