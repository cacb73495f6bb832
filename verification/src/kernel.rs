//! The single-threaded kernels: one row, and all rows one after the other.

use vstd::prelude::*;
use crate::laws::lemma_nothing_to_add;
use crate::model::{accumulated, fold_defined, folds_to, lemma_fold_next, product_defined};
use crate::view::{col, entry, lemma_rows_apart, row, Matrix, MutMatrix};

verus! {

/// Columns `lo` up to `hi` of row `r` of `cur` have gone through the first `t` terms of their
/// folds, which run over `xs` and the columns of `b`.
spec fn terms_done<T, F: Fn(T, T, T) -> T>(
    step: F,
    xs: Seq<T>,
    b: Seq<T>,
    n: int,
    r: int,
    start: Seq<T>,
    cur: Seq<T>,
    lo: int,
    hi: int,
    t: int,
) -> bool {
    forall|q: int|
        lo <= q < hi ==> folds_to(
            step,
            xs.take(t),
            col(b, n, xs.len() as int, q).take(t),
            entry(start, n, r, q),
            #[trigger] entry(cur, n, r, q),
        )
}

/// `cur` is `start` but for row `r`.
spec fn row_only<T>(n: int, r: int, start: Seq<T>, cur: Seq<T>) -> bool {
    &&& cur.len() == start.len()
    &&& forall|p: int|
        0 <= p < start.len() && !(r * n <= p < r * n + n) ==> cur[p] == start[p]
}

/// Accumulates row `i` of the product of `a` and `b` into row `r` of `c`: for each term of the
/// dot products in turn, one pass along the row. The other rows of `c` stay as they are.
///
/// The row of the output has a number of its own because `c` may view a band of the output
/// that does not start at its first row.
#[verifier::loop_isolation(false)]
pub fn accumulate_row<T: Copy, F: Fn(T, T, T) -> T>(
    a: &Matrix<T>,
    b: &Matrix<T>,
    c: &mut MutMatrix<T>,
    i: usize,
    r: usize,
    step: &F,
)
    requires
        (i + 1) * a.cols <= a.data.len(),
        a.cols * b.cols <= b.data.len(),
        old(c).cols == b.cols,
        (r + 1) * b.cols <= old(c).data.len(),
        forall|j: int|
            0 <= j < b.cols ==> fold_defined(
                *step,
                row(a.data@, a.cols as int, i as int),
                col(b.data@, b.cols as int, a.cols as int, j),
                #[trigger] entry(old(c).data@, b.cols as int, r as int, j),
            ),
    ensures
        final(c).cols == old(c).cols,
        final(final(c).data)@ == final(old(c).data)@,
        final(c).data@.len() == old(c).data@.len(),
        forall|j: int|
            0 <= j < b.cols ==> folds_to(
                *step,
                row(a.data@, a.cols as int, i as int),
                col(b.data@, b.cols as int, a.cols as int, j),
                entry(old(c).data@, b.cols as int, r as int, j),
                #[trigger] entry(final(c).data@, b.cols as int, r as int, j),
            ),
        forall|p: int|
            0 <= p < old(c).data@.len() && !(r * b.cols <= p < (r + 1) * b.cols)
                ==> final(c).data@[p] == old(c).data@[p],
{
    let k = a.cols;
    let n = b.cols;
    let ghost xs = row(a.data@, k as int, i as int);
    let ghost start = c.data@;
    proof {
        lemma_rows_apart(k as int, i as int, i + 1);
        lemma_rows_apart(n as int, r as int, r + 1);
        assert(0 <= i * k && 0 <= r * n) by (nonlinear_arith);
    }
    for t in 0..k
        invariant
            c.cols == n,
            final(c.data)@ == final(old(c).data)@,
            row_only(n as int, r as int, start, c.data@),
            terms_done(*step, xs, b.data@, n as int, r as int, start, c.data@, 0, n as int, t as int),
    {
        proof {
            lemma_rows_apart(n as int, t as int, k as int);
            assert(0 <= t * n) by (nonlinear_arith);
        }
        for j in 0..n
            invariant
                c.cols == n,
                final(c.data)@ == final(old(c).data)@,
                row_only(n as int, r as int, start, c.data@),
                terms_done(*step, xs, b.data@, n as int, r as int, start, c.data@, 0, j as int, t + 1),
                terms_done(*step, xs, b.data@, n as int, r as int, start, c.data@, j as int, n as int, t as int),
        {
            let ghost ys = col(b.data@, n as int, k as int, j as int);
            let ghost init = entry(start, n as int, r as int, j as int);
            let ghost before = c.data@;
            let x = a.get(i, t);
            let y = b.get(t, j);
            let cell = c.get_mut(r, j);
            let ghost prev = *cell;
            assert(prev == entry(before, n as int, r as int, j as int));
            *cell = step(*cell, x, y);
            proof {
                let acc = entry(c.data@, n as int, r as int, j as int);
                assert(xs[t as int] == x && ys[t as int] == y);
                lemma_fold_next(*step, xs, ys, t as int, init, prev, acc);
                assert forall|q: int| 0 <= q < n && q != j implies #[trigger] entry(
                    c.data@,
                    n as int,
                    r as int,
                    q,
                ) == entry(before, n as int, r as int, q) by {}
            }
        }
    }
    proof {
        assert(xs.take(k as int) =~= xs);
        assert forall|j: int| 0 <= j < n implies folds_to(
            *step,
            xs,
            col(b.data@, n as int, k as int, j),
            entry(start, n as int, r as int, j),
            #[trigger] entry(c.data@, n as int, r as int, j),
        ) by {
            let ys = col(b.data@, n as int, k as int, j);
            assert(ys.take(k as int) =~= ys);
        }
    }
}

/// The sequential kernel: `c <- c + a * b`, row after row, on the calling thread.
///
/// `a` holds `m` rows of `k` elements, `b` holds `k` rows of `n`, `c` holds `m` rows of `n`;
/// longer buffers are accepted, and what lies behind those rows is neither read nor written.
/// `step` is the fused multiply-add of the element type. Element `(i, j)` of `c` goes through
/// `k` calls of it, one for each term of the dot product of row `i` of `a` with column `j` of
/// `b`, first term first. The kernel adds to what `c` holds: for the plain product, hand it a
/// `c` full of zeros.
#[verifier::loop_isolation(false)]
pub fn sgemm_sequential<T: Copy, F: Fn(T, T, T) -> T>(
    m: usize,
    k: usize,
    n: usize,
    a: &[T],
    b: &[T],
    c: &mut [T],
    step: F,
)
    requires
        m * k <= a.len(),
        k * n <= b.len(),
        m * n <= old(c).len(),
        product_defined(step, a@, b@, old(c)@, m as int, k as int, n as int),
    ensures
        accumulated(step, a@, b@, m as int, k as int, n as int, old(c)@, final(c)@),
        m == 0 || k == 0 || n == 0 ==> final(c)@ == old(c)@,
{
    let lhs = Matrix { data: a, cols: k };
    let rhs = Matrix { data: b, cols: n };
    let mut out = MutMatrix { data: c, cols: n };
    for i in 0..m
        invariant
            out.cols == n,
            final(out.data)@ == final(old(c))@,
            out.data@.len() == old(c)@.len(),
            forall|r: int, j: int|
                0 <= r < i && 0 <= j < n ==> folds_to(
                    step,
                    row(a@, k as int, r),
                    col(b@, n as int, k as int, j),
                    entry(old(c)@, n as int, r, j),
                    #[trigger] entry(out.data@, n as int, r, j),
                ),
            forall|p: int| i * n <= p < out.data@.len() ==> out.data@[p] == old(c)@[p],
    {
        let ghost before = out.data@;
        proof {
            lemma_rows_apart(k as int, i as int, m as int);
            lemma_rows_apart(n as int, i as int, m as int);
            assert(0 <= i * n) by (nonlinear_arith);
            assert forall|j: int| 0 <= j < n implies fold_defined(
                step,
                row(a@, k as int, i as int),
                col(b@, n as int, k as int, j),
                #[trigger] entry(before, n as int, i as int, j),
            ) by {
                assert(entry(before, n as int, i as int, j) == entry(
                    old(c)@,
                    n as int,
                    i as int,
                    j,
                ));
            }
        }
        accumulate_row(&lhs, &rhs, &mut out, i, i, &step);
        proof {
            assert forall|r: int, j: int| 0 <= r < i + 1 && 0 <= j < n implies folds_to(
                step,
                row(a@, k as int, r),
                col(b@, n as int, k as int, j),
                entry(old(c)@, n as int, r, j),
                #[trigger] entry(out.data@, n as int, r, j),
            ) by {
                if r < i {
                    lemma_rows_apart(n as int, r, i as int);
                    assert(entry(out.data@, n as int, r, j) == entry(before, n as int, r, j));
                } else {
                    assert(entry(before, n as int, r, j) == entry(old(c)@, n as int, r, j));
                }
            }
        }
    }
    proof {
        if m == 0 || k == 0 || n == 0 {
            lemma_nothing_to_add(
                step,
                a@,
                b@,
                m as int,
                k as int,
                n as int,
                old(c)@,
                out.data@,
            );
        }
    }
}

} // verus!
