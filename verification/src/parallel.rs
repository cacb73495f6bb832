//! The parallel kernel: the rows of the output are handed to a worker pool, one task a row.

use vstd::prelude::*;
use rayon::iter::{IndexedParallelIterator, ParallelIterator};
use rayon::slice::ParallelSliceMut;
use crate::kernel::accumulate_row;
use crate::laws::lemma_nothing_to_add;
use crate::model::{accumulated, fold_defined, folds_to, product_defined};
use crate::view::{col, entry, lemma_entry_in_rows, row, Matrix, MutMatrix};

verus! {

/// Chunk `i` of a buffer cut into consecutive pieces of `n` elements.
pub open spec fn chunk<T>(data: Seq<T>, n: int, i: int) -> Seq<T> {
    data.subrange(i * n, i * n + n)
}

/// `after` is `before`, one row of the output, with row `i` of the product of `a` and `b`
/// accumulated onto it.
pub open spec fn row_accumulated<T, F: Fn(T, T, T) -> T>(
    step: F,
    a: Seq<T>,
    b: Seq<T>,
    k: int,
    n: int,
    i: int,
    before: Seq<T>,
    after: Seq<T>,
) -> bool {
    &&& after.len() == before.len()
    &&& forall|j: int|
        0 <= j < n ==> folds_to(
            step,
            row(a, k, i),
            col(b, n, k, j),
            before[j],
            #[trigger] after[j],
        )
}

/// The work of one task: accumulates row `i` of the product of `a` and `b` into `out`, which
/// is row `i` of the output and nothing else.
pub fn accumulate_chunk<T: Copy, F: Fn(T, T, T) -> T>(
    a: &Matrix<T>,
    b: &Matrix<T>,
    i: usize,
    out: &mut [T],
    step: &F,
)
    requires
        (i + 1) * a.cols <= a.data.len(),
        a.cols * b.cols <= b.data.len(),
        old(out).len() == b.cols,
        forall|j: int|
            0 <= j < b.cols ==> fold_defined(
                *step,
                row(a.data@, a.cols as int, i as int),
                col(b.data@, b.cols as int, a.cols as int, j),
                #[trigger] old(out)@[j],
            ),
    ensures
        row_accumulated(
            *step,
            a.data@,
            b.data@,
            a.cols as int,
            b.cols as int,
            i as int,
            old(out)@,
            final(out)@,
        ),
{
    let ghost n = b.cols as int;
    let mut band = MutMatrix { data: out, cols: b.cols };
    proof {
        assert forall|j: int| 0 <= j < n implies fold_defined(
            *step,
            row(a.data@, a.cols as int, i as int),
            col(b.data@, n, a.cols as int, j),
            #[trigger] entry(band.data@, n, 0, j),
        ) by {
            assert(entry(band.data@, n, 0, j) == old(out)@[j]);
        }
    }
    accumulate_row(a, b, &mut band, i, 0, step);
    proof {
        assert forall|j: int| 0 <= j < n implies folds_to(
            *step,
            row(a.data@, a.cols as int, i as int),
            col(b.data@, n, a.cols as int, j),
            old(out)@[j],
            #[trigger] band.data@[j],
        ) by {
            assert(entry(band.data@, n, 0, j) == band.data@[j]);
            assert(entry(old(out)@, n, 0, j) == old(out)@[j]);
        }
    }
}

/// Runs `accumulate_chunk` on every row of `c` through rayon's `par_chunks_mut`, `enumerate`
/// and `for_each`.
///
/// Trusted, from rayon's documentation and source: `par_chunks_mut(n)` cuts the slice into
/// consecutive, non-overlapping chunks of `n` elements (here the length is a multiple of `n`,
/// so none is shorter); `enumerate` pairs each chunk with its number, counted from zero; and
/// `for_each` calls the closure exactly once on each pair and returns when every call has.
/// Each chunk is therefore left as one call of `accumulate_chunk` leaves it. `par_chunks_mut`
/// panics on a chunk size of zero, which the first precondition rules out.
#[verifier::external_body]
fn for_each_row<T, F>(a: &Matrix<T>, b: &Matrix<T>, m: usize, c: &mut [T], step: &F) where
    T: Copy + Send + Sync,
    F: Fn(T, T, T) -> T + Sync,

    requires
        b.cols > 0,
        old(c).len() == m * b.cols,
        m * a.cols <= a.data.len(),
        a.cols * b.cols <= b.data.len(),
        product_defined(
            *step,
            a.data@,
            b.data@,
            old(c)@,
            m as int,
            a.cols as int,
            b.cols as int,
        ),
    ensures
        final(c)@.len() == old(c)@.len(),
        forall|i: int|
            0 <= i < m ==> row_accumulated(
                *step,
                a.data@,
                b.data@,
                a.cols as int,
                b.cols as int,
                i,
                chunk(old(c)@, b.cols as int, i),
                #[trigger] chunk(final(c)@, b.cols as int, i),
            ),
{
    c.par_chunks_mut(b.cols).enumerate().for_each(|(i, out)| accumulate_chunk(a, b, i, out, step));
}

/// The parallel kernel: `c <- c + a * b`, the rows of `c` spread over the worker pool. It
/// returns when every row is done.
pub fn sgemm<T, F>(m: usize, k: usize, n: usize, a: &[T], b: &[T], c: &mut [T], step: F) where
    T: Copy + Send + Sync,
    F: Fn(T, T, T) -> T + Sync,

    requires
        m * k <= a.len(),
        k * n <= b.len(),
        m * n <= old(c).len(),
        product_defined(step, a@, b@, old(c)@, m as int, k as int, n as int),
    ensures
        accumulated(step, a@, b@, m as int, k as int, n as int, old(c)@, final(c)@),
        m == 0 || k == 0 || n == 0 ==> final(c)@ == old(c)@,
{
    if n == 0 {
        return ;
    }
    let lhs = Matrix { data: a, cols: k };
    let rhs = Matrix { data: b, cols: n };
    let (head, tail) = c.split_at_mut(m * n);
    proof {
        assert forall|i: int, j: int| 0 <= i < m && 0 <= j < n implies fold_defined(
            step,
            row(a@, k as int, i),
            col(b@, n as int, k as int, j),
            #[trigger] entry(head@, n as int, i, j),
        ) by {
            lemma_entry_in_rows(m as int, n as int, i, j);
            assert(entry(head@, n as int, i, j) == entry(old(c)@, n as int, i, j));
        }
    }
    for_each_row(&lhs, &rhs, m, head, &step);
    proof {
        let done = head@ + tail@;
        assert forall|i: int, j: int| 0 <= i < m && 0 <= j < n implies folds_to(
            step,
            row(a@, k as int, i),
            col(b@, n as int, k as int, j),
            entry(old(c)@, n as int, i, j),
            #[trigger] entry(done, n as int, i, j),
        ) by {
            lemma_entry_in_rows(m as int, n as int, i, j);
            assert(chunk(head@, n as int, i)[j] == entry(done, n as int, i, j));
            assert(chunk(old(c)@.subrange(0, m * n), n as int, i)[j] == entry(
                old(c)@,
                n as int,
                i,
                j,
            ));
        }
        if m == 0 || k == 0 {
            lemma_nothing_to_add(step, a@, b@, m as int, k as int, n as int, old(c)@, done);
        }
    }
}

} // verus!
