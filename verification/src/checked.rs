//! The kernel behind a check of the buffer lengths.

use vstd::prelude::*;
use crate::model::{accumulated, product_defined};
use crate::parallel::sgemm;

verus! {

/// The buffers are too short for the dimensions.
#[derive(Debug, Clone, Copy, PartialEq, Eq)]
pub struct DimensionMismatch;

/// The buffers hold what the dimensions ask for: `m` rows of `k` in `a`, `k` rows of `n` in
/// `b`, `m` rows of `n` in `c`.
pub open spec fn dimensions_fit(m: int, k: int, n: int, a_len: int, b_len: int, c_len: int) -> bool {
    m * k <= a_len && k * n <= b_len && m * n <= c_len
}

/// Whether a buffer of `len` elements holds `rows` rows of `cols`.
pub fn fits(rows: usize, cols: usize, len: usize) -> (ok: bool)
    ensures
        ok == (rows * cols <= len),
{
    match rows.checked_mul(cols) {
        Some(needed) => needed <= len,
        None => false,
    }
}

/// Checks the buffer lengths against the dimensions.
pub fn check_dimensions(
    m: usize,
    k: usize,
    n: usize,
    a_len: usize,
    b_len: usize,
    c_len: usize,
) -> (r: Result<(), DimensionMismatch>)
    ensures
        r is Ok <==> dimensions_fit(
            m as int,
            k as int,
            n as int,
            a_len as int,
            b_len as int,
            c_len as int,
        ),
{
    if fits(m, k, a_len) && fits(k, n, b_len) && fits(m, n, c_len) {
        Ok(())
    } else {
        Err(DimensionMismatch)
    }
}

/// `sgemm` for callers that cannot vouch for their buffers: where a buffer is too short for
/// the dimensions, nothing is written and the mismatch is reported.
pub fn try_sgemm<T, F>(
    m: usize,
    k: usize,
    n: usize,
    a: &[T],
    b: &[T],
    c: &mut [T],
    step: F,
) -> (r: Result<(), DimensionMismatch>) where T: Copy + Send + Sync, F: Fn(T, T, T) -> T + Sync
    requires
        dimensions_fit(
            m as int,
            k as int,
            n as int,
            a.len() as int,
            b.len() as int,
            old(c).len() as int,
        ) ==> product_defined(step, a@, b@, old(c)@, m as int, k as int, n as int),
    ensures
        r is Ok <==> dimensions_fit(
            m as int,
            k as int,
            n as int,
            a.len() as int,
            b.len() as int,
            old(c).len() as int,
        ),
        r is Ok ==> accumulated(step, a@, b@, m as int, k as int, n as int, old(c)@, final(c)@),
        r is Err ==> final(c)@ == old(c)@,
{
    check_dimensions(m, k, n, a.len(), b.len(), c.len())?;
    sgemm(m, k, n, a, b, c, step);
    Ok(())
}

} // verus!
