use par_gemm::{
    accumulate_chunk, accumulate_row, check_dimensions, sgemm, sgemm_sequential, try_sgemm,
    DimensionMismatch, Matrix, MutMatrix,
};

fn step(acc: i64, x: i64, y: i64) -> i64 {
    acc + x * y
}

fn fma(acc: f32, x: f32, y: f32) -> f32 {
    acc + x * y
}

fn ramp(len: usize, scale: f32) -> Vec<f32> {
    let mut v = vec![];
    for p in 0..len {
        v.push(((p * 7 + 3) % 11) as f32 * scale - 1.25);
    }
    v
}

#[test]
fn integer_product_is_exact() {
    // [1 2 3; 4 5 6] * [7 8; 9 10; 11 12] = [58 64; 139 154]
    let a: Vec<i64> = vec![1, 2, 3, 4, 5, 6];
    let b: Vec<i64> = vec![7, 8, 9, 10, 11, 12];
    let mut c: Vec<i64> = vec![1000, -1, 0, 5];
    sgemm(2, 3, 2, &a, &b, &mut c, step);
    assert_eq!(c, vec![1058, 63, 139, 159]);
    sgemm(2, 3, 2, &a, &b, &mut c, step);
    assert_eq!(c, vec![1116, 127, 278, 313]);
}

#[test]
fn terms_are_folded_first_to_last() {
    // The step records the order of its calls: each call appends one digit.
    let a: Vec<i64> = vec![1, 2, 3];
    let b: Vec<i64> = vec![1, 1, 1];
    let mut c: Vec<i64> = vec![0];
    sgemm(1, 3, 1, &a, &b, &mut c, |acc: i64, x: i64, y: i64| acc * 10 + x * y);
    assert_eq!(c, vec![123]);
    let mut s: Vec<i64> = vec![9];
    sgemm_sequential(1, 3, 1, &a, &b, &mut s, |acc: i64, x: i64, y: i64| acc * 10 + x * y);
    assert_eq!(s, vec![9123]);
}

#[test]
fn sequential_and_parallel_agree() {
    let (m, k, n) = (17, 9, 13);
    let a = ramp(m * k, 0.5);
    let b = ramp(k * n, 0.25);
    let seed = ramp(m * n, 2.0);
    let mut par = seed.clone();
    let mut seq = seed.clone();
    sgemm(m, k, n, &a, &b, &mut par, fma);
    sgemm_sequential(m, k, n, &a, &b, &mut seq, fma);
    assert_eq!(par, seq);
    assert_ne!(par, seed);
}

#[test]
fn pool_size_does_not_matter() {
    let (m, k, n) = (23, 5, 7);
    let a = ramp(m * k, 0.5);
    let b = ramp(k * n, 0.25);
    let seed = ramp(m * n, 2.0);
    let mut one = seed.clone();
    let mut many = seed.clone();
    let single = rayon::ThreadPoolBuilder::new().num_threads(1).build().unwrap();
    let wide = rayon::ThreadPoolBuilder::new().num_threads(8).build().unwrap();
    single.install(|| sgemm(m, k, n, &a, &b, &mut one, fma));
    wide.install(|| sgemm(m, k, n, &a, &b, &mut many, fma));
    assert_eq!(one, many);
    let mut seq = seed.clone();
    sgemm_sequential(m, k, n, &a, &b, &mut seq, fma);
    assert_eq!(one, seq);
}

#[test]
fn matches_reference_within_tolerance() {
    let (m, k, n) = (6, 31, 4);
    let a = ramp(m * k, 0.37);
    let b = ramp(k * n, 0.11);
    let seed = ramp(m * n, 1.5);
    let mut c = seed.clone();
    sgemm(m, k, n, &a, &b, &mut c, fma);
    for i in 0..m {
        for j in 0..n {
            let mut sum = seed[i * n + j] as f64;
            for t in 0..k {
                sum += a[i * k + t] as f64 * b[t * n + j] as f64;
            }
            let got = c[i * n + j] as f64;
            assert!((got - sum).abs() <= 1e-5 * sum.abs().max(1.0));
        }
    }
}

#[test]
fn zero_rows_leave_c_unchanged() {
    let b = ramp(12, 1.0);
    let seed = ramp(5, 1.0);
    let mut c = seed.clone();
    sgemm(0, 3, 4, &[], &b, &mut c, fma);
    assert_eq!(c, seed);
    sgemm_sequential(0, 3, 4, &[], &b, &mut c, fma);
    assert_eq!(c, seed);
}

#[test]
fn zero_columns_leave_c_unchanged() {
    let a = ramp(6, 1.0);
    let seed = ramp(5, 1.0);
    let mut c = seed.clone();
    sgemm(2, 3, 0, &a, &[], &mut c, fma);
    assert_eq!(c, seed);
    sgemm_sequential(2, 3, 0, &a, &[], &mut c, fma);
    assert_eq!(c, seed);
}

#[test]
fn zero_terms_leave_c_unchanged() {
    let seed = ramp(6, 1.0);
    let mut c = seed.clone();
    sgemm(2, 0, 3, &[], &[], &mut c, fma);
    assert_eq!(c, seed);
    sgemm_sequential(2, 0, 3, &[], &[], &mut c, fma);
    assert_eq!(c, seed);
}

#[test]
fn what_lies_behind_the_rows_is_untouched() {
    let a: Vec<i64> = vec![1, 2, 3, 4, 0, 0];
    let b: Vec<i64> = vec![5, 6, 7, 8, 99];
    let mut c: Vec<i64> = vec![0, 0, 0, 0, 41, 42, 43];
    sgemm(2, 2, 2, &a, &b, &mut c, step);
    assert_eq!(c, vec![19, 22, 43, 50, 41, 42, 43]);
    let mut s: Vec<i64> = vec![0, 0, 0, 0, 41, 42, 43];
    sgemm_sequential(2, 2, 2, &a, &b, &mut s, step);
    assert_eq!(s, c);
}

#[test]
fn views_address_row_major() {
    let data: Vec<i64> = vec![10, 11, 12, 20, 21, 22];
    let v = Matrix { data: &data, cols: 3 };
    assert_eq!(v.get(0, 0), 10);
    assert_eq!(v.get(0, 2), 12);
    assert_eq!(v.get(1, 0), 20);
    assert_eq!(v.get(1, 2), 22);
    // the stride is all a view knows: column 3 of row 0 is column 0 of row 1
    assert_eq!(v.get(0, 3), 20);
    let narrow = Matrix { data: &data, cols: 2 };
    assert_eq!(narrow.get(2, 1), 22);
}

#[test]
fn mutable_view_writes_one_element() {
    let mut data: Vec<i64> = vec![10, 11, 12, 20, 21, 22];
    {
        let mut v = MutMatrix { data: &mut data, cols: 3 };
        let cell = v.get_mut(1, 1);
        assert_eq!(*cell, 21);
        *cell = -5;
        assert_eq!(v.cols, 3);
    }
    assert_eq!(data, vec![10, 11, 12, 20, -5, 22]);
}

#[test]
fn one_row_into_a_band() {
    // a is 3 x 2, b is 2 x 2; the band views rows 1 and 2 of the output.
    let a_data: Vec<i64> = vec![1, 2, 3, 4, 5, 6];
    let b_data: Vec<i64> = vec![1, 10, 100, 1000];
    let a = Matrix { data: &a_data, cols: 2 };
    let b = Matrix { data: &b_data, cols: 2 };
    let mut band_data: Vec<i64> = vec![7, 7, 7, 7];
    {
        let mut band = MutMatrix { data: &mut band_data, cols: 2 };
        accumulate_row(&a, &b, &mut band, 2, 1, &step);
    }
    assert_eq!(band_data, vec![7, 7, 7 + 605, 7 + 6050]);
}

#[test]
fn one_chunk_is_one_row() {
    let a_data: Vec<i64> = vec![1, 2, 3, 4, 5, 6];
    let b_data: Vec<i64> = vec![1, 10, 100, 1000];
    let a = Matrix { data: &a_data, cols: 2 };
    let b = Matrix { data: &b_data, cols: 2 };
    let mut out: Vec<i64> = vec![1, 2];
    accumulate_chunk(&a, &b, 1, &mut out, &step);
    assert_eq!(out, vec![1 + 403, 2 + 4030]);
}

#[test]
fn short_buffers_are_rejected() {
    let a: Vec<i64> = vec![1; 6];
    let b: Vec<i64> = vec![1; 12];
    let mut c: Vec<i64> = vec![5; 8];
    assert_eq!(try_sgemm(2, 3, 4, &a[..5], &b, &mut c, step), Err(DimensionMismatch));
    assert_eq!(try_sgemm(2, 3, 4, &a, &b[..11], &mut c, step), Err(DimensionMismatch));
    assert_eq!(try_sgemm(2, 3, 4, &a, &b, &mut c[..7], step), Err(DimensionMismatch));
    assert_eq!(c, vec![5; 8]);
    assert_eq!(try_sgemm(2, 3, 4, &a, &b, &mut c, step), Ok(()));
    assert_eq!(c, vec![8; 8]);
}

#[test]
fn dimensions_that_overflow_are_rejected() {
    let a: Vec<i64> = vec![1; 4];
    let mut c: Vec<i64> = vec![5; 4];
    let huge = usize::MAX / 2 + 1;
    assert_eq!(try_sgemm(huge, 2, 0, &a, &[], &mut c, step), Err(DimensionMismatch));
    assert_eq!(c, vec![5; 4]);
    assert_eq!(check_dimensions(huge, 2, 0, usize::MAX, 0, 0), Err(DimensionMismatch));
    assert_eq!(check_dimensions(huge, 1, 0, huge, 0, 0), Ok(()));
}

#[test]
fn lengths_are_checked_against_the_products() {
    assert_eq!(check_dimensions(2, 3, 4, 6, 12, 8), Ok(()));
    assert_eq!(check_dimensions(2, 3, 4, 7, 13, 9), Ok(()));
    assert_eq!(check_dimensions(2, 3, 4, 5, 12, 8), Err(DimensionMismatch));
    assert_eq!(check_dimensions(2, 3, 4, 6, 11, 8), Err(DimensionMismatch));
    assert_eq!(check_dimensions(2, 3, 4, 6, 12, 7), Err(DimensionMismatch));
    assert_eq!(check_dimensions(0, 0, 0, 0, 0, 0), Ok(()));
}
