//! The linear algebra that a solver is set up with.

use vstd::prelude::*;

verus! {

/// How a solver's matrices are computed. Matrices are row-major; binary32 and
/// binary64 numbers are bit patterns.
pub trait SolverMath {
    /// The transpose in binary64 of a matrix of `v` rows and `k` columns.
    fn compute_transpose(delta_matrix: &Vec<u32>, v: usize, k: usize) -> Vec<u64>;

    /// The product of a matrix of `k` rows and `v` columns with its transpose.
    fn compute_dt_d(dt: &Vec<u64>, k: usize, v: usize) -> Vec<u64>;

    /// The diagonal of the box around vertices of three components each.
    fn compute_bounding_box_diagonal(flat: &Vec<u32>) -> u64;

    /// The matrix of `k` rows and columns with its regularisation, and the
    /// weight of the temporal pull.
    fn apply_regularization(
        a: Vec<u64>,
        k: usize,
        scale: u64,
        strength_l2: u32,
        strength_l1: u32,
        strength_temporal: u32,
    ) -> (Vec<u64>, u64);
}

/// Whether `M` may give `dt` as the transpose.
pub open spec fn transposed<M: SolverMath>(
    delta_matrix: &Vec<u32>,
    v: usize,
    k: usize,
    dt: Vec<u64>,
) -> bool {
    call_ensures(M::compute_transpose, (delta_matrix, v, k), dt)
}

/// Whether `M` may give `a` as the product with the transpose.
pub open spec fn squared<M: SolverMath>(dt: &Vec<u64>, k: usize, v: usize, a: Vec<u64>) -> bool {
    call_ensures(M::compute_dt_d, (dt, k, v), a)
}

/// Whether `M` may give `d` as the diagonal.
pub open spec fn diagonal_is<M: SolverMath>(flat: &Vec<u32>, d: u64) -> bool {
    call_ensures(M::compute_bounding_box_diagonal, (flat,), d)
}

/// Whether `M` may give `r` as the regularised matrix and the temporal weight.
pub open spec fn regularized<M: SolverMath>(
    a: Vec<u64>,
    k: usize,
    scale: u64,
    strengths: (u32, u32, u32),
    r: (Vec<u64>, u64),
) -> bool {
    call_ensures(
        M::apply_regularization,
        (a, k, scale, strengths.0, strengths.1, strengths.2),
        r,
    )
}

} // verus!
