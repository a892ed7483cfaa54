//! Stand-alone helpers around syndromes and column sub-matrices.

use vstd::prelude::*;
use crate::bits::is_bits;
use crate::matrix::{calculate_partial_syndrome, calculate_syndrome, syndrome_of, BinaryMatrix};
use crate::sampling::{generate_random_error_vector, generate_subsets, range_vec};

verus! {

/// The syndrome of a fresh random error vector of the given weight.
pub fn generate_random_syndrome(h: &BinaryMatrix, weight: usize) -> (r: Vec<u8>)
    requires
        h.wf(),
        weight <= h.cols,
    ensures
        r@.len() == h.rows,
{
    let error_vector = generate_random_error_vector(h.cols, weight);
    calculate_syndrome(&error_vector, h)
}

/// Keep every `p`-th column of `H`: the reduced matrix some partitioned
/// searches work against.
pub fn compute_h_tilde(h: &BinaryMatrix, p: usize) -> (r: BinaryMatrix)
    requires
        h.wf(),
        p >= 1,
    ensures
        r.wf(),
        r.rows == h.rows,
        r.cols == h.cols / p,
{
    let rows = h.rows;
    let cols = h.cols;
    let new_cols = cols / p;
    let mut h_tilde = BinaryMatrix::zeros(rows, new_cols);
    let mut i: usize = 0;
    while i < rows
        invariant
            h.wf(),
            rows == h.rows,
            cols == h.cols,
            p >= 1,
            new_cols == cols / p,
            h_tilde.wf(),
            h_tilde.rows == rows,
            h_tilde.cols == new_cols,
            0 <= i <= rows,
        decreases rows - i,
    {
        let mut j: usize = 0;
        while j < new_cols
            invariant
                h.wf(),
                rows == h.rows,
                cols == h.cols,
                p >= 1,
                new_cols == cols / p,
                h_tilde.wf(),
                h_tilde.rows == rows,
                h_tilde.cols == new_cols,
                i < rows,
                0 <= j <= new_cols,
            decreases new_cols - j,
        {
            proof {
                vstd::arithmetic::div_mod::lemma_fundamental_div_mod(cols as int, p as int);
                vstd::arithmetic::mul::lemma_mul_inequality(j + 1, new_cols as int, p as int);
                assert((j + 1) * p == j * p + p) by (nonlinear_arith);
                assert(new_cols * p == p * new_cols) by (nonlinear_arith);
            }
            let bit = h.get(i, j * p);
            proof {
                assert(h.mat()[i as int][(j * p) as int] == 0 || h.mat()[i as int][(j
                    * p) as int] == 1);
            }
            h_tilde.set(i, j, bit);
            j = j + 1;
        }
        i = i + 1;
    }
    h_tilde
}

/// The columns of a sub-matrix that carry at least one set bit.
pub fn support_subset(q_i: &BinaryMatrix) -> (r: Vec<usize>)
    requires
        q_i.wf(),
    ensures
        forall|i: int| 0 <= i < r@.len() ==> #[trigger] r@[i] < q_i.cols,
{
    let mut support: Vec<usize> = Vec::new();
    let mut col: usize = 0;
    while col < q_i.cols
        invariant
            q_i.wf(),
            0 <= col <= q_i.cols,
            forall|i: int| 0 <= i < support@.len() ==> #[trigger] support@[i] < col,
        decreases q_i.cols - col,
    {
        let mut any = false;
        let mut row: usize = 0;
        while row < q_i.rows
            invariant
                q_i.wf(),
                col < q_i.cols,
                0 <= row <= q_i.rows,
            decreases q_i.rows - row,
        {
            if q_i.get(row, col) == 1 {
                any = true;
            }
            row = row + 1;
        }
        if any {
            support.push(col);
        }
        col = col + 1;
    }
    support
}

/// Extract the columns of `H` named by `indices` into a fresh sub-matrix.
pub fn extract_q_i(h_tilde: &BinaryMatrix, indices: &Vec<usize>) -> (r: BinaryMatrix)
    requires
        h_tilde.wf(),
        forall|i: int| 0 <= i < indices@.len() ==> #[trigger] indices@[i] < h_tilde.cols,
    ensures
        r.wf(),
        r.rows == h_tilde.rows,
        r.cols == indices@.len(),
{
    let rows = h_tilde.rows;
    let cols = indices.len();
    let mut out = BinaryMatrix::zeros(rows, cols);
    let mut c: usize = 0;
    while c < cols
        invariant
            h_tilde.wf(),
            rows == h_tilde.rows,
            cols == indices@.len(),
            forall|i: int| 0 <= i < indices@.len() ==> #[trigger] indices@[i] < h_tilde.cols,
            out.wf(),
            out.rows == rows,
            out.cols == cols,
            0 <= c <= cols,
        decreases cols - c,
    {
        let src_col = indices[c];
        let mut row: usize = 0;
        while row < rows
            invariant
                h_tilde.wf(),
                rows == h_tilde.rows,
                cols == indices@.len(),
                src_col < h_tilde.cols,
                out.wf(),
                out.rows == rows,
                out.cols == cols,
                c < cols,
                0 <= row <= rows,
            decreases rows - row,
        {
            let bit = h_tilde.get(row, src_col);
            proof {
                assert(h_tilde.mat()[row as int][src_col as int] == 0
                    || h_tilde.mat()[row as int][src_col as int] == 1);
            }
            out.set(row, c, bit);
            row = row + 1;
        }
        c = c + 1;
    }
    out
}

/// All `(l1 + l2)`-column subsets of `H~` whose columns XOR to a vector of
/// weight exactly `l`.
pub fn column_match(h_tilde: &BinaryMatrix, l: usize, l1: usize, l2: usize) -> (r: Vec<
    Vec<usize>,
>)
    requires
        h_tilde.wf(),
        l1 + l2 <= usize::MAX,
    ensures
        forall|k: int, i: int|
            0 <= k < r@.len() && 0 <= i < r@[k]@.len() ==> #[trigger] r@[k]@[i] < h_tilde.cols,
{
    let cols = h_tilde.cols;
    let all_cols = range_vec(0, cols);
    let subsets = generate_subsets(&all_cols, l1 + l2);
    let mut solutions: Vec<Vec<usize>> = Vec::new();
    let mut k: usize = 0;
    while k < subsets.len()
        invariant
            h_tilde.wf(),
            cols == h_tilde.cols,
            forall|q: int, i: int|
                0 <= q < subsets@.len() && 0 <= i < subsets@[q]@.len() ==> all_cols@.contains(
                    #[trigger] subsets@[q]@[i],
                ),
            forall|x: usize| all_cols@.contains(x) <==> x < cols,
            forall|q: int, i: int|
                0 <= q < solutions@.len() && 0 <= i < solutions@[q]@.len()
                    ==> #[trigger] solutions@[q]@[i] < h_tilde.cols,
            0 <= k <= subsets@.len(),
        decreases subsets@.len() - k,
    {
        let subset = crate::candidates::copy_positions(&subsets[k]);
        proof {
            assert forall|i: int| 0 <= i < subset@.len() implies #[trigger] subset@[i]
                < cols by {
                assert(all_cols@.contains(subsets@[k as int]@[i]));
            }
        }
        let column_sum = calculate_partial_syndrome(h_tilde, &subset, h_tilde.rows);
        if crate::bits::calculate_weight(&column_sum) == l {
            solutions.push(subset);
        }
        k = k + 1;
    }
    solutions
}

} // verus!
