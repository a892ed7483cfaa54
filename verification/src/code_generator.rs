//! Generators for the code families the decoders are benchmarked against:
//! random systematic codes, Hamming codes, binary Goppa codes, and
//! quasi-cyclic codes.  Each returns a generator matrix `G` and a
//! parity-check matrix `H` of the agreed shapes; invalid parameters are
//! rejected before any construction starts.

use vstd::prelude::*;
use crate::goppa::{generate_goppa_parity_matrix, generate_valid_goppa_params};
use crate::matrix::BinaryMatrix;
use crate::sampling::{random_below, random_permutation};
use crate::types::{CodeType, GoppaParams};

verus! {

/// Why a code could not be generated.
#[derive(Clone, Copy, PartialEq, Eq, Structural, Debug)]
pub enum CodeGenError {
    /// The requested `(n, k, w)` combination is outside the family's range.
    InvalidParameters,
    /// No valid instance was found for parameters that are in range.
    ConstructionFailed,
}

/// Rewrite `H` as `[P^T | I]` and derive the generator `G = [I | P]`.
///
/// The left `k` columns of `H` are taken as `P^T`, so the returned pair is
/// systematic with one shared `P`: every row of the returned `G` is a
/// codeword of the returned `H`.
pub fn convert_to_systematic(h: &BinaryMatrix) -> (r: (BinaryMatrix, BinaryMatrix))
    requires
        h.wf(),
        h.rows <= h.cols,
        h.rows >= 1,
    ensures
        r.0.wf(),
        r.0.rows == h.cols - h.rows,
        r.0.cols == h.cols,
        r.1.wf(),
        r.1.rows == h.rows,
        r.1.cols == h.cols,
        forall|j: int, c: int|
            0 <= j < h.rows && 0 <= c < h.cols - h.rows ==> r.1.mat()[j][c] == h.mat()[j][c],
        forall|j: int, c: int|
            0 <= j < h.rows && h.cols - h.rows <= c < h.cols ==> r.1.mat()[j][c] == (if c
                == h.cols - h.rows + j {
                1u8
            } else {
                0u8
            }),
        forall|i: int, c: int|
            0 <= i < h.cols - h.rows && 0 <= c < h.cols - h.rows ==> r.0.mat()[i][c] == (if c
                == i {
                1u8
            } else {
                0u8
            }),
        forall|i: int, j: int|
            0 <= i < h.cols - h.rows && 0 <= j < h.rows ==> r.0.mat()[i][h.cols - h.rows + j]
                == h.mat()[j][i],
        forall|i: int|
            0 <= i < h.cols - h.rows ==> crate::bits::all_zero(
                crate::matrix::syndrome_of(r.1.mat(), #[trigger] r.0.mat()[i]),
            ),
{
    let m = h.rows;
    let n = h.cols;
    let k = n - m;

    let mut systematic_h = BinaryMatrix::zeros(m, n);
    let mut i: usize = 0;
    while i < m
        invariant
            h.wf(),
            m == h.rows,
            n == h.cols,
            k == n - m,
            systematic_h.wf(),
            systematic_h.rows == m,
            systematic_h.cols == n,
            0 <= i <= m,
            forall|r0: int, c: int|
                0 <= r0 < m && 0 <= c < n && r0 < i ==> systematic_h.mat()[r0][c] == (if c
                    < k {
                    h.mat()[r0][c]
                } else if c == k + r0 {
                    1u8
                } else {
                    0u8
                }),
            forall|r0: int, c: int|
                0 <= r0 < m && 0 <= c < n && r0 >= i ==> systematic_h.mat()[r0][c] == 0,
        decreases m - i,
    {
        let mut j: usize = 0;
        while j < k
            invariant
                h.wf(),
                m == h.rows,
                n == h.cols,
                k == n - m,
                systematic_h.wf(),
                systematic_h.rows == m,
                systematic_h.cols == n,
                i < m,
                0 <= j <= k,
                forall|r0: int, c: int|
                    0 <= r0 < m && 0 <= c < n && r0 < i ==> systematic_h.mat()[r0][c] == (if c
                        < k {
                        h.mat()[r0][c]
                    } else if c == k + r0 {
                        1u8
                    } else {
                        0u8
                    }),
                forall|c: int|
                    0 <= c < n && c < j ==> systematic_h.mat()[i as int][c]
                        == h.mat()[i as int][c],
                forall|c: int| j <= c < n ==> systematic_h.mat()[i as int][c] == 0,
                forall|r0: int, c: int|
                    0 <= r0 < m && 0 <= c < n && r0 > i ==> systematic_h.mat()[r0][c] == 0,
            decreases k - j,
        {
            let bit = h.get(i, j);
            proof {
                assert(h.mat()[i as int][j as int] == 0 || h.mat()[i as int][j as int] == 1);
            }
            systematic_h.set(i, j, bit);
            j = j + 1;
        }
        systematic_h.set(i, k + i, 1);
        i = i + 1;
    }

    let mut g = BinaryMatrix::zeros(k, n);
    let mut i2: usize = 0;
    while i2 < k
        invariant
            h.wf(),
            m == h.rows,
            n == h.cols,
            k == n - m,
            g.wf(),
            g.rows == k,
            g.cols == n,
            0 <= i2 <= k,
            forall|r0: int, c: int|
                0 <= r0 < k && 0 <= c < k ==> g.mat()[r0][c] == (if c == r0 && r0 < i2 {
                    1u8
                } else {
                    0u8
                }),
            forall|r0: int, c: int|
                0 <= r0 < k && 0 <= c < m && r0 < i2 ==> g.mat()[r0][k + c] == h.mat()[c][r0],
        decreases k - i2,
    {
        g.set(i2, i2, 1);
        let mut j2: usize = 0;
        while j2 < m
            invariant
                h.wf(),
                m == h.rows,
                n == h.cols,
                k == n - m,
                g.wf(),
                g.rows == k,
                g.cols == n,
                i2 < k,
                0 <= j2 <= m,
                forall|r0: int, c: int|
                    0 <= r0 < k && 0 <= c < k ==> g.mat()[r0][c] == (if c == r0 && r0 <= i2 {
                        1u8
                    } else {
                        0u8
                    }),
                forall|r0: int, c: int|
                    0 <= r0 < k && 0 <= c < m && (r0 < i2 || (r0 == i2 && c < j2))
                        ==> g.mat()[r0][k + c] == h.mat()[c][r0],
            decreases m - j2,
        {
            let bit = h.get(j2, i2);
            proof {
                assert(h.mat()[j2 as int][i2 as int] == 0 || h.mat()[j2 as int][i2 as int]
                    == 1);
            }
            g.set(i2, k + j2, bit);
            j2 = j2 + 1;
        }
        i2 = i2 + 1;
    }

    proof {
        assert forall|r0: int, c: int|
            0 <= r0 < k && 0 <= c < m implies g.mat()[r0][k + c]
            == systematic_h.mat()[c][r0] by {
            assert(systematic_h.mat()[c][r0] == h.mat()[c][r0]);
        }
        crate::matrix::lemma_systematic_orthogonal(
            g.mat(),
            systematic_h.mat(),
            k as int,
            m as int,
        );
    }
    (g, systematic_h)
}

/// A random systematic code: `G = [I_k | P]` and `H = [P^T | I_{n-k}]`
/// share one uniformly random `P`, so every row of `G` is a codeword of
/// `H`: the `G * H^T = 0` invariant holds by construction.
pub fn generate_random_code(n: usize, k: usize) -> (r: Result<
    (BinaryMatrix, BinaryMatrix),
    CodeGenError,
>)
    requires
        k >= 1,
        k < n,
    ensures
        r matches Ok(gh) ==> {
            &&& gh.0.wf()
            &&& gh.0.rows == k
            &&& gh.0.cols == n
            &&& gh.1.wf()
            &&& gh.1.rows == n - k
            &&& gh.1.cols == n
            &&& forall|i: int|
                0 <= i < k ==> crate::bits::all_zero(
                    crate::matrix::syndrome_of(gh.1.mat(), #[trigger] gh.0.mat()[i]),
                )
        },
        r is Ok,
{
    let m = n - k;
    let mut g = BinaryMatrix::zeros(k, n);
    let mut h = BinaryMatrix::zeros(m, n);

    let mut i: usize = 0;
    while i < k
        invariant
            g.wf(),
            g.rows == k,
            g.cols == n,
            k < n,
            0 <= i <= k,
            forall|r0: int, c: int|
                0 <= r0 < k && 0 <= c < n ==> g.mat()[r0][c] == (if c == r0 && r0 < i {
                    1u8
                } else {
                    0u8
                }),
        decreases k - i,
    {
        g.set(i, i, 1);
        i = i + 1;
    }
    let mut j: usize = 0;
    while j < m
        invariant
            h.wf(),
            h.rows == m,
            h.cols == n,
            m == n - k,
            k < n,
            0 <= j <= m,
            forall|r0: int, c: int|
                0 <= r0 < m && 0 <= c < n ==> h.mat()[r0][c] == (if c == k + r0 && r0 < j {
                    1u8
                } else {
                    0u8
                }),
        decreases m - j,
    {
        h.set(j, k + j, 1);
        j = j + 1;
    }

    let mut i2: usize = 0;
    while i2 < k
        invariant
            g.wf(),
            g.rows == k,
            g.cols == n,
            h.wf(),
            h.rows == m,
            h.cols == n,
            m == n - k,
            k < n,
            0 <= i2 <= k,
            forall|r0: int, c: int|
                0 <= r0 < k && 0 <= c < k ==> g.mat()[r0][c] == (if c == r0 {
                    1u8
                } else {
                    0u8
                }),
            forall|r0: int, c: int|
                0 <= r0 < m && k <= c < n ==> h.mat()[r0][c] == (if c == k + r0 {
                    1u8
                } else {
                    0u8
                }),
            forall|r0: int, c: int|
                0 <= r0 < k && 0 <= c < m && r0 < i2 ==> g.mat()[r0][k + c] == h.mat()[c][r0],
        decreases k - i2,
    {
        let mut j2: usize = 0;
        while j2 < m
            invariant
                g.wf(),
                g.rows == k,
                g.cols == n,
                h.wf(),
                h.rows == m,
                h.cols == n,
                m == n - k,
                k < n,
                i2 < k,
                0 <= j2 <= m,
                forall|r0: int, c: int|
                    0 <= r0 < k && 0 <= c < k ==> g.mat()[r0][c] == (if c == r0 {
                        1u8
                    } else {
                        0u8
                    }),
                forall|r0: int, c: int|
                    0 <= r0 < m && k <= c < n ==> h.mat()[r0][c] == (if c == k + r0 {
                        1u8
                    } else {
                        0u8
                    }),
                forall|r0: int, c: int|
                    0 <= r0 < k && 0 <= c < m && (r0 < i2 || (r0 == i2 && c < j2))
                        ==> g.mat()[r0][k + c] == h.mat()[c][r0],
            decreases m - j2,
        {
            let bit = random_below(2) as u8;
            g.set(i2, k + j2, bit);
            h.set(j2, i2, bit);
            j2 = j2 + 1;
        }
        i2 = i2 + 1;
    }

    proof {
        crate::matrix::lemma_systematic_orthogonal(g.mat(), h.mat(), k as int, m as int);
    }
    Ok((g, h))
}

/// A Hamming-style code: column `c` of `H` is the `m`-bit binary writing of
/// `c + 1`, then brought to systematic form.
pub fn generate_hamming_code(n: usize, k: usize) -> (r: Result<
    (BinaryMatrix, BinaryMatrix),
    CodeGenError,
>)
    requires
        k >= 1,
        k < n,
        n - k <= 32,
    ensures
        r matches Ok(gh) ==> {
            &&& gh.0.wf()
            &&& gh.0.rows == k
            &&& gh.0.cols == n
            &&& gh.1.wf()
            &&& gh.1.rows == n - k
            &&& gh.1.cols == n
            &&& forall|i: int|
                0 <= i < k ==> crate::bits::all_zero(
                    crate::matrix::syndrome_of(gh.1.mat(), #[trigger] gh.0.mat()[i]),
                )
        },
        r is Ok,
{
    let m = n - k;
    let mut h = BinaryMatrix::zeros(m, n);
    let mut col: usize = 0;
    while col < n
        invariant
            h.wf(),
            h.rows == m,
            h.cols == n,
            m == n - k,
            1 <= m <= 32,
            0 <= col <= n,
        decreases n - col,
    {
        let value = col + 1;
        let mut row: usize = 0;
        while row < m
            invariant
                h.wf(),
                h.rows == m,
                h.cols == n,
                1 <= m <= 32,
                col < n,
                value == col + 1,
                0 <= row <= m,
            decreases m - row,
        {
            let shift = (m - 1 - row) as u32;
            let bit = if shift < 64 {
                ((value >> shift) & 1) as u8
            } else {
                0
            };
            proof {
                let v = value;
                let s = shift;
                assert(((v >> s) & 1) == 0 || ((v >> s) & 1) == 1) by (bit_vector);
            }
            h.set(row, col, bit);
            row = row + 1;
        }
        col = col + 1;
    }

    let (g, systematic_h) = convert_to_systematic(&h);
    Ok((g, systematic_h))
}

/// A binary Goppa code: a valid `(g(z), L)` pair, its `t*m x n`
/// parity-check matrix, and the systematic pair derived from it.  The
/// dimension bound `k <= n - m*t` is checked before construction.
pub fn generate_goppa_code(n: usize, k: usize, t: usize) -> (r: Result<
    (BinaryMatrix, BinaryMatrix, GoppaParams),
    CodeGenError,
>)
    requires
        t >= 1,
        t <= usize::MAX / 16,
        k >= 1,
    ensures
        r matches Ok(out) ==> {
            &&& out.0.wf()
            &&& out.0.cols == n
            &&& out.1.wf()
            &&& out.1.cols == n
            &&& out.1.rows >= 1
            &&& out.2.wf()
            &&& out.2.support@.len() == n
            &&& out.2.t == t
            &&& forall|i: int|
                0 <= i < out.0.rows ==> crate::bits::all_zero(
                    crate::matrix::syndrome_of(out.1.mat(), #[trigger] out.0.mat()[i]),
                )
        },
        n < 3 ==> r == Err::<(BinaryMatrix, BinaryMatrix, GoppaParams), CodeGenError>(
            CodeGenError::InvalidParameters,
        ),
        (n >= 3 && crate::goppa::field_degree_for(n as int) <= 16 && (
        crate::goppa::field_degree_for(n as int) * t >= n || k > n - crate::goppa::field_degree_for(
            n as int,
        ) * t)) ==> r == Err::<(BinaryMatrix, BinaryMatrix, GoppaParams), CodeGenError>(
            CodeGenError::InvalidParameters,
        ),
{
    if n < 3 {
        return Err(CodeGenError::InvalidParameters);
    }
    let m_deg = crate::goppa::ceil_log2(n) as usize;
    if m_deg > 16 {
        return Err(CodeGenError::ConstructionFailed);
    }
    proof {
        assert(m_deg * t <= usize::MAX) by (nonlinear_arith)
            requires
                t <= usize::MAX / 16,
                0 <= m_deg <= 16,
        ;
    }
    let mt = m_deg * t;
    if mt >= n || k > n - mt {
        return Err(CodeGenError::InvalidParameters);
    }
    match generate_valid_goppa_params(n, t) {
        None => Err(CodeGenError::ConstructionFailed),
        Some((goppa_poly, support, field)) => {
            if support.len() != n {
                return Err(CodeGenError::ConstructionFailed);
            }
            if goppa_poly.len() != t + 1 {
                return Err(CodeGenError::ConstructionFailed);
            }
            let h = generate_goppa_parity_matrix(n, t, &goppa_poly, &support, &field);
            if h.rows < 1 || h.rows > n {
                return Err(CodeGenError::ConstructionFailed);
            }
            let (g, h_systematic) = convert_to_systematic(&h);
            let gp = GoppaParams { field, goppa_poly, support, t };
            Ok((g, h_systematic, gp))
        },
    }
}

/// A quasi-cyclic code: circulant blocks of a sparse first row, the last
/// block forced to the identity, then brought to systematic form.  Both `n`
/// and `k` must be multiples of `r = n - k`, and `r` must equal the block
/// size; exactly the parameters violating that are rejected.
pub fn generate_qc_code(n: usize, k: usize) -> (r: Result<
    (BinaryMatrix, BinaryMatrix),
    CodeGenError,
>)
    requires
        k >= 1,
        k < n,
    ensures
        r is Err <==> (n as int % (n - k) != 0 || k as int % (n - k) != 0),
        r is Err ==> r == Err::<(BinaryMatrix, BinaryMatrix), CodeGenError>(
            CodeGenError::InvalidParameters,
        ),
        r matches Ok(gh) ==> {
            &&& gh.0.wf()
            &&& gh.0.rows == k
            &&& gh.0.cols == n
            &&& gh.1.wf()
            &&& gh.1.rows == n - k
            &&& gh.1.cols == n
            &&& forall|i: int|
                0 <= i < k ==> crate::bits::all_zero(
                    crate::matrix::syndrome_of(gh.1.mat(), #[trigger] gh.0.mat()[i]),
                )
        },
{
    let r_bits = n - k;
    if n % r_bits != 0 || k % r_bits != 0 {
        return Err(CodeGenError::InvalidParameters);
    }
    let p = r_bits;
    let num_blocks_cols = n / p;
    let num_blocks_rows = r_bits / p;
    if num_blocks_rows != 1 {
        return Err(CodeGenError::InvalidParameters);
    }

    proof {
        vstd::arithmetic::div_mod::lemma_fundamental_div_mod(k as int, p as int);
        assert(k / p >= 1 && p * (k / p) >= p) by (nonlinear_arith)
            requires
                p >= 1,
                k >= 1,
                k == p * (k / p),
        ;
        vstd::arithmetic::div_mod::lemma_fundamental_div_mod(n as int, p as int);
        assert(n / p >= 1) by (nonlinear_arith)
            requires
                p >= 1,
                n >= p,
                n == p * (n / p),
        ;
    }
    let mut h = BinaryMatrix::zeros(r_bits, n);

    let mut block_col: usize = 0;
    while block_col < num_blocks_cols
        invariant
            h.wf(),
            h.rows == r_bits,
            h.cols == n,
            r_bits == n - k,
            p == r_bits,
            1 <= p,
            num_blocks_cols == n / p,
            num_blocks_cols >= 1,
            n % p == 0,
            2 * p <= p + k,
            p + k == n,
            0 <= block_col <= num_blocks_cols,
        decreases num_blocks_cols - block_col,
    {
        let mut first_row: Vec<u8> = crate::bits::vec_zeros(p);
        let ones_per_row = if 2 < p / 2 {
            2
        } else {
            p / 2
        };
        let positions = random_permutation(p);
        proof {
            assert forall|q: int| 0 <= q < positions@.len() implies #[trigger] positions@[q]
                < p by {
                assert(positions@.contains(positions@[q]));
            }
        }
        let mut oi: usize = 0;
        while oi < ones_per_row && oi < positions.len()
            invariant
                first_row@.len() == p,
                forall|q: int| 0 <= q < positions@.len() ==> #[trigger] positions@[q] < p,
                forall|q: int|
                    0 <= q < first_row@.len() ==> first_row@[q] == 0 || first_row@[q] == 1,
                0 <= oi,
            decreases ones_per_row - oi,
        {
            let idx = positions[oi];
            first_row.set(idx, 1);
            oi = oi + 1;
        }

        let mut row: usize = 0;
        while row < p
            invariant
                h.wf(),
                h.rows == r_bits,
                h.cols == n,
                p == r_bits,
                1 <= p,
                num_blocks_cols == n / p,
                n % p == 0,
                block_col < num_blocks_cols,
                2 * p <= p + k,
                p + k == n,
                first_row@.len() == p,
                forall|q: int|
                    0 <= q < first_row@.len() ==> first_row@[q] == 0 || first_row@[q] == 1,
                0 <= row <= p,
            decreases p - row,
        {
            let mut c: usize = 0;
            while c < p
                invariant
                    h.wf(),
                    h.rows == r_bits,
                    h.cols == n,
                    p == r_bits,
                    1 <= p,
                    num_blocks_cols == n / p,
                    n % p == 0,
                    block_col < num_blocks_cols,
                    2 * p <= p + k,
                    p + k == n,
                    row < p,
                    first_row@.len() == p,
                    forall|q: int|
                        0 <= q < first_row@.len() ==> first_row@[q] == 0 || first_row@[q]
                            == 1,
                    0 <= c <= p,
                decreases p - c,
            {
                let shifted_col = (c + row) % p;
                proof {
                    vstd::arithmetic::div_mod::lemma_fundamental_div_mod(n as int, p as int);
                    vstd::arithmetic::mul::lemma_mul_inequality(
                        block_col + 1,
                        num_blocks_cols as int,
                        p as int,
                    );
                    assert((block_col + 1) * p == block_col * p + p) by (nonlinear_arith);
                }
                let bit = first_row[shifted_col];
                h.set(row, block_col * p + c, bit);
                c = c + 1;
            }
            row = row + 1;
        }
        block_col = block_col + 1;
    }

    let mut di: usize = 0;
    while di < p
        invariant
            h.wf(),
            h.rows == r_bits,
            h.cols == n,
            p == r_bits,
            1 <= p,
            num_blocks_cols == n / p,
            num_blocks_cols >= 1,
            n % p == 0,
            p + k == n,
            0 <= di <= p,
        decreases p - di,
    {
        let mut dj: usize = 0;
        while dj < p
            invariant
                h.wf(),
                h.rows == r_bits,
                h.cols == n,
                p == r_bits,
                1 <= p,
                num_blocks_cols == n / p,
                num_blocks_cols >= 1,
                n % p == 0,
                p + k == n,
                di < p,
                0 <= dj <= p,
            decreases p - dj,
        {
            proof {
                vstd::arithmetic::div_mod::lemma_fundamental_div_mod(n as int, p as int);
                vstd::arithmetic::mul::lemma_mul_inequality(
                    num_blocks_cols as int,
                    num_blocks_cols as int,
                    p as int,
                );
                assert((num_blocks_cols - 1) * p + p == num_blocks_cols * p)
                    by (nonlinear_arith);
                assert(num_blocks_cols * p <= n);
            }
            let base = (num_blocks_cols - 1) * p;
            let value: u8 = if di == dj {
                1
            } else {
                0
            };
            h.set(di, base + dj, value);
            dj = dj + 1;
        }
        di = di + 1;
    }

    let (g, h_systematic) = convert_to_systematic(&h);
    Ok((g, h_systematic))
}

/// Generate a `(G, H)` pair of the requested family; Goppa codes also hand
/// back the parameters the algebraic decoder needs.
pub fn generate_code(n: usize, k: usize, w: usize, code_type: CodeType) -> (r: Result<
    (BinaryMatrix, BinaryMatrix, Option<GoppaParams>),
    CodeGenError,
>)
    requires
        k >= 1,
        k < n,
        code_type == CodeType::Hamming ==> n - k <= 32,
        w >= 1,
        w <= usize::MAX / 16,
    ensures
        r matches Ok(out) ==> {
            &&& out.0.wf()
            &&& out.0.cols == n
            &&& out.0.rows >= 1
            &&& out.1.wf()
            &&& out.1.cols == n
            &&& out.1.rows >= 1
            &&& (out.2 matches Some(gp) ==> gp.wf() && gp.support@.len() == n && gp.t == w)
            &&& (code_type == CodeType::Goppa <==> out.2 is Some)
            &&& forall|i: int|
                0 <= i < out.0.rows ==> crate::bits::all_zero(
                    crate::matrix::syndrome_of(out.1.mat(), #[trigger] out.0.mat()[i]),
                )
        },
        (code_type == CodeType::Random || code_type == CodeType::Hamming) ==> r is Ok,
{
    match code_type {
        CodeType::Random => {
            match generate_random_code(n, k) {
                Ok((g, h)) => Ok((g, h, None)),
                Err(e) => Err(e),
            }
        },
        CodeType::Hamming => {
            match generate_hamming_code(n, k) {
                Ok((g, h)) => Ok((g, h, None)),
                Err(e) => Err(e),
            }
        },
        CodeType::Goppa => {
            match generate_goppa_code(n, k, w) {
                Ok((g, h, gp)) => {
                    if g.rows < 1 {
                        return Err(CodeGenError::ConstructionFailed);
                    }
                    Ok((g, h, Some(gp)))
                },
                Err(e) => Err(e),
            }
        },
        CodeType::QuasiCyclic => {
            match generate_qc_code(n, k) {
                Ok((g, h)) => Ok((g, h, None)),
                Err(e) => Err(e),
            }
        },
    }
}

} // verus!
