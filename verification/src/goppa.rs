//! Construction of binary Goppa codes: a valid (polynomial, support) pair
//! and the parity-check matrix the decoder works against.

use vstd::prelude::*;
use crate::field::FiniteField;
use crate::matrix::BinaryMatrix;
use crate::polynomial_utils::{
    coeffs_wf, evaluate_poly, poly_eval, random_irreducible_poly,
};
use crate::sampling::shuffle_indices;

verus! {

/// A support set is valid for a Goppa polynomial when its elements are
/// non-zero field elements, pairwise distinct, and none is a root.
pub open spec fn support_wf(field: FiniteField, gpoly: Seq<u32>, support: Seq<u32>) -> bool {
    &&& forall|i: int| 0 <= i < support.len() ==> field.elem_wf(#[trigger] support[i])
    &&& forall|i: int| 0 <= i < support.len() ==> #[trigger] support[i] != 0
    &&& forall|i: int|
        0 <= i < support.len() ==> poly_eval(field, gpoly, #[trigger] support[i]) != 0
    &&& forall|i: int, j: int| 0 <= i < j < support.len() ==> support[i] != support[j]
}

/// The smallest degree `m` with `2 <= m <= 16` and `2^m >= n`, or 17 when
/// no field this small can hold `n` elements.
pub open spec fn field_degree_rec(n: int, m: int) -> int
    decreases 17 - m,
{
    if m >= 17 || m < 2 {
        17
    } else if n <= (1usize << (m as usize)) as int {
        m
    } else {
        field_degree_rec(n, m + 1)
    }
}

/// The field degree used for a length-`n` code.
pub open spec fn field_degree_for(n: int) -> int {
    field_degree_rec(n, 2)
}

/// The smallest degree `m >= 2` with `2^m >= n`, capped at 17 to signal an
/// out-of-range length.
pub fn ceil_log2(n: usize) -> (m: u8)
    requires
        n >= 3,
    ensures
        2 <= m <= 17,
        m as int == field_degree_for(n as int),
{
    let mut m: u8 = 2;
    let mut cap: usize = 4;
    proof {
        assert(1usize << 2usize == 4) by (bit_vector);
    }
    while m < 17 && cap < n
        invariant
            2 <= m <= 17,
            m < 17 ==> cap == (1usize << (m as usize)),
            field_degree_for(n as int) == field_degree_rec(n as int, m as int),
        decreases 17 - m,
    {
        proof {
            let mm = m as usize;
            assert(mm < 17 ==> ((1usize << mm) << 1usize) == (1usize << (mm + 1)))
                by (bit_vector);
            assert(mm < 17 ==> (1usize << mm) < 0x40000usize) by (bit_vector);
        }
        cap = cap << 1;
        m = m + 1;
    }
    m
}

/// Pick a Goppa polynomial with few roots and a support of `n` distinct
/// non-zero non-root field elements.  Lengths or degrees that cannot be
/// accommodated shrink recursively; `None` is returned when no valid field
/// size remains.
pub fn generate_valid_goppa_params(n: usize, t: usize) -> (r: Option<
    (Vec<u32>, Vec<u32>, FiniteField),
>)
    requires
        t >= 1,
        t < usize::MAX,
    ensures
        r matches Some(out) ==> {
            &&& out.2.wf()
            &&& 2 <= out.0@.len() <= t + 1
            &&& out.0@.last() == 1
            &&& out.0@[0] != 0
            &&& coeffs_wf(out.2, out.0@)
            &&& support_wf(out.2, out.0@, out.1@)
            &&& out.1@.len() <= n
        },
    decreases t, n,
{
    if n < 3 {
        return None;
    }
    let m = ceil_log2(n);
    if m > 16 {
        return None;
    }
    let field = FiniteField::new(m);
    proof {
        let mm = m as u32;
        assert(2 <= mm <= 16 ==> (1usize << mm) >= 4 && (1usize << mm) <= 65536)
            by (bit_vector);
        assert(2 <= mm <= 16 ==> (1u32 << mm) == (1usize << mm) as u32) by (bit_vector);
    }
    let field_size: usize = 1usize << (m as usize);
    let max_support_size = field_size - 1;

    if t == 1 && n == max_support_size {
        if max_support_size < 1 {
            return None;
        }
        return generate_valid_goppa_params(max_support_size - 1, t);
    }
    if n > max_support_size {
        return generate_valid_goppa_params(max_support_size, t);
    }

    let attempts: usize = if n + 10 > max_support_size {
        20
    } else {
        10
    };

    proof {
        let mm = m as u32;
        assert(2 <= mm <= 16 ==> (1usize << mm) <= 65536) by (bit_vector);
    }
    let mut best_poly = random_irreducible_poly(t, &field);
    let mut min_roots = count_roots(&best_poly, &field, field_size);
    let mut attempt: usize = 1;
    while attempt < attempts && min_roots + n > max_support_size
        invariant
            field.wf(),
            t >= 1,
            t < usize::MAX,
            best_poly@.len() == t + 1,
            best_poly@.last() == 1,
            best_poly@[0] != 0,
            coeffs_wf(field, best_poly@),
            field_size == 1usize << (field.m as usize),
            field_size <= 65536,
            min_roots < field_size,
            n <= 65536,
        decreases attempts - attempt,
    {
        let poly = random_irreducible_poly(t, &field);
        let root_count = count_roots(&poly, &field, field_size);
        if root_count < min_roots {
            min_roots = root_count;
            best_poly = poly;
        }
        attempt = attempt + 1;
    }

    if min_roots + n > max_support_size {
        let adjusted_n = max_support_size - min_roots;
        if adjusted_n < n / 2 && t > 1 {
            return generate_valid_goppa_params(n, t - 1);
        }
        if adjusted_n >= n {
            return None;
        }
        return generate_valid_goppa_params(adjusted_n, t);
    }

    let mut non_roots: Vec<u32> = Vec::new();
    let mut x: usize = 1;
    while x < field_size
        invariant
            field.wf(),
            coeffs_wf(field, best_poly@),
            best_poly@.len() == t + 1,
            best_poly@.last() == 1,
            best_poly@[0] != 0,
            t < usize::MAX,
            field_size == 1usize << (field.m as usize),
            1 <= x <= field_size,
            non_roots@.len() < x,
            forall|i: int| 0 <= i < non_roots@.len() ==> field.elem_wf(#[trigger] non_roots@[i]),
            forall|i: int| 0 <= i < non_roots@.len() ==> #[trigger] non_roots@[i] != 0,
            forall|i: int|
                0 <= i < non_roots@.len() ==> poly_eval(
                    field,
                    best_poly@,
                    #[trigger] non_roots@[i],
                ) != 0,
            forall|i: int, j: int|
                0 <= i < j < non_roots@.len() ==> non_roots@[i] < non_roots@[j],
            forall|i: int| 0 <= i < non_roots@.len() ==> #[trigger] non_roots@[i] < x,
        decreases field_size - x,
    {
        proof {
            let mm = field.m as u32;
            assert(2 <= mm <= 16 ==> (1usize << mm) <= 0xFFFFFFFFusize) by (bit_vector);
            assert(2 <= mm <= 16 ==> (1u32 << mm) == (1usize << mm) as u32) by (bit_vector);
        }
        let xv = x as u32;
        if evaluate_poly(&best_poly, xv, &field) != 0 {
            non_roots.push(xv);
        }
        x = x + 1;
    }

    if non_roots.len() < n {
        if non_roots.len() >= n {
            return None;
        }
        return generate_valid_goppa_params(non_roots.len(), t);
    }

    let shuffled = shuffle_support(non_roots);
    proof {
        assert forall|q: int| 0 <= q < shuffled@.len() implies (field.elem_wf(
            #[trigger] shuffled@[q],
        ) && shuffled@[q] != 0 && poly_eval(field, best_poly@, shuffled@[q]) != 0) by {
            assert(shuffled@.contains(shuffled@[q]));
            assert(non_roots@.contains(shuffled@[q]));
            let p = choose|p: int| 0 <= p < non_roots@.len() && non_roots@[p] == shuffled@[q];
        }
    }
    let mut valid_support: Vec<u32> = Vec::new();
    let mut i: usize = 0;
    while i < n
        invariant
            0 <= i <= n,
            n <= shuffled@.len(),
            field.wf(),
            coeffs_wf(field, best_poly@),
            best_poly@.len() == t + 1,
            best_poly@.last() == 1,
            best_poly@[0] != 0,
            t < usize::MAX,
            forall|q: int| 0 <= q < shuffled@.len() ==> field.elem_wf(#[trigger] shuffled@[q]),
            forall|q: int| 0 <= q < shuffled@.len() ==> #[trigger] shuffled@[q] != 0,
            forall|q: int|
                0 <= q < shuffled@.len() ==> poly_eval(field, best_poly@, #[trigger] shuffled@[q])
                    != 0,
            shuffled@.no_duplicates(),
            valid_support@ == shuffled@.take(i as int),
        decreases n - i,
    {
        proof {
            assert(shuffled@.take(i + 1) =~= shuffled@.take(i as int).push(shuffled@[i as int]));
        }
        valid_support.push(shuffled[i]);
        i = i + 1;
    }
    proof {
        assert(shuffled@.take(n as int).no_duplicates());
        assert forall|q1: int, q2: int|
            0 <= q1 < q2 < valid_support@.len() implies valid_support@[q1]
                != valid_support@[q2] by {}
    }

    Some((best_poly, valid_support, field))
}

/// Count the roots of `poly` among the non-zero field elements.
fn count_roots(poly: &Vec<u32>, field: &FiniteField, field_size: usize) -> (r: usize)
    requires
        field.wf(),
        coeffs_wf(*field, poly@),
        field_size == 1usize << (field.m as usize),
    ensures
        r < field_size,
{
    proof {
        let mm = field.m as u32;
        assert(2 <= mm <= 16 ==> (1usize << mm) >= 4 && (1usize << mm) <= 65536)
            by (bit_vector);
    }
    let mut count: usize = 0;
    let mut x: usize = 1;
    while x < field_size
        invariant
            field.wf(),
            coeffs_wf(*field, poly@),
            field_size == 1usize << (field.m as usize),
            1 <= x <= field_size,
            count < x,
        decreases field_size - x,
    {
        proof {
            let mm = field.m as u32;
            assert(2 <= mm <= 16 ==> (1usize << mm) <= 0xFFFFFFFFusize) by (bit_vector);
            assert(2 <= mm <= 16 ==> (1u32 << mm) == (1usize << mm) as u32) by (bit_vector);
        }
        if evaluate_poly(poly, x as u32, field) == 0 {
            count = count + 1;
        }
        x = x + 1;
    }
    count
}

/// Shuffle the support candidates, keeping membership and distinctness.
fn shuffle_support(v: Vec<u32>) -> (r: Vec<u32>)
    ensures
        r@.len() == v@.len(),
        forall|x: u32| r@.contains(x) <==> v@.contains(x),
        v@.no_duplicates() ==> r@.no_duplicates(),
{
    let mut indices: Vec<usize> = crate::sampling::range_vec(0, v.len());
    shuffle_indices(&mut indices);
    let mut out: Vec<u32> = Vec::new();
    let mut i: usize = 0;
    while i < v.len()
        invariant
            indices@.len() == v@.len(),
            indices@.no_duplicates(),
            forall|x: usize| indices@.contains(x) <==> x < v@.len(),
            0 <= i <= v@.len(),
            out@.len() == i,
            forall|q: int| 0 <= q < i ==> out@[q] == v@[indices@[q] as int],
        decreases v@.len() - i,
    {
        proof {
            assert(indices@.contains(indices@[i as int]));
        }
        out.push(v[indices[i]]);
        i = i + 1;
    }
    proof {
        assert forall|x: u32| out@.contains(x) implies v@.contains(x) by {
            let q = choose|q: int| 0 <= q < out@.len() && out@[q] == x;
            assert(indices@.contains(indices@[q]));
            assert(v@[indices@[q] as int] == x);
        }
        assert forall|x: u32| v@.contains(x) implies out@.contains(x) by {
            let p = choose|p: int| 0 <= p < v@.len() && v@[p] == x;
            assert(indices@.contains(p as usize));
            let q = choose|q: int| 0 <= q < indices@.len() && indices@[q] == p as usize;
            assert(out@[q] == x);
        }
        if v@.no_duplicates() {
            assert forall|q1: int, q2: int|
                0 <= q1 < q2 < out@.len() implies out@[q1] != out@[q2] by {
                assert(indices@[q1] != indices@[q2]);
                assert(indices@.contains(indices@[q1]));
                assert(indices@.contains(indices@[q2]));
            }
        }
    }
    out
}

/// Build the `t*m x n` parity-check matrix of the Goppa code: column `j`
/// stacks the bits of `L_j^i / g(L_j)` for `i` in `0..t`.
pub fn generate_goppa_parity_matrix(
    n: usize,
    t: usize,
    goppa_poly: &Vec<u32>,
    support: &Vec<u32>,
    field: &FiniteField,
) -> (h: BinaryMatrix)
    requires
        field.wf(),
        t >= 1,
        t <= usize::MAX / 16,
        coeffs_wf(*field, goppa_poly@),
        support@.len() >= n,
        forall|i: int| 0 <= i < support@.len() ==> field.elem_wf(#[trigger] support@[i]),
        forall|i: int|
            0 <= i < n ==> poly_eval(*field, goppa_poly@, #[trigger] support@[i]) != 0,
    ensures
        h.wf(),
        h.rows == t * field.m,
        h.cols == n,
{
    let m = field.m as usize;
    proof {
        assert(t * m <= usize::MAX) by (nonlinear_arith)
            requires
                t <= usize::MAX / 16,
                0 <= m <= 16,
        ;
    }
    let rows = t * m;
    let mut h = BinaryMatrix::zeros(rows, n);

    let mut j: usize = 0;
    while j < n
        invariant
            field.wf(),
            t >= 1,
            t <= usize::MAX / 16,
            m == field.m as usize,
            rows == t * m,
            coeffs_wf(*field, goppa_poly@),
            support@.len() >= n,
            forall|q: int| 0 <= q < support@.len() ==> field.elem_wf(#[trigger] support@[q]),
            forall|q: int|
                0 <= q < n ==> poly_eval(*field, goppa_poly@, #[trigger] support@[q]) != 0,
            0 <= j <= n,
            h.wf(),
            h.rows == rows,
            h.cols == n,
        decreases n - j,
    {
        let l_j = support[j];
        let g_l_j = evaluate_poly(goppa_poly, l_j, field);
        let inv_g_l_j = field.inverse(g_l_j);

        let mut power: u32 = 1;
        proof {
            let mm = field.m as u32;
            assert(2 <= mm <= 31 ==> 1u32 < (1u32 << mm)) by (bit_vector);
        }
        let mut i: usize = 0;
        while i < t
            invariant
                field.wf(),
                m == field.m as usize,
                rows == t * m,
                t <= usize::MAX / 16,
                m <= 16,
                0 <= i <= t,
                j < n,
                field.elem_wf(power),
                field.elem_wf(inv_g_l_j),
                field.elem_wf(l_j),
                h.wf(),
                h.rows == rows,
                h.cols == n,
            decreases t - i,
        {
            let col_val = field.field_multiply(power, inv_g_l_j);
            let mut bit: usize = 0;
            while bit < m
                invariant
                    m == field.m as usize,
                    rows == t * m,
                    t <= usize::MAX / 16,
                    m <= 16,
                    i < t,
                    j < n,
                    0 <= bit <= m,
                    h.wf(),
                    h.rows == rows,
                    h.cols == n,
                decreases m - bit,
            {
                proof {
                    vstd::arithmetic::mul::lemma_mul_inequality(i + 1, t as int, m as int);
                    assert((i + 1) * m == i * m + m) by (nonlinear_arith);
                }
                proof {
                    let cv = col_val;
                    let b = bit as u32;
                    assert(((cv >> b) & 1) == 0 || ((cv >> b) & 1) == 1) by (bit_vector);
                }
                let value = ((col_val >> (bit as u32)) & 1) as u8;
                h.set(i * m + bit, j, value);
                bit = bit + 1;
            }
            power = field.field_multiply(power, l_j);
            i = i + 1;
        }
        j = j + 1;
    }
    h
}

} // verus!
