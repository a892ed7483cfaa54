//! Patterson's algebraic decoder for binary Goppa codes.
//!
//! One invocation walks a fixed pipeline: compute the syndrome polynomial
//! of the received word (an all-zero syndrome means the word is already a
//! codeword and the zero error vector is returned at once); extend the
//! syndrome and solve the key equation by Berlekamp-Massey LFSR synthesis;
//! read error positions off the roots of the error locator; and verify the
//! correction against the parity-check matrix, falling back to a bounded
//! combinatorial completion and, for small `t`, a capped brute-force
//! search.  Every returned correction has been checked to zero the full
//! syndrome and to respect the weight bound.

use vstd::prelude::*;
use crate::bits::{all_zero, indicator_vector, is_bits, weight_of, zero_bits};
use crate::combos::{combo_wf, first_combination, next_combination};
use crate::field::FiniteField;
use crate::matrix::{calculate_syndrome, syndrome_of, BinaryMatrix};
use crate::polynomial_utils::{coeffs_wf, evaluate_poly, gf_pow, poly_eval, trim_polynomial};
use crate::types::GoppaParams;

verus! {

/// Every entry of the sequence is zero.
pub open spec fn all_zero_u32(s: Seq<u32>) -> bool {
    forall|i: int| 0 <= i < s.len() ==> s[i] == 0
}

/// The contribution of position `i` of the received word to syndrome
/// coefficient `j`: `inverse(g(L_i)) * L_i^j` when the position carries a
/// one and is algebraically valid, and zero otherwise.  Positions whose
/// support element is zero or a root of the Goppa polynomial are excluded.
pub open spec fn synd_term(gp: GoppaParams, received: Seq<u8>, i: int, j: nat) -> u32 {
    let x = gp.support@[i];
    if received[i] == 1 && x != 0 && poly_eval(gp.field, gp.goppa_poly@, x) != 0 {
        gp.field.gf_mul(gp.field.gf_inv(poly_eval(gp.field, gp.goppa_poly@, x)), gf_pow(gp.field, x, j))
    } else {
        0
    }
}

/// Syndrome coefficient `j`, accumulated over the first `upto` positions.
pub open spec fn synd_coef(gp: GoppaParams, received: Seq<u8>, upto: int, j: nat) -> u32
    decreases upto,
{
    if upto <= 0 {
        0
    } else {
        synd_coef(gp, received, upto - 1, j) ^ synd_term(gp, received, upto - 1, j)
    }
}

/// The syndrome polynomial `S(z)` of the received word: `t` coefficients.
pub open spec fn syndrome_poly(gp: GoppaParams, received: Seq<u8>) -> Seq<u32> {
    Seq::new(gp.t as nat, |j: int| synd_coef(gp, received, received.len() as int, j as nat))
}

/// Flipping the single position `i` of the received word yields a word of
/// zero syndrome.
pub open spec fn single_fix_at(h: Seq<Seq<u8>>, received: Seq<u8>, i: int) -> bool {
    all_zero(
        syndrome_of(
            h,
            crate::bits::xor_bits(
                received,
                crate::matrix::unit_bits(received.len(), i),
            ),
        ),
    )
}

/// Some single-position flip of the received word zeroes the syndrome.
pub open spec fn single_fix_exists(h: Seq<Seq<u8>>, received: Seq<u8>) -> bool {
    exists|i: int| 0 <= i < received.len() && single_fix_at(h, received, i)
}

/// The all-zero `u32` vector of length `n`.
fn vec_u32_zeros(n: usize) -> (r: Vec<u32>)
    ensures
        r@.len() == n,
        all_zero_u32(r@),
{
    let mut out: Vec<u32> = Vec::new();
    let mut i: usize = 0;
    while i < n
        invariant
            out@.len() == i,
            i <= n,
            forall|j: int| 0 <= j < i ==> out@[j] == 0,
        decreases n - i,
    {
        out.push(0);
        i = i + 1;
    }
    out
}

/// Copy a `u32` vector.
fn copy_u32(a: &Vec<u32>) -> (r: Vec<u32>)
    ensures
        r@ == a@,
{
    let mut out: Vec<u32> = Vec::new();
    let mut i: usize = 0;
    while i < a.len()
        invariant
            0 <= i <= a@.len(),
            out@ == a@.take(i as int),
        decreases a@.len() - i,
    {
        proof {
            assert(a@.take(i + 1) =~= a@.take(i as int).push(a@[i as int]));
        }
        out.push(a[i]);
        i = i + 1;
    }
    proof {
        assert(a@.take(a@.len() as int) =~= a@);
    }
    out
}

/// Is every entry zero?
fn is_all_zero_u32(v: &Vec<u32>) -> (r: bool)
    ensures
        r <==> all_zero_u32(v@),
{
    let mut i: usize = 0;
    while i < v.len()
        invariant
            0 <= i <= v@.len(),
            forall|j: int| 0 <= j < i ==> v@[j] == 0,
        decreases v@.len() - i,
    {
        if v[i] != 0 {
            return false;
        }
        i = i + 1;
    }
    true
}

/// Does the position list contain `x`?
fn contains_pos(v: &Vec<usize>, x: usize) -> (r: bool)
    ensures
        r <==> v@.contains(x),
{
    let mut i: usize = 0;
    while i < v.len()
        invariant
            0 <= i <= v@.len(),
            forall|j: int| 0 <= j < i ==> v@[j] != x,
        decreases v@.len() - i,
    {
        if v[i] == x {
            return true;
        }
        i = i + 1;
    }
    false
}

/// Compute the syndrome polynomial `S(z)` of the received word.
pub fn compute_syndrome_polynomial(received: &Vec<u8>, gp: &GoppaParams, n: usize) -> (r: Vec<
    u32,
>)
    requires
        gp.wf(),
        n == received@.len(),
        gp.support@.len() == n,
    ensures
        r@ == syndrome_poly(*gp, received@),
        r@.len() == gp.t,
        coeffs_wf(gp.field, r@),
{
    let t = gp.t;
    let mut syndrome = vec_u32_zeros(t);
    proof {
        let m = gp.field.m as u32;
        crate::field::lemma_shr_zero_iff_lt(m, 0u32);
        crate::field::lemma_small_shr(m);
        crate::field::lemma_shr_zero_iff_lt(m, 1u32);
    }

    let mut i: usize = 0;
    while i < n
        invariant
            gp.wf(),
            n == received@.len(),
            gp.support@.len() == n,
            t == gp.t,
            0 <= i <= n,
            syndrome@.len() == t,
            coeffs_wf(gp.field, syndrome@),
            gp.field.elem_wf(1u32),
            forall|j: int|
                0 <= j < t ==> syndrome@[j] == synd_coef(*gp, received@, i as int, j as nat),
        decreases n - i,
    {
        let ghost pre = syndrome@;
        if received[i] == 1 {
            let x = gp.support[i];
            if x != 0 {
                let g_x = evaluate_poly(&gp.goppa_poly, x, &gp.field);
                if g_x != 0 {
                    let g_x_inv = gp.field.inverse(g_x);
                    let mut x_pow: u32 = 1;
                    let mut j: usize = 0;
                    while j < t
                        invariant
                            gp.wf(),
                            0 <= i < n,
                            n == received@.len(),
                            gp.support@.len() == n,
                            t == gp.t,
                            0 <= j <= t,
                            x == gp.support@[i as int],
                            received@[i as int] == 1,
                            x != 0,
                            g_x == poly_eval(gp.field, gp.goppa_poly@, x),
                            g_x != 0,
                            g_x_inv == gp.field.gf_inv(g_x),
                            gp.field.elem_wf(g_x_inv),
                            gp.field.elem_wf(x),
                            gp.field.elem_wf(x_pow),
                            x_pow == gf_pow(gp.field, x, j as nat),
                            syndrome@.len() == t,
                            coeffs_wf(gp.field, syndrome@),
                            forall|q: int|
                                j <= q < t ==> syndrome@[q] == synd_coef(
                                    *gp,
                                    received@,
                                    i as int,
                                    q as nat,
                                ),
                            forall|q: int|
                                0 <= q < j ==> syndrome@[q] == (synd_coef(
                                    *gp,
                                    received@,
                                    i as int,
                                    q as nat,
                                ) ^ synd_term(*gp, received@, i as int, q as nat)),
                        decreases t - j,
                    {
                        let term = gp.field.field_multiply(g_x_inv, x_pow);
                        let cur = syndrome[j];
                        proof {
                            let m = gp.field.m as u32;
                            crate::field::lemma_shr_zero_iff_lt(m, term);
                            crate::field::lemma_shr_zero_iff_lt(m, cur);
                            crate::field::lemma_xor_closed(m, cur, term);
                            crate::field::lemma_shr_zero_iff_lt(m, cur ^ term);
                            assert(term == synd_term(*gp, received@, i as int, j as nat));
                        }
                        syndrome.set(j, cur ^ term);
                        x_pow = gp.field.field_multiply(x_pow, x);
                        j = j + 1;
                    }
                    proof {
                        assert forall|q: int| 0 <= q < t implies syndrome@[q] == synd_coef(
                            *gp,
                            received@,
                            i + 1,
                            q as nat,
                        ) by {}
                    }
                } else {
                    proof {
                        assert forall|q: int| 0 <= q < t implies syndrome@[q] == synd_coef(
                            *gp,
                            received@,
                            i + 1,
                            q as nat,
                        ) by {
                            assert(synd_term(*gp, received@, i as int, q as nat) == 0);
                            crate::field::lemma_xor_u32_basics(pre[q], 0);
                        }
                    }
                }
            } else {
                proof {
                    assert forall|q: int| 0 <= q < t implies syndrome@[q] == synd_coef(
                        *gp,
                        received@,
                        i + 1,
                        q as nat,
                    ) by {
                        assert(synd_term(*gp, received@, i as int, q as nat) == 0);
                        crate::field::lemma_xor_u32_basics(pre[q], 0);
                    }
                }
            }
        } else {
            proof {
                assert forall|q: int| 0 <= q < t implies syndrome@[q] == synd_coef(
                    *gp,
                    received@,
                    i + 1,
                    q as nat,
                ) by {
                    assert(synd_term(*gp, received@, i as int, q as nat) == 0);
                    crate::field::lemma_xor_u32_basics(pre[q], 0);
                }
            }
        }
        i = i + 1;
    }
    proof {
        assert(syndrome@ =~= syndrome_poly(*gp, received@));
    }
    syndrome
}

/// The Berlekamp-Massey discrepancy at step `nn`, folding the first `upto`
/// feedback taps: `S[nn] ^ sum of conn[i] * S[nn - i]` for `1 <= i <= upto`
/// with `i` inside the connection polynomial.
pub open spec fn bm_disc_rec(
    field: FiniteField,
    conn: Seq<u32>,
    synd: Seq<u32>,
    nn: int,
    upto: int,
) -> u32
    decreases upto,
{
    if upto <= 0 {
        synd[nn]
    } else {
        bm_disc_rec(field, conn, synd, nn, upto - 1) ^ (if upto < conn.len() {
            field.gf_mul(conn[upto], synd[nn - upto])
        } else {
            0u32
        })
    }
}

/// `z^shift * factor * prev`, as a coefficient sequence.
pub open spec fn bm_shifted(field: FiniteField, prev: Seq<u32>, factor: u32, shift: int) -> Seq<
    u32,
> {
    Seq::new(
        (shift + prev.len()) as nat,
        |i: int|
            if i < shift {
                0u32
            } else {
                field.gf_mul(prev[i - shift], factor)
            },
    )
}

/// The adjusted connection polynomial: XOR in the shifted, scaled previous
/// polynomial and trim trailing zeros.
pub open spec fn bm_adjusted(
    field: FiniteField,
    conn: Seq<u32>,
    prev: Seq<u32>,
    factor: u32,
    shift: int,
) -> Seq<u32> {
    let sh = bm_shifted(field, prev, factor, shift);
    let len = if conn.len() >= sh.len() {
        conn.len() as int
    } else {
        sh.len() as int
    };
    crate::polynomial_utils::trim_spec(
        Seq::new(
            len as nat,
            |i: int| crate::polynomial_utils::coef_at(conn, i) ^ crate::polynomial_utils::coef_at(
                sh,
                i,
            ),
        ),
    )
}

/// One step of the classical LFSR-synthesis recursion on the state
/// `(connection, previous, lfsr length, last discrepancy, steps since the
/// length changed)`.
pub open spec fn bm_step(
    field: FiniteField,
    synd: Seq<u32>,
    nn: int,
    st: (Seq<u32>, Seq<u32>, int, u32, int),
) -> (Seq<u32>, Seq<u32>, int, u32, int) {
    let d = bm_disc_rec(field, st.0, synd, nn, st.2);
    if d == 0 {
        (st.0, st.1, st.2, st.3, st.4 + 1)
    } else if 2 * st.2 <= nn {
        let factor = field.gf_mul(d, field.gf_inv(st.3));
        (bm_adjusted(field, st.0, st.1, factor, st.4), st.0, nn + 1 - st.2, d, 1)
    } else {
        let factor = field.gf_mul(d, field.gf_inv(st.3));
        (bm_adjusted(field, st.0, st.1, factor, st.4), st.1, st.2, st.3, st.4 + 1)
    }
}

/// The LFSR-synthesis state after the first `nn` syndrome positions.
pub open spec fn bm_state(field: FiniteField, synd: Seq<u32>, nn: int) -> (
    Seq<u32>,
    Seq<u32>,
    int,
    u32,
    int,
)
    decreases nn,
{
    if nn <= 0 {
        (seq![1u32], seq![1u32], 0int, 1u32, 1int)
    } else {
        bm_step(field, synd, nn - 1, bm_state(field, synd, nn - 1))
    }
}

/// The syndrome sequence padded with zeros to length `2t`.
pub open spec fn bm_padded(synd: Seq<u32>, t: int) -> Seq<u32> {
    if synd.len() >= 2 * t {
        synd
    } else {
        Seq::new((2 * t) as nat, |i: int| crate::polynomial_utils::coef_at(synd, i))
    }
}

/// What Berlekamp-Massey computes: run the recursion over the padded
/// syndrome, reverse the connection polynomial, truncate to degree `t`.
pub open spec fn berlekamp_massey_spec(field: FiniteField, synd: Seq<u32>, t: int) -> Seq<u32> {
    let conn = bm_state(field, bm_padded(synd, t), 2 * t).0;
    let rev = conn.reverse();
    if rev.len() > t + 1 {
        rev.take(t + 1)
    } else {
        rev
    }
}

/// XOR `z^shift * factor * prev` into the connection polynomial and trim:
/// the adjustment step of Berlekamp-Massey LFSR synthesis.
fn xor_shifted_scaled(
    connection_poly: &mut Vec<u32>,
    prev: &Vec<u32>,
    factor: u32,
    shift: usize,
    field: &FiniteField,
)
    requires
        field.wf(),
        field.elem_wf(factor),
        coeffs_wf(*field, prev@),
        coeffs_wf(*field, old(connection_poly)@),
        old(connection_poly)@.len() >= 1,
        shift + prev@.len() < usize::MAX,
    ensures
        final(connection_poly)@.len() >= 1,
        coeffs_wf(*field, final(connection_poly)@),
        final(connection_poly)@.len() <= (if old(connection_poly)@.len() >= shift + prev@.len() {
            old(connection_poly)@.len() as int
        } else {
            shift + prev@.len()
        }),
        final(connection_poly)@ == bm_adjusted(
            *field,
            old(connection_poly)@,
            prev@,
            factor,
            shift as int,
        ),
{
    let shifted_len = shift + prev.len();
    let mut shifted = vec_u32_zeros(shifted_len);
    let mut idx: usize = 0;
    while idx < prev.len()
        invariant
            field.wf(),
            field.elem_wf(factor),
            coeffs_wf(*field, prev@),
            0 <= idx <= prev@.len(),
            shift + prev@.len() < usize::MAX,
            shifted@.len() == shift + prev@.len(),
            coeffs_wf(*field, shifted@),
            forall|q: int| 0 <= q < shift ==> shifted@[q] == 0,
            forall|q: int|
                0 <= q < idx ==> shifted@[shift + q] == field.gf_mul(#[trigger] prev@[q], factor),
            forall|q: int| idx <= q < prev@.len() ==> #[trigger] shifted@[shift + q] == 0,
        decreases prev@.len() - idx,
    {
        proof {
            let m = field.m as u32;
            crate::field::lemma_shr_zero_iff_lt(m, 0u32);
            crate::field::lemma_small_shr(m);
        }
        let scaled = field.field_multiply(prev[idx], factor);
        shifted.set(shift + idx, scaled);
        idx = idx + 1;
    }
    proof {
        assert(shifted@ =~= bm_shifted(*field, prev@, factor, shift as int));
    }

    while connection_poly.len() < shifted_len
        invariant
            field.wf(),
            coeffs_wf(*field, connection_poly@),
            connection_poly@.len() >= 1,
            connection_poly@.len() >= old(connection_poly)@.len(),
            connection_poly@.len() <= (if old(connection_poly)@.len() >= shifted_len {
                old(connection_poly)@.len() as int
            } else {
                shifted_len as int
            }),
            forall|q: int|
                0 <= q < connection_poly@.len() ==> #[trigger] connection_poly@[q]
                    == crate::polynomial_utils::coef_at(old(connection_poly)@, q),
        decreases shifted_len - connection_poly@.len(),
    {
        proof {
            let m = field.m as u32;
            crate::field::lemma_shr_zero_iff_lt(m, 0u32);
            crate::field::lemma_small_shr(m);
        }
        connection_poly.push(0);
    }

    let ghost sh = bm_shifted(*field, prev@, factor, shift as int);
    let mut i: usize = 0;
    while i < shifted_len
        invariant
            field.wf(),
            coeffs_wf(*field, connection_poly@),
            coeffs_wf(*field, shifted@),
            shifted@ == sh,
            sh == bm_shifted(*field, prev@, factor, shift as int),
            shifted@.len() == shifted_len,
            connection_poly@.len() >= shifted_len,
            connection_poly@.len() >= 1,
            connection_poly@.len() >= old(connection_poly)@.len(),
            connection_poly@.len() <= (if old(connection_poly)@.len() >= shifted_len {
                old(connection_poly)@.len() as int
            } else {
                shifted_len as int
            }),
            0 <= i <= shifted_len,
            forall|q: int|
                0 <= q < i ==> #[trigger] connection_poly@[q] == (
                crate::polynomial_utils::coef_at(old(connection_poly)@, q)
                    ^ crate::polynomial_utils::coef_at(sh, q)),
            forall|q: int|
                i <= q < connection_poly@.len() ==> #[trigger] connection_poly@[q]
                    == crate::polynomial_utils::coef_at(old(connection_poly)@, q),
        decreases shifted_len - i,
    {
        let cur = connection_poly[i];
        let s = shifted[i];
        proof {
            let m = field.m as u32;
            crate::field::lemma_shr_zero_iff_lt(m, cur);
            crate::field::lemma_shr_zero_iff_lt(m, s);
            crate::field::lemma_xor_closed(m, cur, s);
            crate::field::lemma_shr_zero_iff_lt(m, cur ^ s);
        }
        connection_poly.set(i, cur ^ s);
        i = i + 1;
    }

    proof {
        let pre0 = old(connection_poly)@;
        let len: int = if pre0.len() >= sh.len() {
            pre0.len() as int
        } else {
            sh.len() as int
        };
        assert forall|q: int|
            0 <= q < connection_poly@.len() implies #[trigger] connection_poly@[q] == (
        crate::polynomial_utils::coef_at(pre0, q) ^ crate::polynomial_utils::coef_at(
            sh,
            q,
        )) by {
            if q >= shifted_len {
                assert(crate::polynomial_utils::coef_at(sh, q) == 0);
                crate::field::lemma_xor_u32_basics(connection_poly@[q], 0);
            }
        }
        assert(connection_poly@.len() == len);
        assert(connection_poly@ =~= Seq::new(
            len as nat,
            |q: int| crate::polynomial_utils::coef_at(pre0, q)
                ^ crate::polynomial_utils::coef_at(sh, q),
        ));
        crate::polynomial_utils::lemma_trim_spec_props(connection_poly@);
    }
    let ghost pre_trim = connection_poly@;
    trim_polynomial(connection_poly);
    proof {
        assert(connection_poly@ == crate::polynomial_utils::trim_spec(pre_trim));
        assert forall|q: int| 0 <= q < connection_poly@.len() implies field.elem_wf(
            #[trigger] connection_poly@[q],
        ) by {
            assert(connection_poly@[q] == pre_trim[q]);
        }
    }
}

/// Find the error locator polynomial from the syndrome sequence by the
/// classical Berlekamp-Massey LFSR-synthesis recursion; the connection
/// polynomial is reversed and truncated to degree at most `t`.
pub fn berlekamp_massey(syndrome: &Vec<u32>, field: &FiniteField, t: usize) -> (r: Vec<u32>)
    requires
        field.wf(),
        coeffs_wf(*field, syndrome@),
        t >= 1,
        t <= usize::MAX / 4,
    ensures
        1 <= r@.len() <= t + 1,
        coeffs_wf(*field, r@),
        r@ == berlekamp_massey_spec(*field, syndrome@, t as int),
{
    let mut syndrome_seq = copy_u32(syndrome);
    while syndrome_seq.len() < 2 * t
        invariant
            field.wf(),
            t <= usize::MAX / 4,
            coeffs_wf(*field, syndrome_seq@),
            syndrome_seq@.len() >= syndrome@.len(),
            syndrome_seq@.len() <= 2 * t || syndrome_seq@.len() == syndrome@.len(),
            forall|q: int|
                0 <= q < syndrome_seq@.len() ==> #[trigger] syndrome_seq@[q]
                    == crate::polynomial_utils::coef_at(syndrome@, q),
        decreases 2 * t - syndrome_seq@.len(),
    {
        proof {
            let m = field.m as u32;
            crate::field::lemma_shr_zero_iff_lt(m, 0u32);
            crate::field::lemma_small_shr(m);
        }
        syndrome_seq.push(0);
    }
    proof {
        assert(syndrome_seq@ =~= bm_padded(syndrome@, t as int));
    }

    let mut connection_poly: Vec<u32> = Vec::new();
    connection_poly.push(1);
    let mut prev_connection_poly: Vec<u32> = Vec::new();
    prev_connection_poly.push(1);
    let mut lfsr_length: usize = 0;
    let mut last_discrepancy: u32 = 1;
    let mut iterations_since_change: usize = 1;
    proof {
        let m = field.m as u32;
        crate::field::lemma_shr_zero_iff_lt(m, 1u32);
        crate::field::lemma_small_shr(m);
    }

    let mut nn: usize = 0;
    while nn < 2 * t
        invariant
            field.wf(),
            t >= 1,
            t <= usize::MAX / 4,
            0 <= nn <= 2 * t,
            syndrome_seq@.len() >= 2 * t,
            coeffs_wf(*field, syndrome_seq@),
            connection_poly@.len() >= 1,
            connection_poly@.len() <= nn + 2,
            coeffs_wf(*field, connection_poly@),
            prev_connection_poly@.len() >= 1,
            prev_connection_poly@.len() + iterations_since_change <= nn + 2,
            coeffs_wf(*field, prev_connection_poly@),
            iterations_since_change >= 1,
            lfsr_length <= nn,
            last_discrepancy != 0,
            field.elem_wf(last_discrepancy),
            connection_poly@ == bm_state(*field, syndrome_seq@, nn as int).0,
            prev_connection_poly@ == bm_state(*field, syndrome_seq@, nn as int).1,
            lfsr_length as int == bm_state(*field, syndrome_seq@, nn as int).2,
            last_discrepancy == bm_state(*field, syndrome_seq@, nn as int).3,
            iterations_since_change as int == bm_state(*field, syndrome_seq@, nn as int).4,
        decreases 2 * t - nn,
    {
        let mut discrepancy = syndrome_seq[nn];
        let mut i: usize = 1;
        while i <= lfsr_length
            invariant
                field.wf(),
                coeffs_wf(*field, syndrome_seq@),
                coeffs_wf(*field, connection_poly@),
                lfsr_length <= nn,
                lfsr_length <= usize::MAX / 2,
                nn < syndrome_seq@.len(),
                1 <= i,
                i <= lfsr_length + 1,
                field.elem_wf(discrepancy),
                discrepancy == bm_disc_rec(
                    *field,
                    connection_poly@,
                    syndrome_seq@,
                    nn as int,
                    i - 1,
                ),
            decreases lfsr_length + 1 - i,
        {
            if i < connection_poly.len() {
                let product = field.field_multiply(connection_poly[i], syndrome_seq[nn - i]);
                proof {
                    let m = field.m as u32;
                    let d = discrepancy;
                    crate::field::lemma_shr_zero_iff_lt(m, d);
                    crate::field::lemma_shr_zero_iff_lt(m, product);
                    crate::field::lemma_xor_closed(m, d, product);
                    crate::field::lemma_shr_zero_iff_lt(m, d ^ product);
                }
                discrepancy = discrepancy ^ product;
            } else {
                proof {
                    crate::field::lemma_xor_u32_basics(discrepancy, 0);
                }
            }
            i = i + 1;
        }
        proof {
            assert(discrepancy == bm_disc_rec(
                *field,
                connection_poly@,
                syndrome_seq@,
                nn as int,
                lfsr_length as int,
            ));
        }
        let ghost st = (
            connection_poly@,
            prev_connection_poly@,
            lfsr_length as int,
            last_discrepancy,
            iterations_since_change as int,
        );

        if discrepancy == 0 {
            iterations_since_change = iterations_since_change + 1;
            proof {
                assert(bm_state(*field, syndrome_seq@, nn + 1) == bm_step(
                    *field,
                    syndrome_seq@,
                    nn as int,
                    st,
                ));
            }
        } else if 2 * lfsr_length <= nn {
            let temp = copy_u32(&connection_poly);
            let factor = field.field_multiply(discrepancy, field.inverse(last_discrepancy));
            xor_shifted_scaled(
                &mut connection_poly,
                &prev_connection_poly,
                factor,
                iterations_since_change,
                field,
            );
            lfsr_length = nn + 1 - lfsr_length;
            prev_connection_poly = temp;
            last_discrepancy = discrepancy;
            iterations_since_change = 1;
            proof {
                assert(bm_state(*field, syndrome_seq@, nn + 1) == bm_step(
                    *field,
                    syndrome_seq@,
                    nn as int,
                    st,
                ));
            }
        } else {
            let factor = field.field_multiply(discrepancy, field.inverse(last_discrepancy));
            xor_shifted_scaled(
                &mut connection_poly,
                &prev_connection_poly,
                factor,
                iterations_since_change,
                field,
            );
            iterations_since_change = iterations_since_change + 1;
            proof {
                assert(bm_state(*field, syndrome_seq@, nn + 1) == bm_step(
                    *field,
                    syndrome_seq@,
                    nn as int,
                    st,
                ));
            }
        }
        nn = nn + 1;
    }

    let mut reversed: Vec<u32> = Vec::new();
    let mut ri: usize = connection_poly.len();
    while ri > 0
        invariant
            coeffs_wf(*field, connection_poly@),
            0 <= ri <= connection_poly@.len(),
            reversed@.len() == connection_poly@.len() - ri,
            forall|q: int|
                0 <= q < reversed@.len() ==> field.elem_wf(#[trigger] reversed@[q]),
            forall|q: int|
                0 <= q < reversed@.len() ==> #[trigger] reversed@[q] == connection_poly@[
                    connection_poly@.len() - 1 - q],
        decreases ri,
    {
        reversed.push(connection_poly[ri - 1]);
        ri = ri - 1;
    }
    proof {
        assert(reversed@ =~= connection_poly@.reverse());
    }

    if reversed.len() > t + 1 {
        reversed.truncate(t + 1);
    }
    proof {
        assert(reversed@ == berlekamp_massey_spec(*field, syndrome@, t as int));
    }
    reversed
}

/// Evaluate a polynomial by Horner's method, from the leading coefficient
/// down; the cross-check partner of `evaluate_poly` in root finding.
pub fn evaluate_poly_horner(poly: &Vec<u32>, x: u32, field: &FiniteField) -> (r: u32)
    requires
        field.wf(),
        field.elem_wf(x),
        coeffs_wf(*field, poly@),
    ensures
        r == poly_eval(*field, poly@, x),
        field.elem_wf(r),
{
    let mut result: u32 = 0;
    proof {
        let m = field.m as u32;
        crate::field::lemma_shr_zero_iff_lt(m, 0u32);
        assert(m <= 31 ==> 0u32 >> m == 0) by (bit_vector);
        assert(poly@.skip(poly@.len() as int) =~= Seq::<u32>::empty());
    }
    let mut i: usize = poly.len();
    while i > 0
        invariant
            field.wf(),
            field.elem_wf(x),
            coeffs_wf(*field, poly@),
            0 <= i <= poly@.len(),
            result == poly_eval(*field, poly@.skip(i as int), x),
            field.elem_wf(result),
        decreases i,
    {
        proof {
            assert(poly@.skip(i - 1).drop_first() =~= poly@.skip(i as int));
            assert(poly@.skip(i - 1)[0] == poly@[i - 1]);
        }
        let product = field.field_multiply(result, x);
        proof {
            let m = field.m as u32;
            let c = poly@[i - 1];
            crate::field::lemma_shr_zero_iff_lt(m, product);
            crate::field::lemma_shr_zero_iff_lt(m, c);
            crate::field::lemma_xor_closed(m, product, c);
            crate::field::lemma_shr_zero_iff_lt(m, product ^ c);
        }
        result = field.field_add(product, poly[i - 1]);
        i = i - 1;
    }
    proof {
        assert(poly@.skip(0) =~= poly@);
    }
    result
}

/// Find the roots of the error locator among the support elements: each
/// support position where sigma evaluates to zero (under either evaluation
/// method, which are proved to agree) is flagged as an error location.  A
/// degenerate locator (a single coefficient, or all zero) flags nothing.
pub fn find_roots(sigma: &Vec<u32>, support: &Vec<u32>, field: &FiniteField, n: usize) -> (r: Vec<
    usize,
>)
    requires
        field.wf(),
        coeffs_wf(*field, sigma@),
        n <= support@.len(),
        forall|i: int| 0 <= i < support@.len() ==> field.elem_wf(#[trigger] support@[i]),
    ensures
        forall|i: int| 0 <= i < r@.len() ==> #[trigger] r@[i] < n,
        forall|i: int, j: int| 0 <= i < j < r@.len() ==> r@[i] < r@[j],
        r@.no_duplicates(),
        forall|i: int|
            0 <= i < n ==> (#[trigger] r@.contains(i as usize) <==> (!(sigma@.len() <= 1
                || all_zero_u32(sigma@)) && poly_eval(*field, sigma@, support@[i]) == 0)),
{
    let mut error_positions: Vec<usize> = Vec::new();

    let mut degenerate = sigma.len() <= 1;
    if !degenerate {
        degenerate = is_all_zero_u32(sigma);
    }
    if !degenerate {
        let mut i: usize = 0;
        while i < n
            invariant
                field.wf(),
                coeffs_wf(*field, sigma@),
                n <= support@.len(),
                forall|q: int| 0 <= q < support@.len() ==> field.elem_wf(#[trigger] support@[q]),
                0 <= i <= n,
                forall|q: int| 0 <= q < error_positions@.len() ==> #[trigger] error_positions@[q]
                    < i,
                forall|q1: int, q2: int|
                    0 <= q1 < q2 < error_positions@.len() ==> error_positions@[q1]
                        < error_positions@[q2],
                forall|q: int|
                    0 <= q < i ==> (#[trigger] error_positions@.contains(q as usize) <==>
                    poly_eval(*field, sigma@, support@[q]) == 0),
            decreases n - i,
        {
            let ghost pre = error_positions@;
            let x = support[i];
            let y1 = evaluate_poly(sigma, x, field);
            let y2 = evaluate_poly_horner(sigma, x, field);
            if y1 == 0 || y2 == 0 {
                error_positions.push(i);
            }
            proof {
                assert forall|q: int|
                    0 <= q < i + 1 implies (#[trigger] error_positions@.contains(q as usize)
                    <==> poly_eval(*field, sigma@, support@[q]) == 0) by {
                    if error_positions@.contains(q as usize) {
                        let w = choose|w: int|
                            0 <= w < error_positions@.len() && error_positions@[w] == q as usize;
                        if w < pre.len() {
                            assert(pre[w] == q as usize);
                            assert(pre.contains(q as usize));
                        }
                    }
                    if q < i && poly_eval(*field, sigma@, support@[q]) == 0 {
                        assert(pre.contains(q as usize));
                        let w = choose|w: int| 0 <= w < pre.len() && pre[w] == q as usize;
                        assert(error_positions@[w] == q as usize);
                    }
                    if q == i && poly_eval(*field, sigma@, support@[q]) == 0 {
                        assert(error_positions@.last() == i as usize);
                    }
                }
            }
            i = i + 1;
        }
    }
    proof {
        assert forall|i: int, j: int|
            0 <= i < error_positions@.len() && 0 <= j < error_positions@.len() && i
                != j implies error_positions@[i] != error_positions@[j] by {}
        if degenerate {
            assert(forall|i: int|
                0 <= i < n ==> !(#[trigger] error_positions@.contains(i as usize)));
        }
    }
    error_positions
}

/// Decode a received word against a binary Goppa code by Patterson's
/// pipeline: syndrome polynomial, key-equation solving, root finding, and
/// verified completion.
///
/// When the received word is already a codeword (all-zero syndrome
/// polynomial) the all-zero error vector is returned at once.  Any other
/// success has been verified to zero the full syndrome of the corrected
/// word and to respect the weight bound `w`.
#[verifier::rlimit(80)]
pub fn run_patterson_algorithm(
    received_vector: &Vec<u8>,
    h: &BinaryMatrix,
    goppa_params: &GoppaParams,
    w: usize,
) -> (r: Option<Vec<u8>>)
    requires
        h.wf(),
        goppa_params.wf(),
        received_vector@.len() == h.cols,
        goppa_params.support@.len() == received_vector@.len(),
        goppa_params.t <= usize::MAX / 4,
    ensures
        r matches Some(e) ==> {
            &&& e@.len() == h.cols
            &&& is_bits(e@)
            &&& ((e@ == zero_bits(h.cols as nat) && all_zero_u32(
                syndrome_poly(*goppa_params, received_vector@),
            )) || (all_zero(syndrome_of(h.mat(), crate::bits::xor_bits(received_vector@, e@)))
                && weight_of(e@) <= w))
        },
        all_zero_u32(syndrome_poly(*goppa_params, received_vector@)) ==> (r matches Some(e) && e@
            == zero_bits(h.cols as nat)),
        (goppa_params.t <= 4 && w == 1 && single_fix_exists(h.mat(), received_vector@)) ==> r
            is Some,
{
    let n = received_vector.len();
    let t = goppa_params.t;
    let field = &goppa_params.field;

    let syndrome = compute_syndrome_polynomial(received_vector, goppa_params, n);

    if is_all_zero_u32(&syndrome) {
        return Some(crate::bits::vec_zeros(n));
    }
    let ghost spoly_nonzero = !all_zero_u32(syndrome_poly(*goppa_params, received_vector@));

    let mut extended_syndrome = copy_u32(&syndrome);
    let original_length = extended_syndrome.len();
    while extended_syndrome.len() < 2 * t
        invariant
            field.wf(),
            t <= usize::MAX / 4,
            coeffs_wf(*field, extended_syndrome@),
        decreases 2 * t - extended_syndrome@.len(),
    {
        proof {
            let m = field.m as u32;
            crate::field::lemma_shr_zero_iff_lt(m, 0u32);
            crate::field::lemma_small_shr(m);
        }
        extended_syndrome.push(0);
    }
    if t > 2 && original_length < 2 * t {
        let mut i: usize = original_length;
        while i < 2 * t
            invariant
                field.wf(),
                t <= usize::MAX / 4,
                extended_syndrome@.len() >= 2 * t,
                coeffs_wf(*field, extended_syndrome@),
                original_length <= i,
            decreases 2 * t - i,
        {
            let mut s_i: u32 = 0;
            let mut j: usize = 1;
            proof {
                let m = field.m as u32;
                crate::field::lemma_shr_zero_iff_lt(m, 0u32);
                assert(m <= 31 ==> 0u32 >> m == 0) by (bit_vector);
            }
            while j <= i / 2
                invariant
                    field.wf(),
                    extended_syndrome@.len() >= 2 * t,
                    coeffs_wf(*field, extended_syndrome@),
                    i < 2 * t,
                    t <= usize::MAX / 4,
                    1 <= j,
                    j <= i / 2 + 1,
                    field.elem_wf(s_i),
                decreases i / 2 + 1 - j,
            {
                if j < original_length && (i - j) < original_length && j
                    < extended_syndrome.len() && (i - j) < extended_syndrome.len() {
                    let s_j = extended_syndrome[j];
                    let s_ij = extended_syndrome[i - j];
                    let product = field.field_multiply(s_j, s_ij);
                    proof {
                        let m = field.m as u32;
                        let acc = s_i;
                        crate::field::lemma_shr_zero_iff_lt(m, acc);
                        crate::field::lemma_shr_zero_iff_lt(m, product);
                        crate::field::lemma_xor_closed(m, acc, product);
                        crate::field::lemma_shr_zero_iff_lt(m, acc ^ product);
                    }
                    s_i = s_i ^ product;
                }
                j = j + 1;
            }
            extended_syndrome.set(i, s_i);
            i = i + 1;
        }
    }

    let sigma = berlekamp_massey(&extended_syndrome, field, t);

    let error_positions = find_roots(&sigma, &goppa_params.support, field, n);

    let error_vector = indicator_vector(n, &error_positions);

    if error_positions.len() > 0 {
        let received_xor_error = crate::bits::apply_errors(received_vector, &error_vector);
        let result_syndrome = calculate_syndrome(&received_xor_error, h);
        if crate::bits::is_all_zero(&result_syndrome) {
            if crate::bits::calculate_weight(&error_vector) <= w {
                return Some(error_vector);
            }
        }
    }

    if t > 2 && error_positions.len() > 0 && error_positions.len() < t {
        let remaining_t = t - error_positions.len();
        let max_patterns_for_completion: usize = 10000;
        let mut pattern_count: usize = 0;

        if let Some(mut combo) = first_combination(remaining_t, n) {
            let mut more = true;
            while more && pattern_count < max_patterns_for_completion
                invariant
                    h.wf(),
                    goppa_params.wf(),
                    received_vector@.len() == h.cols,
                    n == received_vector@.len(),
                    spoly_nonzero == !all_zero_u32(
                        syndrome_poly(*goppa_params, received_vector@),
                    ),
                    spoly_nonzero,
                    combo@.len() == remaining_t,
                    remaining_t <= n,
                    combo_wf(combo@, n as nat),
                    forall|q: int| 0 <= q < error_positions@.len()
                        ==> #[trigger] error_positions@[q] < n,
                    pattern_count <= max_patterns_for_completion,
                decreases max_patterns_for_completion - pattern_count,
            {
                let mut overlaps = false;
                let mut ci: usize = 0;
                while ci < combo.len()
                    invariant
                        0 <= ci <= combo@.len(),
                    decreases combo@.len() - ci,
                {
                    if contains_pos(&error_positions, combo[ci]) {
                        overlaps = true;
                    }
                    ci = ci + 1;
                }
                if !overlaps {
                    let trial_positions = crate::bits::concat_positions(&error_positions, &combo);
                    proof {
                        assert forall|q: int|
                            0 <= q < trial_positions@.len() implies trial_positions@[q] < n by {
                            if q < error_positions@.len() {
                                assert(trial_positions@[q] == error_positions@[q]);
                            } else {
                                assert(trial_positions@[q] == combo@[q
                                    - error_positions@.len()]);
                            }
                        }
                    }
                    let trial_error = indicator_vector(n, &trial_positions);
                    let corrected = crate::bits::apply_errors(received_vector, &trial_error);
                    let check = calculate_syndrome(&corrected, h);
                    if crate::bits::is_all_zero(&check) {
                        if crate::bits::calculate_weight(&trial_error) <= w {
                            return Some(trial_error);
                        }
                    }
                }
                pattern_count = pattern_count + 1;
                more = next_combination(&mut combo, n);
            }
        }
    }

    if t <= 4 {
        let max_patterns: usize = 10000;
        let mut pattern_count: usize = 0;

        if w == 1 {
            let mut i: usize = 0;
            while i < n
                invariant
                    h.wf(),
                    received_vector@.len() == h.cols,
                    n == received_vector@.len(),
                    spoly_nonzero == !all_zero_u32(
                        syndrome_poly(*goppa_params, received_vector@),
                    ),
                    spoly_nonzero,
                    w == 1,
                    0 <= i <= n,
                    single_fix_exists(h.mat(), received_vector@) ==> exists|q: int|
                        i <= q < n && single_fix_at(h.mat(), received_vector@, q),
                decreases n - i,
            {
                let mut trial_positions: Vec<usize> = Vec::new();
                trial_positions.push(i);
                let trial_error = indicator_vector(n, &trial_positions);
                proof {
                    let single = seq![i];
                    assert forall|q: int|
                        0 <= q < n implies crate::bits::indicator(n as nat, single)[q]
                        == crate::matrix::unit_bits(n as nat, i as int)[q] by {
                        if single.contains(q as usize) {
                            let ww = choose|ww: int|
                                0 <= ww < single.len() && single[ww] == q as usize;
                        }
                        if q == i {
                            assert(single[0] == i);
                            assert(single.contains(i));
                        }
                    }
                    assert(trial_error@ =~= crate::matrix::unit_bits(n as nat, i as int));
                }
                let corrected = crate::bits::apply_errors(received_vector, &trial_error);
                let check = calculate_syndrome(&corrected, h);
                if crate::bits::is_all_zero(&check) {
                    if crate::bits::calculate_weight(&trial_error) <= w {
                        return Some(trial_error);
                    }
                }
                proof {
                    assert(!single_fix_at(h.mat(), received_vector@, i as int));
                    if single_fix_exists(h.mat(), received_vector@) {
                        let q = choose|q: int|
                            i <= q < n && single_fix_at(h.mat(), received_vector@, q);
                        assert(i + 1 <= q < n && single_fix_at(h.mat(), received_vector@, q));
                    }
                }
                i = i + 1;
            }
            proof {
                assert(!single_fix_exists(h.mat(), received_vector@));
            }
        } else if t == 2 {
            let mut i: usize = 0;
            while i < n
                invariant
                    h.wf(),
                    received_vector@.len() == h.cols,
                    n == received_vector@.len(),
                    spoly_nonzero == !all_zero_u32(
                        syndrome_poly(*goppa_params, received_vector@),
                    ),
                    spoly_nonzero,
                    0 <= i <= n,
                    pattern_count <= max_patterns,
                decreases n - i,
            {
                let mut j: usize = i + 1;
                while j < n && pattern_count < max_patterns
                    invariant
                        h.wf(),
                        received_vector@.len() == h.cols,
                        n == received_vector@.len(),
                        spoly_nonzero == !all_zero_u32(
                            syndrome_poly(*goppa_params, received_vector@),
                        ),
                        spoly_nonzero,
                        i < n,
                        i < j,
                        pattern_count <= max_patterns,
                    decreases n - j,
                {
                    let mut trial_positions: Vec<usize> = Vec::new();
                    trial_positions.push(i);
                    trial_positions.push(j);
                    let trial_error = indicator_vector(n, &trial_positions);
                    let corrected = crate::bits::apply_errors(received_vector, &trial_error);
                    let check = calculate_syndrome(&corrected, h);
                    if crate::bits::is_all_zero(&check) {
                        if crate::bits::calculate_weight(&trial_error) <= w {
                            return Some(trial_error);
                        }
                    }
                    pattern_count = pattern_count + 1;
                    j = j + 1;
                }
                i = i + 1;
            }
        } else if t == 3 || t == 4 {
            if let Some(mut combo) = first_combination(t, n) {
                let mut more = true;
                while more && pattern_count < max_patterns
                    invariant
                        h.wf(),
                        received_vector@.len() == h.cols,
                        n == received_vector@.len(),
                        spoly_nonzero == !all_zero_u32(
                            syndrome_poly(*goppa_params, received_vector@),
                        ),
                        spoly_nonzero,
                        combo@.len() == t,
                        t <= n,
                        combo_wf(combo@, n as nat),
                        pattern_count <= max_patterns,
                    decreases max_patterns - pattern_count,
                {
                    pattern_count = pattern_count + 1;
                    let trial_error = indicator_vector(n, &combo);
                    let corrected = crate::bits::apply_errors(received_vector, &trial_error);
                    let check = calculate_syndrome(&corrected, h);
                    if crate::bits::is_all_zero(&check) {
                        if crate::bits::calculate_weight(&trial_error) <= w {
                            return Some(trial_error);
                        }
                    }
                    more = next_combination(&mut combo, n);
                }
            }
        }
    }

    None
}

} // verus!
