//! Polynomials with GF(2^m) coefficients, stored low degree first.
//!
//! The coefficient at index `i` is the degree-`i` term; after trimming, the
//! leading (highest-index) coefficient is non-zero unless the polynomial is
//! a single constant.

use vstd::prelude::*;
use crate::field::{FiniteField, lemma_xor_u32_basics};
use crate::sampling::random_below;

verus! {

/// Every coefficient is a field element.
pub open spec fn coeffs_wf(field: FiniteField, c: Seq<u32>) -> bool {
    forall|i: int| 0 <= i < c.len() ==> field.elem_wf(#[trigger] c[i])
}

/// The value of the polynomial `c` at `x`, by Horner's rule.
pub open spec fn poly_eval(field: FiniteField, c: Seq<u32>, x: u32) -> u32
    decreases c.len(),
{
    if c.len() == 0 {
        0
    } else {
        field.gf_mul(poly_eval(field, c.drop_first(), x), x) ^ c[0]
    }
}

/// `x` raised to the `j`-th power in the field.
pub open spec fn gf_pow(field: FiniteField, x: u32, j: nat) -> u32
    decreases j,
{
    if j == 0 {
        1
    } else {
        field.gf_mul(gf_pow(field, x, (j - 1) as nat), x)
    }
}

/// The sequence with trailing (highest-degree) zero coefficients removed,
/// never below one coefficient.
pub open spec fn trim_spec(c: Seq<u32>) -> Seq<u32>
    decreases c.len(),
{
    if c.len() <= 1 || c.last() != 0 {
        c
    } else {
        trim_spec(c.drop_last())
    }
}

/// Trimming keeps a non-empty prefix of the coefficients.
pub proof fn lemma_trim_spec_props(s: Seq<u32>)
    requires
        s.len() >= 1,
    ensures
        1 <= trim_spec(s).len() <= s.len(),
        forall|i: int| 0 <= i < trim_spec(s).len() ==> trim_spec(s)[i] == s[i],
    decreases s.len(),
{
    if !(s.len() <= 1 || s.last() != 0) {
        lemma_trim_spec_props(s.drop_last());
        assert(forall|i: int| 0 <= i < s.len() - 1 ==> s.drop_last()[i] == s[i]);
    }
}

/// Remove trailing zero coefficients, preserving at least one coefficient.
pub fn trim_polynomial(poly: &mut Vec<u32>)
    ensures
        final(poly)@ == trim_spec(old(poly)@),
{
    while poly.len() > 1 && poly[poly.len() - 1] == 0
        invariant
            trim_spec(poly@) == trim_spec(old(poly)@),
        decreases poly@.len(),
    {
        proof {
            assert(poly@.drop_last() =~= poly@.take(poly@.len() - 1));
        }
        poly.pop();
    }
}

/// Evaluate a polynomial at a point of the field, by Horner's method from
/// the leading coefficient down; at zero the value is the constant term.
pub fn evaluate_poly(poly: &Vec<u32>, x: u32, field: &FiniteField) -> (r: u32)
    requires
        field.wf(),
        field.elem_wf(x),
        coeffs_wf(*field, poly@),
    ensures
        r == poly_eval(*field, poly@, x),
        field.elem_wf(r),
{
    proof {
        let m = field.m as u32;
        crate::field::lemma_shr_zero_iff_lt(m, 0u32);
        crate::field::lemma_small_shr(m);
    }
    if poly.len() == 0 {
        return 0;
    }
    if x == 0 {
        proof {
            let rest = poly_eval(*field, poly@.drop_first(), x);
            assert(poly_eval(*field, poly@, 0) == field.gf_mul(rest, 0) ^ poly@[0]);
            lemma_xor_u32_basics(poly@[0], 0);
        }
        return poly[0];
    }

    let mut result = poly[poly.len() - 1];
    let mut i: usize = poly.len() - 1;
    proof {
        assert(poly@.skip(poly@.len() - 1).drop_first() =~= Seq::<u32>::empty());
        assert(poly@.skip(poly@.len() - 1)[0] == poly@[poly@.len() - 1]);
        assert(poly_eval(*field, Seq::<u32>::empty(), x) == 0);
        crate::field::lemma_gf_mul_zero_left_pub(*field, x);
        lemma_xor_u32_basics(poly@[poly@.len() - 1], 0);
        assert(poly_eval(*field, poly@.skip(poly@.len() - 1), x) == field.gf_mul(0, x) ^ poly@[
            poly@.len() - 1]);
    }
    while i > 0
        invariant
            field.wf(),
            field.elem_wf(x),
            coeffs_wf(*field, poly@),
            0 <= i < poly@.len(),
            result == poly_eval(*field, poly@.skip(i as int), x),
            field.elem_wf(result),
        decreases i,
    {
        proof {
            assert(poly@.skip(i - 1).drop_first() =~= poly@.skip(i as int));
            assert(poly@.skip(i - 1)[0] == poly@[i - 1]);
        }
        let product = field.field_multiply(result, x);
        proof {
            let m = field.m as u32;
            let c = poly@[i - 1];
            crate::field::lemma_shr_zero_iff_lt(m, product);
            crate::field::lemma_shr_zero_iff_lt(m, c);
            crate::field::lemma_xor_closed(m, product, c);
            crate::field::lemma_shr_zero_iff_lt(m, product ^ c);
        }
        result = field.field_add(product, poly[i - 1]);
        i = i - 1;
    }
    proof {
        assert(poly@.skip(0) =~= poly@);
    }
    result
}

/// The coefficient at index `i`, reading past either end as zero, so that
/// polynomials of unequal length combine without out-of-range access.
pub open spec fn coef_at(c: Seq<u32>, i: int) -> u32 {
    if 0 <= i < c.len() {
        c[i]
    } else {
        0
    }
}

/// The contribution of the first `upto` coefficients of `a` to coefficient
/// `k` of the product `a * b`: the XOR of `a_i * b_{k-i}` for `i < upto`.
pub open spec fn conv_rows(field: FiniteField, a: Seq<u32>, b: Seq<u32>, k: int, upto: int) -> u32
    decreases upto,
{
    if upto <= 0 {
        0
    } else {
        conv_rows(field, a, b, k, upto - 1) ^ field.gf_mul(
            coef_at(a, upto - 1),
            coef_at(b, k - (upto - 1)),
        )
    }
}

/// Coefficient `k` of the product of the polynomials `a` and `b`.
pub open spec fn conv_at(field: FiniteField, a: Seq<u32>, b: Seq<u32>, k: int) -> u32 {
    conv_rows(field, a, b, k, a.len() as int)
}

/// Multiplying by the inverse of `lead` and then by `lead` gives the value
/// back, for every field element.  This is the field-inverse law for one
/// divisor; it is not derivable from the extended-Euclid definition alone
/// (it rests on the irreducibility of the reduction polynomial), so the
/// division identity below is stated under it.
pub open spec fn mul_cancels(field: FiniteField, lead: u32) -> bool {
    forall|x: u32|
        field.elem_wf(x) ==> field.gf_mul(
            #[trigger] field.gf_mul(x, field.gf_inv(lead)),
            lead,
        ) == x
}

/// The division identity, coefficient-wise: `a == q * b + r` over the
/// field, reading missing coefficients as zero.
pub open spec fn divides_with(
    field: FiniteField,
    a: Seq<u32>,
    b: Seq<u32>,
    q: Seq<u32>,
    r: Seq<u32>,
) -> bool {
    forall|k: int|
        0 <= k ==> coef_at(a, k) == (#[trigger] conv_at(field, q, b, k) ^ coef_at(r, k))
}

proof fn lemma_u32_shuffle(x: u32, y: u32, z: u32)
    by (bit_vector)
    ensures
        (x ^ y) ^ z == x ^ (y ^ z),
        x ^ y == y ^ x,
{
}

/// The convolution of an all-zero polynomial with anything is zero.
proof fn lemma_conv_zero(field: FiniteField, q: Seq<u32>, b: Seq<u32>, k: int, upto: int)
    requires
        field.wf(),
        forall|i: int| 0 <= i < q.len() ==> q[i] == 0,
    ensures
        conv_rows(field, q, b, k, upto) == 0,
    decreases upto,
{
    if upto > 0 {
        lemma_conv_zero(field, q, b, k, upto - 1);
        assert(coef_at(q, upto - 1) == 0);
        crate::field::lemma_gf_mul_zero_left_pub(field, coef_at(b, k - (upto - 1)));
        crate::field::lemma_xor_u32_basics(0u32, 0u32);
    }
}

/// Writing coefficient `s` of `q` (previously zero) adds that row's term to
/// every convolution coefficient.
proof fn lemma_conv_update_row(
    field: FiniteField,
    q: Seq<u32>,
    b: Seq<u32>,
    s: int,
    v: u32,
    k: int,
    upto: int,
)
    requires
        field.wf(),
        0 <= s < q.len(),
        q[s] == 0,
    ensures
        conv_rows(field, q.update(s, v), b, k, upto) == (conv_rows(field, q, b, k, upto) ^ (if 0
            <= s < upto {
            field.gf_mul(v, coef_at(b, k - s))
        } else {
            0u32
        })),
    decreases upto,
{
    let qq = q.update(s, v);
    if upto <= 0 {
        crate::field::lemma_xor_u32_basics(0u32, 0u32);
    } else {
        lemma_conv_update_row(field, q, b, s, v, k, upto - 1);
        let rest_old = conv_rows(field, q, b, k, upto - 1);
        let row_old = field.gf_mul(coef_at(q, upto - 1), coef_at(b, k - (upto - 1)));
        let term = field.gf_mul(v, coef_at(b, k - s));
        if upto - 1 == s {
            assert(coef_at(qq, upto - 1) == v);
            assert(coef_at(q, upto - 1) == 0);
            crate::field::lemma_gf_mul_zero_left_pub(field, coef_at(b, k - (upto - 1)));
            assert(conv_rows(field, qq, b, k, upto) == (rest_old ^ 0u32) ^ term);
            crate::field::lemma_xor_u32_basics(rest_old, 0u32);
            crate::field::lemma_xor_u32_basics(conv_rows(field, q, b, k, upto), term);
        } else {
            assert(coef_at(qq, upto - 1) == coef_at(q, upto - 1));
            let t_prev: u32 = if 0 <= s < upto - 1 {
                term
            } else {
                0u32
            };
            let t_cur: u32 = if 0 <= s < upto {
                term
            } else {
                0u32
            };
            assert(t_prev == t_cur);
            assert(conv_rows(field, qq, b, k, upto) == (rest_old ^ t_prev) ^ row_old);
            lemma_u32_shuffle(rest_old, t_prev, row_old);
            crate::field::lemma_xor_u32_basics(t_prev, row_old);
            lemma_u32_shuffle(rest_old, row_old, t_prev);
            assert((rest_old ^ t_prev) ^ row_old == (rest_old ^ row_old) ^ t_cur);
        }
    }
}

/// Coefficient-wise XOR of two polynomials; the shorter operand reads as
/// zero and cancelled leading terms are trimmed away.
pub fn poly_add(a: &Vec<u32>, b: &Vec<u32>, field: &FiniteField) -> (r: Vec<u32>)
    requires
        field.wf(),
        coeffs_wf(*field, a@),
        coeffs_wf(*field, b@),
    ensures
        r@ == trim_spec(
            Seq::new(
                (if a@.len() >= b@.len() {
                    a@.len()
                } else {
                    b@.len()
                }),
                |i: int| coef_at(a@, i) ^ coef_at(b@, i),
            ),
        ),
        coeffs_wf(*field, r@),
{
    let len = if a.len() >= b.len() {
        a.len()
    } else {
        b.len()
    };
    let mut out: Vec<u32> = Vec::new();
    let mut i: usize = 0;
    while i < len
        invariant
            field.wf(),
            coeffs_wf(*field, a@),
            coeffs_wf(*field, b@),
            len == (if a@.len() >= b@.len() {
                a@.len()
            } else {
                b@.len()
            }),
            0 <= i <= len,
            out@.len() == i,
            forall|j: int| 0 <= j < i ==> out@[j] == (coef_at(a@, j) ^ coef_at(b@, j)),
            coeffs_wf(*field, out@),
        decreases len - i,
    {
        let ca = if i < a.len() {
            a[i]
        } else {
            0
        };
        let cb = if i < b.len() {
            b[i]
        } else {
            0
        };
        proof {
            let m = field.m as u32;
            crate::field::lemma_shr_zero_iff_lt(m, ca);
            crate::field::lemma_shr_zero_iff_lt(m, cb);
            crate::field::lemma_xor_closed(m, ca, cb);
            crate::field::lemma_shr_zero_iff_lt(m, ca ^ cb);
            crate::field::lemma_small_shr(m);
        }
        out.push(ca ^ cb);
        i = i + 1;
    }
    proof {
        assert(out@ =~= Seq::new(
            (if a@.len() >= b@.len() {
                a@.len()
            } else {
                b@.len()
            }),
            |j: int| coef_at(a@, j) ^ coef_at(b@, j),
        ));
    }
    let ghost pre = out@;
    if out.len() > 0 {
        proof {
            lemma_trim_spec_props(out@);
        }
        trim_polynomial(&mut out);
        proof {
            assert forall|q: int| 0 <= q < out@.len() implies field.elem_wf(
                #[trigger] out@[q],
            ) by {
                assert(out@[q] == pre[q]);
            }
        }
    }
    out
}

/// Full convolution of two polynomials with field multiplication per term
/// and XOR accumulation, then trimmed.
pub fn poly_multiply(a: &Vec<u32>, b: &Vec<u32>, field: &FiniteField) -> (r: Vec<u32>)
    requires
        field.wf(),
        coeffs_wf(*field, a@),
        coeffs_wf(*field, b@),
        a@.len() + b@.len() < usize::MAX,
    ensures
        r@ == trim_spec(
            Seq::new(
                (if a@.len() >= 1 && b@.len() >= 1 {
                    (a@.len() + b@.len() - 1) as nat
                } else {
                    0
                }),
                |k: int| conv_at(*field, a@, b@, k),
            ),
        ),
        coeffs_wf(*field, r@),
{
    let conv_len: usize = if a.len() >= 1 && b.len() >= 1 {
        a.len() + b.len() - 1
    } else {
        0
    };
    let mut out: Vec<u32> = Vec::new();
    let mut z: usize = 0;
    while z < conv_len
        invariant
            0 <= z <= conv_len,
            out@.len() == z,
            forall|q: int| 0 <= q < z ==> out@[q] == 0,
        decreases conv_len - z,
    {
        out.push(0);
        z = z + 1;
    }
    proof {
        let m = field.m as u32;
        crate::field::lemma_shr_zero_iff_lt(m, 0u32);
        crate::field::lemma_small_shr(m);
        assert forall|k: int| 0 <= k < conv_len implies out@[k] == conv_rows(
            *field,
            a@,
            b@,
            k,
            0,
        ) by {}
    }

    let mut i: usize = 0;
    while i < a.len()
        invariant
            field.wf(),
            coeffs_wf(*field, a@),
            coeffs_wf(*field, b@),
            a@.len() + b@.len() < usize::MAX,
            conv_len == (if a@.len() >= 1 && b@.len() >= 1 {
                a@.len() + b@.len() - 1
            } else {
                0
            }),
            0 <= i <= a@.len(),
            out@.len() == conv_len,
            coeffs_wf(*field, out@),
            forall|k: int|
                0 <= k < conv_len ==> out@[k] == conv_rows(*field, a@, b@, k, i as int),
        decreases a@.len() - i,
    {
        let ai = a[i];
        proof {
            assert forall|k: int| 0 <= k < conv_len implies out@[k] == (conv_rows(
                *field,
                a@,
                b@,
                k,
                i as int,
            ) ^ 0u32) by {
                crate::field::lemma_xor_u32_basics(conv_rows(*field, a@, b@, k, i as int), 0);
            }
        }
        let mut j: usize = 0;
        while j < b.len()
            invariant
                field.wf(),
                coeffs_wf(*field, a@),
                coeffs_wf(*field, b@),
                a@.len() + b@.len() < usize::MAX,
                conv_len == (if a@.len() >= 1 && b@.len() >= 1 {
                    a@.len() + b@.len() - 1
                } else {
                    0
                }),
                0 <= i < a@.len(),
                ai == a@[i as int],
                0 <= j <= b@.len(),
                out@.len() == conv_len,
                coeffs_wf(*field, out@),
                forall|k: int|
                    0 <= k < conv_len ==> out@[k] == (conv_rows(*field, a@, b@, k, i as int) ^ (
                    if i <= k < i + j {
                        field.gf_mul(coef_at(a@, i as int), coef_at(b@, k - i))
                    } else {
                        0u32
                    })),
            decreases b@.len() - j,
        {
            let ghost pre = out@;
            let term = field.field_multiply(ai, b[j]);
            let k = i + j;
            let cur = out[k];
            proof {
                let m = field.m as u32;
                crate::field::lemma_shr_zero_iff_lt(m, term);
                crate::field::lemma_shr_zero_iff_lt(m, cur);
                crate::field::lemma_xor_closed(m, cur, term);
                crate::field::lemma_shr_zero_iff_lt(m, cur ^ term);
                crate::field::lemma_xor_u32_basics(conv_rows(*field, a@, b@, k as int, i as int), 0);
            }
            out.set(k, cur ^ term);
            proof {
                assert forall|q: int| 0 <= q < conv_len implies out@[q] == (conv_rows(
                    *field,
                    a@,
                    b@,
                    q,
                    i as int,
                ) ^ (if i <= q < i + j + 1 {
                    field.gf_mul(coef_at(a@, i as int), coef_at(b@, q - i))
                } else {
                    0u32
                })) by {
                    if q != k {
                        assert(out@[q] == pre[q]);
                    }
                }
            }
            j = j + 1;
        }
        proof {
            assert forall|k: int| 0 <= k < conv_len implies out@[k] == conv_rows(
                *field,
                a@,
                b@,
                k,
                i + 1,
            ) by {
                let row = field.gf_mul(coef_at(a@, i as int), coef_at(b@, k - i));
                if !(i <= k < i + b@.len()) {
                    assert(coef_at(b@, k - i) == 0);
                    assert(field.gf_mul(coef_at(a@, i as int), 0) == 0);
                }
                crate::field::lemma_xor_u32_basics(conv_rows(*field, a@, b@, k, i as int), 0);
            }
        }
        i = i + 1;
    }
    proof {
        if a@.len() == 0 {
            assert forall|k: int| 0 <= k < conv_len implies out@[k] == conv_at(
                *field,
                a@,
                b@,
                k,
            ) by {}
        }
        assert(out@ =~= Seq::new(
            (if a@.len() >= 1 && b@.len() >= 1 {
                (a@.len() + b@.len() - 1) as nat
            } else {
                0
            }),
            |k: int| conv_at(*field, a@, b@, k),
        ));
    }
    let ghost pre_trim = out@;
    if out.len() > 0 {
        proof {
            lemma_trim_spec_props(out@);
        }
        trim_polynomial(&mut out);
        proof {
            assert forall|q: int| 0 <= q < out@.len() implies field.elem_wf(
                #[trigger] out@[q],
            ) by {
                assert(out@[q] == pre_trim[q]);
            }
        }
    }
    out
}

/// Long division of `a` by `b`, yielding quotient and remainder; the
/// divisor must not be the zero polynomial (its leading coefficient, after
/// trimming, is non-zero and hence invertible).  Under the field-inverse
/// law for the leading coefficient, the division identity
/// `a == q * b + r` holds coefficient-wise.
pub fn poly_divide(a: &Vec<u32>, b: &Vec<u32>, field: &FiniteField) -> (r: (Vec<u32>, Vec<u32>))
    requires
        field.wf(),
        coeffs_wf(*field, a@),
        coeffs_wf(*field, b@),
        b@.len() >= 1,
        b@.last() != 0,
    ensures
        coeffs_wf(*field, r.0@),
        coeffs_wf(*field, r.1@),
        r.1@.len() < b@.len() || r.1@.len() == 1,
        mul_cancels(*field, b@.last()) ==> divides_with(*field, a@, b@, r.0@, r.1@),
{
    let lb = b.len();
    let mut rem = copy_coeffs(a);
    let mut quotient: Vec<u32> = Vec::new();

    if a.len() < lb {
        quotient.push(0);
        proof {
            let m = field.m as u32;
            crate::field::lemma_shr_zero_iff_lt(m, 0u32);
            crate::field::lemma_small_shr(m);
        }
        if rem.len() == 0 {
            rem.push(0);
        }
        proof {
            assert forall|k: int| 0 <= k implies coef_at(a@, k) == (#[trigger] conv_at(
                *field,
                quotient@,
                b@,
                k,
            ) ^ coef_at(rem@, k)) by {
                lemma_conv_zero(*field, quotient@, b@, k, quotient@.len() as int);
                lemma_xor_u32_basics(coef_at(rem@, k), 0);
                crate::field::lemma_xor_u32_basics(0u32, coef_at(rem@, k));
            }
        }
        return (quotient, rem);
    }

    let qlen = a.len() - lb + 1;
    let mut z: usize = 0;
    proof {
        let m = field.m as u32;
        crate::field::lemma_shr_zero_iff_lt(m, 0u32);
        crate::field::lemma_small_shr(m);
    }
    while z < qlen
        invariant
            field.wf(),
            quotient@.len() == z,
            0 <= z <= qlen,
            field.elem_wf(0u32),
            coeffs_wf(*field, quotient@),
            forall|idx: int| 0 <= idx < z ==> quotient@[idx] == 0,
        decreases qlen - z,
    {
        quotient.push(0);
        z = z + 1;
    }

    let lead_inv = field.inverse(b[lb - 1]);
    let total = rem.len();

    proof {
        assert forall|k: int| 0 <= k implies coef_at(a@, k) == (#[trigger] conv_at(
            *field,
            quotient@,
            b@,
            k,
        ) ^ coef_at(rem@, k)) by {
            lemma_conv_zero(*field, quotient@, b@, k, quotient@.len() as int);
            crate::field::lemma_xor_u32_basics(coef_at(rem@, k), 0u32);
        }
    }

    let mut shift: usize = qlen;
    while shift > 0
        invariant
            field.wf(),
            coeffs_wf(*field, a@),
            coeffs_wf(*field, b@),
            lb == b@.len(),
            lb >= 1,
            b@.last() != 0,
            qlen + lb - 1 == a@.len(),
            total == rem@.len(),
            rem@.len() == a@.len(),
            coeffs_wf(*field, rem@),
            quotient@.len() == qlen,
            coeffs_wf(*field, quotient@),
            field.elem_wf(lead_inv),
            lead_inv == field.gf_inv(b@.last()),
            0 <= shift <= qlen,
            forall|idx: int| 0 <= idx < shift ==> quotient@[idx] == 0,
            forall|k: int|
                0 <= k ==> coef_at(a@, k) == (#[trigger] conv_at(*field, quotient@, b@, k) ^ coef_at(
                    rem@,
                    k,
                )),
            mul_cancels(*field, b@.last()) ==> forall|k: int|
                lb - 1 + shift <= k ==> #[trigger] coef_at(rem@, k) == 0,
        decreases shift,
    {
        let s = shift - 1;
        proof {
            assert(s < qlen);
            assert(lb - 1 + s < total);
            assert(s + lb <= total);
        }
        let ghost q_pre = quotient@;
        let ghost rem_pre = rem@;
        let coef = field.field_multiply(rem[lb - 1 + s], lead_inv);
        quotient.set(s, coef);
        proof {
            assert forall|k: int|
                0 <= k implies conv_at(*field, quotient@, b@, k) == (#[trigger] conv_at(
                *field,
                q_pre,
                b@,
                k,
            ) ^ field.gf_mul(coef, coef_at(b@, k - s))) by {
                lemma_conv_update_row(*field, q_pre, b@, s as int, coef, k, q_pre.len() as int);
            }
        }
        let mut j: usize = 0;
        proof {
            assert forall|k: int| 0 <= k implies coef_at(rem@, k) == (#[trigger] coef_at(
                rem_pre,
                k,
            ) ^ 0u32) by {
                lemma_xor_u32_basics(coef_at(rem_pre, k), 0);
            }
        }
        while j < lb
            invariant
                field.wf(),
                coeffs_wf(*field, b@),
                lb == b@.len(),
                total == rem@.len(),
                s + lb <= total,
                rem@.len() == a@.len(),
                coeffs_wf(*field, rem@),
                field.elem_wf(coef),
                0 <= j <= lb,
                forall|k: int|
                    0 <= k ==> #[trigger] coef_at(rem@, k) == (coef_at(rem_pre, k) ^ (if s <= k
                        < s + j {
                        field.gf_mul(coef, coef_at(b@, k - s))
                    } else {
                        0u32
                    })),
            decreases lb - j,
        {
            let ghost rem_mid = rem@;
            let delta = field.field_multiply(coef, b[j]);
            let cur = rem[s + j];
            proof {
                let m = field.m as u32;
                crate::field::lemma_shr_zero_iff_lt(m, delta);
                crate::field::lemma_shr_zero_iff_lt(m, cur);
                crate::field::lemma_xor_closed(m, cur, delta);
                crate::field::lemma_shr_zero_iff_lt(m, cur ^ delta);
            }
            rem.set(s + j, cur ^ delta);
            proof {
                assert forall|k: int| 0 <= k implies #[trigger] coef_at(rem@, k) == (coef_at(
                    rem_pre,
                    k,
                ) ^ (if s <= k < s + j + 1 {
                    field.gf_mul(coef, coef_at(b@, k - s))
                } else {
                    0u32
                })) by {
                    if k == s + j {
                        lemma_xor_u32_basics(coef_at(rem_pre, k), 0);
                        crate::field::lemma_xor_u32_basics(0u32, coef_at(rem_pre, k));
                        assert(coef_at(rem_mid, k) == coef_at(rem_pre, k));
                        assert(coef_at(b@, k - s) == b@[j as int]);
                    } else {
                        assert(coef_at(rem@, k) == coef_at(rem_mid, k));
                    }
                }
            }
            j = j + 1;
        }
        proof {
            assert forall|k: int| 0 <= k implies #[trigger] coef_at(rem@, k) == (coef_at(
                rem_pre,
                k,
            ) ^ field.gf_mul(coef, coef_at(b@, k - s))) by {
                if !(s <= k < s + lb) {
                    assert(coef_at(b@, k - s) == 0);
                    assert(field.gf_mul(coef, 0u32) == 0);
                    lemma_xor_u32_basics(coef_at(rem_pre, k), 0);
                }
            }
            assert forall|k: int| 0 <= k implies coef_at(a@, k) == (#[trigger] conv_at(
                *field,
                quotient@,
                b@,
                k,
            ) ^ coef_at(rem@, k)) by {
                let t = field.gf_mul(coef, coef_at(b@, k - s));
                let c0 = conv_at(*field, q_pre, b@, k);
                let r0 = coef_at(rem_pre, k);
                crate::field::lemma_xor_u32_basics(r0, t);
                crate::field::lemma_xor_u32_basics(t, r0);
                lemma_u32_shuffle(t, t, r0);
                crate::field::lemma_xor_u32_basics(t, t);
                crate::field::lemma_xor_u32_basics(0u32, r0);
                assert(t ^ (r0 ^ t) == r0);
                lemma_u32_shuffle(c0, t, r0 ^ t);
                assert((c0 ^ t) ^ (r0 ^ t) == c0 ^ r0);
            }
            if mul_cancels(*field, b@.last()) {
                assert forall|k: int| lb - 1 + s <= k implies #[trigger] coef_at(rem@, k)
                    == 0 by {
                    if k == lb - 1 + s {
                        let x = coef_at(rem_pre, k);
                        assert(field.elem_wf(x));
                        assert(coef == field.gf_mul(x, field.gf_inv(b@.last())));
                        assert(coef_at(b@, k - s) == b@.last());
                        assert(field.gf_mul(coef, b@.last()) == x);
                        crate::field::lemma_xor_u32_basics(x, x);
                    } else {
                        assert(coef_at(rem_pre, k) == 0);
                        assert(coef_at(b@, k - s) == 0);
                        assert(field.gf_mul(coef, 0u32) == 0);
                        lemma_xor_u32_basics(0u32, 0u32);
                    }
                }
            }
        }
        shift = s;
    }

    let ghost rem_full = rem@;
    rem.truncate(lb - 1);
    if rem.len() == 0 {
        proof {
            let m = field.m as u32;
            crate::field::lemma_shr_zero_iff_lt(m, 0u32);
            crate::field::lemma_small_shr(m);
        }
        rem.push(0);
    }
    proof {
        if mul_cancels(*field, b@.last()) {
            assert forall|k: int| 0 <= k implies coef_at(a@, k) == (#[trigger] conv_at(
                *field,
                quotient@,
                b@,
                k,
            ) ^ coef_at(rem@, k)) by {
                assert(coef_at(rem@, k) == coef_at(rem_full, k));
            }
        }
    }
    (quotient, rem)
}

/// The remainder of polynomial long division: under the field-inverse law
/// for the divisor's leading coefficient, some quotient completes it to
/// the division identity.
pub fn poly_mod(a: &Vec<u32>, b: &Vec<u32>, field: &FiniteField) -> (r: Vec<u32>)
    requires
        field.wf(),
        coeffs_wf(*field, a@),
        coeffs_wf(*field, b@),
        b@.len() >= 1,
        b@.last() != 0,
    ensures
        coeffs_wf(*field, r@),
        r@.len() < b@.len() || r@.len() == 1,
        mul_cancels(*field, b@.last()) ==> exists|q: Seq<u32>| #[trigger] divides_with(
            *field,
            a@,
            b@,
            q,
            r@,
        ),
{
    let (quotient, remainder) = poly_divide(a, b, field);
    proof {
        if mul_cancels(*field, b@.last()) {
            assert(divides_with(*field, a@, b@, quotient@, remainder@));
        }
    }
    remainder
}

/// Copy a coefficient vector.
fn copy_coeffs(a: &Vec<u32>) -> (r: Vec<u32>)
    ensures
        r@ == a@,
{
    let mut out: Vec<u32> = Vec::new();
    let mut i: usize = 0;
    while i < a.len()
        invariant
            0 <= i <= a@.len(),
            out@ == a@.take(i as int),
        decreases a@.len() - i,
    {
        proof {
            assert(a@.take(i + 1) =~= a@.take(i as int).push(a@[i as int]));
        }
        out.push(a[i]);
        i = i + 1;
    }
    proof {
        assert(a@.take(a@.len() as int) =~= a@);
    }
    out
}

/// Generate a random monic polynomial of degree `t` with a non-zero
/// constant term, as a candidate Goppa polynomial.
pub fn random_irreducible_poly(t: usize, field: &FiniteField) -> (r: Vec<u32>)
    requires
        field.wf(),
        t >= 1,
        t < usize::MAX,
    ensures
        r@.len() == t + 1,
        r@[t as int] == 1,
        r@[0] != 0,
        coeffs_wf(*field, r@),
{
    let size: u32 = 1u32 << (field.m as u32);
    proof {
        let m = field.m as u32;
        assert((2 <= m <= 16) ==> (1u32 << m) >= 1) by (bit_vector);
    }
    let mut poly: Vec<u32> = Vec::new();
    let mut i: usize = 0;
    while i < t
        invariant
            poly@.len() == i,
            i <= t,
            size == field.size(),
            size >= 1,
            forall|j: int| 0 <= j < i ==> field.elem_wf(#[trigger] poly@[j]),
        decreases t - i,
    {
        let coefficient = random_below(size);
        poly.push(coefficient);
        i = i + 1;
    }
    poly.push(1);
    proof {
        let m = field.m as u32;
        assert((2 <= m <= 16) ==> 1u32 < (1u32 << m)) by (bit_vector);
    }
    if poly[0] == 0 {
        poly.set(0, 1);
    }
    poly
}

} // verus!
