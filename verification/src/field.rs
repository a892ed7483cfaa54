//! GF(2^m) arithmetic on bit-packed field elements.
//!
//! A field element is an unsigned integer below `2^m`, read as a polynomial
//! over GF(2).  Addition is XOR.  Multiplication is shift-and-XOR, reducing
//! against the field's fixed irreducible polynomial whenever the carry step
//! would leave the field; the reduction keeps `m + 1` significant bits in
//! play.  The multiplicative inverse runs the extended Euclidean algorithm
//! on the bit-packed representations.

use vstd::prelude::*;

verus! {

/// XOR facts on `u32` used throughout the field proofs.
pub proof fn lemma_xor_u32_basics(x: u32, y: u32)
    by (bit_vector)
    ensures
        x ^ 0 == x,
        0 ^ x == x,
        x ^ x == 0,
        x ^ y == y ^ x,
{
}

/// One carry step: multiply by `z`, reducing against `poly` when the top
/// bit of the field would be shifted out.
pub open spec fn xtime(m: u32, poly: u32, a: u32) -> u32
    recommends
        1 <= m <= 31,
{
    if a & (1u32 << ((m - 1) as u32)) != 0 {
        (a << 1) ^ poly
    } else {
        a << 1
    }
}

/// Shift-and-XOR product of `a` and `b` in GF(2^m) reduced by `poly`:
/// each low bit of `b` contributes the current `a`, which doubles (with
/// reduction) as `b` is consumed.
pub open spec fn gf_mul_rec(m: u32, poly: u32, a: u32, b: u32) -> u32
    decreases b,
{
    if b == 0 {
        0
    } else {
        (if b % 2 == 1 {
            a
        } else {
            0
        }) ^ gf_mul_rec(m, poly, xtime(m, poly, a), b / 2)
    }
}

proof fn lemma_xtime_closed(m: u32, poly: u32, a: u32)
    requires
        1 <= m <= 31,
        poly >> m == 1,
        a >> m == 0,
    ensures
        xtime(m, poly, a) >> m == 0,
{
    if a & (1u32 << ((m - 1) as u32)) != 0 {
        assert((1 <= m <= 31 && poly >> m == 1 && a >> m == 0 && a & (1u32 << ((m - 1) as u32))
            != 0) ==> ((a << 1) ^ poly) >> m == 0) by (bit_vector);
    } else {
        assert((1 <= m <= 31 && a >> m == 0 && a & (1u32 << ((m - 1) as u32)) == 0) ==> (a << 1)
            >> m == 0) by (bit_vector);
    }
}

proof fn lemma_gf_mul_rec_closed(m: u32, poly: u32, a: u32, b: u32)
    requires
        1 <= m <= 31,
        poly >> m == 1,
        a >> m == 0,
    ensures
        gf_mul_rec(m, poly, a, b) >> m == 0,
    decreases b,
{
    if b == 0 {
        lemma_small_shr(m);
    } else {
        lemma_xtime_closed(m, poly, a);
        lemma_gf_mul_rec_closed(m, poly, xtime(m, poly, a), b / 2);
        let t: u32 = if b % 2 == 1 {
            a
        } else {
            0u32
        };
        let rest = gf_mul_rec(m, poly, xtime(m, poly, a), b / 2);
        lemma_small_shr(m);
        lemma_xor_closed(m, t, rest);
    }
}

proof fn lemma_gf_mul_rec_zero_left(m: u32, poly: u32, b: u32)
    requires
        1 <= m <= 31,
    ensures
        gf_mul_rec(m, poly, 0, b) == 0,
    decreases b,
{
    if b != 0 {
        assert(0u32 & (1u32 << ((m - 1) as u32)) == 0) by (bit_vector);
        assert(0u32 << 1 == 0) by (bit_vector);
        lemma_gf_mul_rec_zero_left(m, poly, b / 2);
        assert(0u32 ^ 0u32 == 0) by (bit_vector);
    }
}

/// Shifting zero, or one by at least one, leaves nothing.
pub proof fn lemma_small_shr(m: u32)
    by (bit_vector)
    ensures
        0u32 >> m == 0,
        m >= 1 ==> 1u32 >> m == 0,
{
}

/// XOR of two values with clear high bits has clear high bits.
pub proof fn lemma_xor_closed(m: u32, x: u32, y: u32)
    by (bit_vector)
    ensures
        (x >> m == 0 && y >> m == 0) ==> (x ^ y) >> m == 0,
{
}

/// Zero times anything is zero in the field.
pub proof fn lemma_gf_mul_zero_left_pub(field: FiniteField, b: u32)
    requires
        field.wf(),
    ensures
        field.gf_mul(0, b) == 0,
{
    lemma_gf_mul_rec_zero_left(field.m as u32, field.poly, b);
}

/// Below-bound and cleared-high-bits say the same thing.
pub proof fn lemma_shr_zero_iff_lt(m: u32, a: u32)
    by (bit_vector)
    requires
        m <= 31,
    ensures
        (a >> m == 0) <==> (a < (1u32 << m)),
{
}

/// Number of significant bits of `a`; the degree of the bit-polynomial
/// `a` is `bitlen(a) - 1`.
pub open spec fn bitlen(a: u32) -> int
    decreases a,
{
    if a == 0 {
        0
    } else {
        1 + bitlen(a / 2)
    }
}

/// A positive value has between 1 and 32 significant bits, and shifting out
/// all but its top bit leaves exactly 1.
proof fn lemma_bitlen_char(a: u32)
    requires
        a > 0,
    ensures
        1 <= bitlen(a) <= 32,
        a >> ((bitlen(a) - 1) as u32) == 1,
    decreases a,
{
    assert(bitlen(0) == 0);
    if a == 1 {
        assert(bitlen(1) == 1);
        assert(1u32 >> 0u32 == 1) by (bit_vector);
    } else {
        lemma_bitlen_char(a / 2);
        let b = bitlen(a / 2);
        assert(bitlen(a) == 1 + b);
        assert((a / 2) >> 31u32 == 0) by (bit_vector);
        assert(b <= 31) by {
            if b == 32 {
                assert((a / 2) >> ((32 - 1) as u32) == 1);
            }
        }
        let bb = (b - 1) as u32;
        assert(((a / 2) >> bb == 1 && bb <= 30 && a >= 2) ==> a >> (bb + 1) == 1)
            by (bit_vector);
        assert((bitlen(a) - 1) as u32 == bb + 1);
        assert(a >> ((bitlen(a) - 1) as u32) == a >> (bb + 1));
    }
}

/// One long-division step: XORing the aligned divisor into `a` clears `a`'s
/// top bit, so the value strictly decreases.
proof fn lemma_reduce_step(a: u32, b: u32)
    requires
        a != 0,
        b != 0,
        bitlen(a) >= bitlen(b),
    ensures
        (a ^ (b << ((bitlen(a) - bitlen(b)) as u32))) < a,
        (a ^ (b << ((bitlen(a) - bitlen(b)) as u32))) >> ((bitlen(a) - 1) as u32) == 0,
    decreases a,
{
    lemma_bitlen_char(a);
    lemma_bitlen_char(b);
    let da = (bitlen(a) - 1) as u32;
    let db = (bitlen(b) - 1) as u32;
    let s = (bitlen(a) - bitlen(b)) as u32;
    assert((a >> da == 1 && b >> db == 1 && db + s == da && da <= 31) ==> ((a ^ (b << s)) >> da
        == 0 && (a ^ (b << s)) < a)) by (bit_vector);
    assert(db + s == da);
}

/// Remainder of bit-polynomial long division of `a` by `b`.
pub open spec fn bmod(a: u32, b: u32) -> u32
    decreases a,
    via bmod_decreases
{
    if b == 0 {
        0
    } else if a == 0 || bitlen(a) < bitlen(b) {
        a
    } else {
        bmod(a ^ (b << ((bitlen(a) - bitlen(b)) as u32)), b)
    }
}

#[via_fn]
proof fn bmod_decreases(a: u32, b: u32) {
    if b != 0 && a != 0 && bitlen(a) >= bitlen(b) {
        lemma_reduce_step(a, b);
    }
}

/// Quotient of bit-polynomial long division of `a` by `b`.
pub open spec fn bdiv(a: u32, b: u32) -> u32
    decreases a,
    via bdiv_decreases
{
    if b == 0 {
        0
    } else if a == 0 || bitlen(a) < bitlen(b) {
        0
    } else {
        bdiv(a ^ (b << ((bitlen(a) - bitlen(b)) as u32)), b) ^ (1u32 << ((bitlen(a) - bitlen(
            b,
        )) as u32))
    }
}

#[via_fn]
proof fn bdiv_decreases(a: u32, b: u32) {
    if b != 0 && a != 0 && bitlen(a) >= bitlen(b) {
        lemma_reduce_step(a, b);
    }
}

/// The remainder has fewer significant bits than the divisor, hence is
/// smaller than it.
proof fn lemma_bmod_props(a: u32, b: u32)
    requires
        b > 0,
    ensures
        bmod(a, b) >> ((bitlen(b) - 1) as u32) == 0,
        bmod(a, b) < b,
    decreases a,
{
    lemma_bitlen_char(b);
    let db = (bitlen(b) - 1) as u32;
    if a == 0 {
        lemma_small_shr(db);
    } else if bitlen(a) < bitlen(b) {
        lemma_bitlen_char(a);
        let da = (bitlen(a) - 1) as u32;
        assert((a >> da == 1 && da < db && db <= 31) ==> a >> db == 0) by (bit_vector);
    } else {
        lemma_reduce_step(a, b);
        lemma_bmod_props(a ^ (b << ((bitlen(a) - bitlen(b)) as u32)), b);
    }
    let r = bmod(a, b);
    assert((r >> db == 0 && b >> db == 1 && db <= 31) ==> r < b) by (bit_vector);
}

/// Carry-less (XOR-accumulating) product of the bit-polynomials `a` and
/// `b`, truncated to 32 bits.
pub open spec fn clmul(a: u32, b: u32) -> u32
    decreases b,
{
    if b == 0 {
        0
    } else {
        (if b % 2 == 1 {
            a
        } else {
            0
        }) ^ clmul(a << 1, b / 2)
    }
}

/// State of the extended Euclidean algorithm on bit-polynomials: remainders
/// `r0, r1` and Bezout coefficients `t0, t1`; at termination `t0` is the
/// inverse of the initial `r1` modulo the initial `r0`.
pub open spec fn euclid_inverse(r0: u32, r1: u32, t0: u32, t1: u32) -> u32
    decreases r1,
    via euclid_inverse_decreases
{
    if r1 == 0 {
        t0
    } else {
        euclid_inverse(r1, bmod(r0, r1), t1, t0 ^ clmul(bdiv(r0, r1), t1))
    }
}

#[via_fn]
proof fn euclid_inverse_decreases(r0: u32, r1: u32, t0: u32, t1: u32) {
    if r1 != 0 {
        lemma_bmod_props(r0, r1);
    }
}

proof fn lemma_bitlen_nonneg(a: u32)
    ensures
        0 <= bitlen(a) <= 32,
    decreases a,
{
    if a > 0 {
        lemma_bitlen_char(a);
    }
}

/// Number of significant bits of `a`, executable.
fn bit_length(a: u32) -> (r: u32)
    ensures
        r == bitlen(a),
{
    proof {
        lemma_bitlen_nonneg(a);
    }
    let mut len: u32 = 0;
    let mut x = a;
    while x > 0
        invariant
            len + bitlen(x) == bitlen(a),
            0 <= bitlen(x) <= 32,
            0 <= bitlen(a) <= 32,
        decreases x,
    {
        x = x / 2;
        len = len + 1;
        proof {
            lemma_bitlen_nonneg(x);
        }
    }
    len
}

/// The fixed irreducible reduction polynomial of degree `m`, one constant
/// per field size.
pub open spec fn reduction_poly(m: u8) -> u32 {
    if m == 2 {
        0b111
    } else if m == 3 {
        0b1011
    } else if m == 4 {
        0b10011
    } else if m == 5 {
        0b100101
    } else if m == 6 {
        0b1000011
    } else if m == 7 {
        0b10001001
    } else if m == 8 {
        0b100011101
    } else if m == 9 {
        0x211
    } else if m == 10 {
        0x409
    } else if m == 11 {
        0x805
    } else if m == 12 {
        0x1053
    } else if m == 13 {
        0x201b
    } else if m == 14 {
        0x4443
    } else if m == 15 {
        0x8003
    } else {
        0x1002d
    }
}

/// GF(2^m) with a fixed irreducible reduction polynomial, bit-packed.
#[derive(Clone)]
pub struct FiniteField {
    /// Extension degree: the field is GF(2^m).
    pub m: u8,
    /// Irreducible polynomial of degree `m`, as a bit pattern.
    pub poly: u32,
}

impl FiniteField {
    /// The degree is in range and the reduction polynomial has degree `m`.
    pub open spec fn wf(&self) -> bool {
        &&& 2 <= self.m <= 16
        &&& self.poly >> (self.m as u32) == 1
    }

    /// Number of field elements, `2^m`.
    pub open spec fn size(&self) -> u32 {
        1u32 << (self.m as u32)
    }

    /// `a` is a field element.
    pub open spec fn elem_wf(&self, a: u32) -> bool {
        a < self.size()
    }

    /// The product of `a` and `b` in this field.
    pub open spec fn gf_mul(&self, a: u32, b: u32) -> u32 {
        gf_mul_rec(self.m as u32, self.poly, a, b)
    }

    /// Create the field GF(2^m) with its standard irreducible polynomial.
    pub fn new(m: u8) -> (r: FiniteField)
        requires
            2 <= m <= 16,
        ensures
            r.wf(),
            r.m == m,
            r.poly == reduction_poly(m),
    {
        let poly: u32 = match m {
            2 => 0b111,
            3 => 0b1011,
            4 => 0b10011,
            5 => 0b100101,
            6 => 0b1000011,
            7 => 0b10001001,
            8 => 0b100011101,
            9 => 0x211,
            10 => 0x409,
            11 => 0x805,
            12 => 0x1053,
            13 => 0x201b,
            14 => 0x4443,
            15 => 0x8003,
            _ => 0x1002d,
        };
        proof {
            assert(0b111u32 >> 2 == 1 && 0b1011u32 >> 3 == 1 && 0b10011u32 >> 4 == 1
                && 0b100101u32 >> 5 == 1 && 0b1000011u32 >> 6 == 1 && 0b10001001u32 >> 7 == 1
                && 0b100011101u32 >> 8 == 1 && 0x211u32 >> 9 == 1 && 0x409u32 >> 10 == 1
                && 0x805u32 >> 11 == 1 && 0x1053u32 >> 12 == 1 && 0x201bu32 >> 13 == 1
                && 0x4443u32 >> 14 == 1 && 0x8003u32 >> 15 == 1 && 0x1002du32 >> 16 == 1)
                by (bit_vector);
        }
        FiniteField { m, poly }
    }

    /// The extension degree.
    pub fn get_m(&self) -> (r: u8)
        ensures
            r == self.m,
    {
        self.m
    }

    /// Addition in GF(2^m) is bitwise XOR.
    pub fn field_add(&self, a: u32, b: u32) -> (r: u32)
        ensures
            r == a ^ b,
    {
        a ^ b
    }

    /// Multiplication in GF(2^m) by shift-and-XOR with reduction.
    pub fn field_multiply(&self, a: u32, b: u32) -> (r: u32)
        requires
            self.wf(),
            self.elem_wf(a),
            self.elem_wf(b),
        ensures
            r == self.gf_mul(a, b),
            self.elem_wf(r),
    {
        let m = self.m as u32;
        proof {
            lemma_shr_zero_iff_lt(m, a);
        }
        if a == 0 || b == 0 {
            proof {
                if a == 0 {
                    lemma_gf_mul_rec_zero_left(m, self.poly, b);
                }
                lemma_shr_zero_iff_lt(m, 0u32);
                lemma_small_shr(m);
            }
            return 0;
        }

        let mut result: u32 = 0;
        let mut a_temp = a;
        let mut b_temp = b;
        proof {
            lemma_small_shr(m);
            lemma_xor_u32_basics(gf_mul_rec(m, self.poly, a_temp, b_temp), 0);
        }

        while b_temp > 0
            invariant
                1 <= m <= 31,
                m == self.m as u32,
                self.wf(),
                a_temp >> m == 0,
                result >> m == 0,
                (result ^ gf_mul_rec(m, self.poly, a_temp, b_temp)) == gf_mul_rec(
                    m,
                    self.poly,
                    a,
                    b,
                ),
            decreases b_temp,
        {
            let ghost old_result = result;
            let ghost old_a = a_temp;
            let ghost old_b = b_temp;
            let t: u32 = if b_temp % 2 == 1 {
                a_temp
            } else {
                0
            };
            result = result ^ t;

            let highest_bit_set = a_temp & (1u32 << (m - 1)) != 0;
            a_temp = a_temp << 1;
            if highest_bit_set {
                a_temp = a_temp ^ self.poly;
            }
            b_temp = b_temp / 2;

            proof {
                assert(a_temp == xtime(m, self.poly, old_a));
                lemma_xtime_closed(m, self.poly, old_a);
                let rest = gf_mul_rec(m, self.poly, a_temp, b_temp);
                assert(gf_mul_rec(m, self.poly, old_a, old_b) == t ^ rest);
                assert((old_result ^ t) ^ rest == old_result ^ (t ^ rest)) by (bit_vector);
                lemma_xor_closed(m, old_result, t);
                lemma_small_shr(m);
            }
        }
        proof {
            assert(gf_mul_rec(m, self.poly, a_temp, 0) == 0);
            lemma_xor_u32_basics(result, 0);
            lemma_shr_zero_iff_lt(m, result);
        }
        result
    }

    /// The multiplicative inverse of `a`, as the extended Euclidean
    /// algorithm computes it; reduced so it is a field element.
    pub open spec fn gf_inv(&self, a: u32) -> u32 {
        bmod(euclid_inverse(self.poly, a, 0, 1), self.poly)
    }

    /// Carry-less product of two bit-polynomials.
    fn bit_polynomial_multiply(&self, a: u32, b: u32) -> (r: u32)
        ensures
            r == clmul(a, b),
    {
        let mut result: u32 = 0;
        let mut a_sh = a;
        let mut b_temp = b;
        proof {
            lemma_xor_u32_basics(clmul(a_sh, b_temp), 0);
        }
        while b_temp > 0
            invariant
                (result ^ clmul(a_sh, b_temp)) == clmul(a, b),
            decreases b_temp,
        {
            let ghost old_result = result;
            let ghost old_a = a_sh;
            let ghost old_b = b_temp;
            let t: u32 = if b_temp % 2 == 1 {
                a_sh
            } else {
                0
            };
            result = result ^ t;
            a_sh = a_sh << 1;
            b_temp = b_temp / 2;
            proof {
                let rest = clmul(a_sh, b_temp);
                assert(clmul(old_a, old_b) == t ^ rest);
                assert((old_result ^ t) ^ rest == old_result ^ (t ^ rest)) by (bit_vector);
            }
        }
        proof {
            lemma_xor_u32_basics(result, 0);
        }
        result
    }

    /// Quotient of bit-polynomial long division.
    fn bit_polynomial_divide(&self, a: u32, b: u32) -> (r: u32)
        requires
            b >= 1,
        ensures
            r == bdiv(a, b),
    {
        let b_len = bit_length(b);
        let mut q: u32 = 0;
        let mut tmp = a;
        let mut tl = bit_length(tmp);
        proof {
            lemma_xor_u32_basics(bdiv(tmp, b), 0);
        }
        while tmp != 0 && tl >= b_len
            invariant
                b >= 1,
                b_len == bitlen(b),
                tl == bitlen(tmp),
                (q ^ bdiv(tmp, b)) == bdiv(a, b),
            decreases tmp,
        {
            proof {
                lemma_reduce_step(tmp, b);
                lemma_bitlen_nonneg(tmp);
                lemma_bitlen_nonneg(b);
                lemma_bitlen_char(b);
            }
            let s = tl - b_len;
            let ghost old_q = q;
            let ghost old_tmp = tmp;
            q = q ^ (1u32 << s);
            tmp = tmp ^ (b << s);
            tl = bit_length(tmp);
            proof {
                let step: u32 = 1u32 << s;
                let rest = bdiv(tmp, b);
                assert(bdiv(old_tmp, b) == rest ^ step);
                assert((old_q ^ step) ^ rest == old_q ^ (rest ^ step)) by (bit_vector);
            }
        }
        proof {
            assert(bdiv(tmp, b) == 0);
            lemma_xor_u32_basics(q, 0);
        }
        q
    }

    /// Remainder of bit-polynomial long division.
    fn bit_polynomial_mod(&self, a: u32, b: u32) -> (r: u32)
        requires
            b >= 1,
        ensures
            r == bmod(a, b),
    {
        let b_len = bit_length(b);
        let mut tmp = a;
        let mut tl = bit_length(tmp);
        while tmp != 0 && tl >= b_len
            invariant
                b >= 1,
                b_len == bitlen(b),
                tl == bitlen(tmp),
                bmod(tmp, b) == bmod(a, b),
            decreases tmp,
        {
            proof {
                lemma_reduce_step(tmp, b);
                lemma_bitlen_nonneg(tmp);
                lemma_bitlen_char(b);
            }
            let s = tl - b_len;
            tmp = tmp ^ (b << s);
            tl = bit_length(tmp);
        }
        tmp
    }

    /// The multiplicative inverse of a non-zero element, by the extended
    /// Euclidean algorithm on bit-packed representations.
    pub fn inverse(&self, a: u32) -> (r: u32)
        requires
            self.wf(),
            a != 0,
        ensures
            r == self.gf_inv(a),
            self.elem_wf(r),
    {
        let mut r0 = self.poly;
        let mut r1 = a;
        let mut s0: u32 = 1;
        let mut s1: u32 = 0;
        let mut t0: u32 = 0;
        let mut t1: u32 = 1;

        while r1 != 0
            invariant
                euclid_inverse(r0, r1, t0, t1) == euclid_inverse(self.poly, a, 0, 1),
            decreases r1,
        {
            let q = self.bit_polynomial_divide(r0, r1);
            let r2 = self.bit_polynomial_mod(r0, r1);
            let s2 = s0 ^ self.bit_polynomial_multiply(q, s1);
            let t2 = t0 ^ self.bit_polynomial_multiply(q, t1);
            proof {
                lemma_bmod_props(r0, r1);
            }
            r0 = r1;
            r1 = r2;
            s0 = s1;
            s1 = s2;
            t0 = t1;
            t1 = t2;
        }

        proof {
            let m = self.m as u32;
            let p = self.poly;
            assert((p >> m == 1 && m <= 31) ==> p >= 1) by (bit_vector);
        }
        let result = self.bit_polynomial_mod(t0, self.poly);
        proof {
            let m = self.m as u32;
            let p = self.poly;
            lemma_bmod_props(t0, self.poly);
            lemma_bitlen_char(self.poly);
            let dp = (bitlen(self.poly) - 1) as u32;
            assert((p >> dp == 1 && p >> m == 1 && dp <= 31 && m <= 31) ==> dp == m)
                by (bit_vector);
            lemma_shr_zero_iff_lt(m, result);
        }
        result
    }
}

} // verus!
