//! Binary matrices and the syndrome map `e |-> H * e (mod 2)`.
//!
//! A parity-check matrix `H` is an `r x n` matrix of bits.  The syndrome of an
//! error vector is obtained row by row: AND the row with the vector, then
//! XOR-fold the result.  The syndrome map is linear over GF(2), which is what
//! makes the meet-in-the-middle decoders sound; that law is proved here.

use vstd::prelude::*;
use crate::bits::{
    all_zero, apply_errors, indicator, is_bits, lemma_xor_u8_basics, weight_of, xor_bits,
    zero_bits,
};

verus! {

/// A rectangular array of bits, row-major.
pub struct BinaryMatrix {
    pub rows: usize,
    pub cols: usize,
    pub data: Vec<Vec<u8>>,
}

impl BinaryMatrix {
    /// The rows, as a sequence of bit sequences.
    pub open spec fn mat(&self) -> Seq<Seq<u8>> {
        self.data@.map_values(|r: Vec<u8>| r@)
    }

    /// Shape and entries agree with `rows x cols` over GF(2).
    pub open spec fn wf(&self) -> bool {
        &&& self.data@.len() == self.rows
        &&& forall|j: int| 0 <= j < self.rows ==> (#[trigger] self.mat()[j]).len() == self.cols
        &&& forall|j: int| 0 <= j < self.rows ==> is_bits(#[trigger] self.mat()[j])
    }

    /// A row of the matrix view is the view of the stored row.
    pub proof fn lemma_row(&self, j: int)
        requires
            0 <= j < self.data@.len(),
        ensures
            self.mat()[j] == self.data@[j]@,
    {
    }

    /// An all-zero matrix of the given shape.
    pub fn zeros(rows: usize, cols: usize) -> (r: BinaryMatrix)
        ensures
            r.wf(),
            r.rows == rows,
            r.cols == cols,
            forall|j: int, i: int| 0 <= j < rows && 0 <= i < cols ==> r.mat()[j][i] == 0,
    {
        let mut data: Vec<Vec<u8>> = Vec::new();
        let mut j: usize = 0;
        while j < rows
            invariant
                0 <= j <= rows,
                data@.len() == j,
                forall|q: int| 0 <= q < j ==> (#[trigger] data@[q])@ == zero_bits(cols as nat),
            decreases rows - j,
        {
            data.push(crate::bits::vec_zeros(cols));
            j = j + 1;
        }
        BinaryMatrix { rows, cols, data }
    }

    /// Read one entry.
    pub fn get(&self, row: usize, col: usize) -> (r: u8)
        requires
            self.wf(),
            row < self.rows,
            col < self.cols,
        ensures
            r == self.mat()[row as int][col as int],
    {
        proof {
            self.lemma_row(row as int);
        }
        self.data[row][col]
    }

    /// Copy one row out as a vector.
    pub fn row(&self, i: usize) -> (r: Vec<u8>)
        requires
            self.wf(),
            i < self.rows,
        ensures
            r@ == self.mat()[i as int],
            r@.len() == self.cols,
    {
        proof {
            self.lemma_row(i as int);
        }
        let src = &self.data[i];
        let mut out: Vec<u8> = Vec::new();
        let mut j: usize = 0;
        while j < src.len()
            invariant
                0 <= j <= src@.len(),
                out@ == src@.take(j as int),
            decreases src@.len() - j,
        {
            proof {
                assert(src@.take(j + 1) =~= src@.take(j as int).push(src@[j as int]));
            }
            out.push(src[j]);
            j = j + 1;
        }
        proof {
            assert(src@.take(src@.len() as int) =~= src@);
        }
        out
    }

    /// Write one entry (0 or 1).
    pub fn set(&mut self, row: usize, col: usize, value: u8)
        requires
            old(self).wf(),
            row < old(self).rows,
            col < old(self).cols,
            value == 0 || value == 1,
        ensures
            final(self).wf(),
            final(self).rows == old(self).rows,
            final(self).cols == old(self).cols,
            final(self).mat() =~= old(self).mat().update(
                row as int,
                old(self).mat()[row as int].update(col as int, value),
            ),
    {
        proof {
            self.lemma_row(row as int);
            assert(self.data@[row as int]@.len() == self.cols);
        }
        let r = &mut self.data[row];
        r.set(col, value);
        proof {
            assert forall|j: int| 0 <= j < self.rows implies (#[trigger] self.mat()[j])
                == old(self).mat().update(
                row as int,
                old(self).mat()[row as int].update(col as int, value),
            )[j] by {
                self.lemma_row(j);
                old(self).lemma_row(j);
            }
            assert forall|j: int| 0 <= j < self.rows implies (#[trigger] self.mat()[j]).len()
                == self.cols && is_bits(self.mat()[j]) by {
                self.lemma_row(j);
                old(self).lemma_row(j);
            }
        }
    }
}

/// XOR-fold of the pointwise AND of a matrix row with a vector: one syndrome bit.
pub open spec fn dot2(row: Seq<u8>, e: Seq<u8>) -> u8
    recommends
        row.len() == e.len(),
    decreases row.len(),
{
    if row.len() == 0 || e.len() == 0 {
        0
    } else {
        dot2(row.drop_last(), e.drop_last()) ^ (row.last() & e.last())
    }
}

/// The syndrome `H * e (mod 2)` of an error vector with respect to `H`.
pub open spec fn syndrome_of(h: Seq<Seq<u8>>, e: Seq<u8>) -> Seq<u8> {
    Seq::new(h.len(), |j: int| dot2(h[j], e))
}

proof fn lemma_dot2_linear(row: Seq<u8>, a: Seq<u8>, b: Seq<u8>)
    requires
        row.len() == a.len(),
        a.len() == b.len(),
    ensures
        dot2(row, xor_bits(a, b)) == dot2(row, a) ^ dot2(row, b),
    decreases row.len(),
{
    if row.len() > 0 {
        lemma_dot2_linear(row.drop_last(), a.drop_last(), b.drop_last());
        assert(xor_bits(a, b).drop_last() =~= xor_bits(a.drop_last(), b.drop_last()));
        assert(xor_bits(a, b).last() == (a.last() ^ b.last()));
        let ra = dot2(row.drop_last(), a.drop_last());
        let rb = dot2(row.drop_last(), b.drop_last());
        let rl = row.last();
        let al = a.last();
        let bl = b.last();
        assert(rl & (al ^ bl) == (rl & al) ^ (rl & bl) && (ra ^ rb) ^ ((rl & al) ^ (rl & bl))
            == (ra ^ (rl & al)) ^ (rb ^ (rl & bl))) by (bit_vector);
        assert(dot2(row, xor_bits(a, b)) == (ra ^ rb) ^ (rl & (al ^ bl)));
        assert(dot2(row, a) == ra ^ (rl & al));
        assert(dot2(row, b) == rb ^ (rl & bl));
    } else {
        lemma_xor_u8_basics(0u8, 0u8);
    }
}

proof fn lemma_dot2_zero(row: Seq<u8>, e: Seq<u8>)
    requires
        row.len() == e.len(),
        all_zero(e),
    ensures
        dot2(row, e) == 0,
    decreases row.len(),
{
    if row.len() > 0 {
        assert(forall|i: int| 0 <= i < e.len() - 1 ==> e.drop_last()[i] == e[i]);
        lemma_dot2_zero(row.drop_last(), e.drop_last());
        let l = row.last();
        assert(e.last() == 0);
        assert(l & 0 == 0) by (bit_vector);
        lemma_xor_u8_basics(0u8, 0u8);
    }
}

/// Associativity of XOR, commutativity of AND, and masking a bit by 1.
proof fn lemma_u8_shuffle(x: u8, y: u8, z: u8)
    by (bit_vector)
    ensures
        (x ^ y) ^ z == x ^ (y ^ z),
        x & y == y & x,
        (x == 0 || x == 1) ==> (x & 1) == x,
{
}

/// A dot product with an all-zero operand, on either side, is zero.
proof fn lemma_dot2_zero_either(a: Seq<u8>, b: Seq<u8>)
    requires
        a.len() == b.len(),
    ensures
        all_zero(b) ==> dot2(a, b) == 0,
        all_zero(a) ==> dot2(a, b) == 0,
    decreases a.len(),
{
    if a.len() > 0 {
        assert(forall|i: int| 0 <= i < a.len() - 1 ==> a.drop_last()[i] == a[i]);
        assert(forall|i: int| 0 <= i < b.len() - 1 ==> b.drop_last()[i] == b[i]);
        lemma_dot2_zero_either(a.drop_last(), b.drop_last());
        assert(a.last() & 0 == 0 && 0 & b.last() == 0) by (bit_vector);
        lemma_xor_u8_basics(0u8, 0u8);
    }
}

/// The length-`n` unit vector with a single one at position `i`.
pub open spec fn unit_bits(n: nat, i: int) -> Seq<u8> {
    Seq::new(n, |q: int| if q == i {
        1u8
    } else {
        0u8
    })
}

/// A dot product against a unit vector reads off one entry of the other
/// operand.
proof fn lemma_dot2_unit(row: Seq<u8>, i: int)
    requires
        is_bits(row),
        0 <= i < row.len(),
    ensures
        dot2(row, unit_bits(row.len(), i)) == row[i],
        dot2(unit_bits(row.len(), i), row) == row[i],
    decreases row.len(),
{
    let n = row.len();
    let u = unit_bits(n, i);
    if i == n - 1 {
        assert(all_zero(u.drop_last()));
        lemma_dot2_zero_either(row.drop_last(), u.drop_last());
        lemma_dot2_zero_either(u.drop_last(), row.drop_last());
        lemma_u8_shuffle(row[i], 1u8, 0u8);
        assert(row.last() & u.last() == row[i]);
        assert(u.last() & row.last() == row[i]);
        lemma_xor_u8_basics(row[i], 0u8);
    } else {
        assert(u.drop_last() =~= unit_bits((n - 1) as nat, i));
        assert(forall|q: int| 0 <= q < n - 1 ==> row.drop_last()[q] == row[q]);
        lemma_dot2_unit(row.drop_last(), i);
        assert(u.last() == 0);
        assert(row.last() & 0 == 0 && 0 & row.last() == 0) by (bit_vector);
        lemma_xor_u8_basics(row[i], 0u8);
    }
}

/// A dot product splits over aligned concatenations.
proof fn lemma_dot2_concat(r1: Seq<u8>, r2: Seq<u8>, e1: Seq<u8>, e2: Seq<u8>)
    requires
        r1.len() == e1.len(),
        r2.len() == e2.len(),
    ensures
        dot2(r1 + r2, e1 + e2) == dot2(r1, e1) ^ dot2(r2, e2),
    decreases r2.len(),
{
    if r2.len() == 0 {
        assert(r1 + r2 =~= r1);
        assert(e1 + e2 =~= e1);
        lemma_xor_u8_basics(dot2(r1, e1), 0u8);
    } else {
        assert((r1 + r2).drop_last() =~= r1 + r2.drop_last());
        assert((e1 + e2).drop_last() =~= e1 + e2.drop_last());
        assert((r1 + r2).last() == r2.last());
        assert((e1 + e2).last() == e2.last());
        lemma_dot2_concat(r1, r2.drop_last(), e1, e2.drop_last());
        lemma_u8_shuffle(
            dot2(r1, e1),
            dot2(r2.drop_last(), e2.drop_last()),
            (r2.last() & e2.last()),
        );
    }
}

/// The syndrome map is linear: `syndrome(a XOR b) == syndrome(a) XOR syndrome(b)`.
pub proof fn lemma_syndrome_linear(h: Seq<Seq<u8>>, a: Seq<u8>, b: Seq<u8>)
    requires
        forall|j: int| 0 <= j < h.len() ==> (#[trigger] h[j]).len() == a.len(),
        a.len() == b.len(),
    ensures
        syndrome_of(h, xor_bits(a, b)) =~= xor_bits(syndrome_of(h, a), syndrome_of(h, b)),
{
    assert forall|j: int| 0 <= j < h.len() implies #[trigger] dot2(h[j], xor_bits(a, b)) == (dot2(
        h[j],
        a,
    ) ^ dot2(h[j], b)) by {
        lemma_dot2_linear(h[j], a, b);
    }
}

/// The syndrome of an all-zero vector is all-zero, for any `H`.
pub proof fn lemma_syndrome_of_zero(h: Seq<Seq<u8>>, e: Seq<u8>)
    requires
        forall|j: int| 0 <= j < h.len() ==> (#[trigger] h[j]).len() == e.len(),
        all_zero(e),
    ensures
        all_zero(syndrome_of(h, e)),
{
    assert forall|j: int| 0 <= j < h.len() implies #[trigger] dot2(h[j], e) == 0 by {
        lemma_dot2_zero(h[j], e);
    }
}

/// Two vectors whose XOR has zero syndrome are coset-equivalent: they have
/// the same syndrome.
pub proof fn lemma_syndrome_xor_zero(h: Seq<Seq<u8>>, a: Seq<u8>, b: Seq<u8>)
    requires
        forall|j: int| 0 <= j < h.len() ==> (#[trigger] h[j]).len() == a.len(),
        a.len() == b.len(),
        all_zero(syndrome_of(h, xor_bits(a, b))),
    ensures
        syndrome_of(h, a) =~= syndrome_of(h, b),
{
    lemma_syndrome_linear(h, a, b);
    assert forall|j: int| 0 <= j < h.len() implies syndrome_of(h, a)[j] == #[trigger] syndrome_of(
        h,
        b,
    )[j] by {
        let x = dot2(h[j], a);
        let y = dot2(h[j], b);
        assert(syndrome_of(h, xor_bits(a, b))[j] == 0);
        assert(x ^ y == 0);
        lemma_xor_u8_basics(x, y);
        assert(x ^ (y ^ x) == y);
    }
}

/// Round trip: if `c` is a codeword (zero syndrome) and a decoder's answer
/// `e2` has the syndrome of the corrupted word `c XOR e`, then `e2` has the
/// syndrome of the injected error `e` itself.
pub proof fn lemma_round_trip(h: Seq<Seq<u8>>, c: Seq<u8>, e: Seq<u8>, e2: Seq<u8>)
    requires
        forall|j: int| 0 <= j < h.len() ==> (#[trigger] h[j]).len() == c.len(),
        c.len() == e.len(),
        all_zero(syndrome_of(h, c)),
        syndrome_of(h, e2) == syndrome_of(h, xor_bits(c, e)),
    ensures
        syndrome_of(h, e2) =~= syndrome_of(h, e),
{
    lemma_syndrome_linear(h, c, e);
    assert forall|j: int| 0 <= j < h.len() implies syndrome_of(h, xor_bits(c, e))[j]
        == #[trigger] syndrome_of(h, e)[j] by {
        assert(syndrome_of(h, c)[j] == 0);
        let x = dot2(h[j], e);
        assert(0 ^ x == x) by (bit_vector);
    }
}

/// A systematic pair is orthogonal: when `G = [I_k | P]` and
/// `H = [P^T | I_m]` share one `P`, every row of `G` is a codeword of `H`,
/// which is the `G * H^T = 0` invariant the decoders assume of generated
/// codes.
pub proof fn lemma_systematic_orthogonal(g: Seq<Seq<u8>>, h: Seq<Seq<u8>>, k: int, m: int)
    requires
        g.len() == k,
        h.len() == m,
        k >= 0,
        m >= 0,
        forall|i: int| 0 <= i < k ==> (#[trigger] g[i]).len() == k + m && is_bits(g[i]),
        forall|j: int| 0 <= j < m ==> (#[trigger] h[j]).len() == k + m && is_bits(h[j]),
        forall|i: int, c: int|
            0 <= i < k && 0 <= c < k ==> g[i][c] == (if c == i {
                1u8
            } else {
                0u8
            }),
        forall|j: int, c: int|
            0 <= j < m && k <= c < k + m ==> h[j][c] == (if c == k + j {
                1u8
            } else {
                0u8
            }),
        forall|i: int, j: int| 0 <= i < k && 0 <= j < m ==> g[i][k + j] == h[j][i],
    ensures
        forall|i: int| 0 <= i < k ==> all_zero(syndrome_of(h, #[trigger] g[i])),
{
    assert forall|i: int, j: int| 0 <= i < k && 0 <= j < m implies #[trigger] dot2(h[j], g[i])
        == 0 by {
        let grow = g[i];
        let hrow = h[j];
        let g1 = grow.subrange(0, k);
        let g2 = grow.subrange(k, k + m);
        let h1 = hrow.subrange(0, k);
        let h2 = hrow.subrange(k, k + m);
        assert(grow =~= g1 + g2);
        assert(hrow =~= h1 + h2);
        lemma_dot2_concat(h1, h2, g1, g2);
        assert(g1 =~= unit_bits(k as nat, i));
        assert(h2 =~= unit_bits(m as nat, j));
        assert(is_bits(h1));
        assert(is_bits(g2));
        lemma_dot2_unit(h1, i);
        lemma_dot2_unit(g2, j);
        assert(dot2(h1, g1) == h1[i]);
        assert(dot2(h2, g2) == g2[j]);
        assert(h1[i] == h[j][i]);
        assert(g2[j] == g[i][k + j]);
        lemma_xor_u8_basics(h[j][i], g[i][k + j]);
    }
    assert forall|i: int| 0 <= i < k implies all_zero(syndrome_of(h, #[trigger] g[i])) by {
        assert(forall|j: int| 0 <= j < m ==> syndrome_of(h, g[i])[j] == dot2(h[j], g[i]));
    }
}

/// One syndrome bit, executable: AND the row with the vector, XOR-fold.
fn dot_row(row: &Vec<u8>, e: &Vec<u8>) -> (r: u8)
    requires
        row@.len() == e@.len(),
    ensures
        r == dot2(row@, e@),
{
    let mut acc: u8 = 0;
    let mut i: usize = 0;
    while i < row.len()
        invariant
            0 <= i <= row@.len(),
            row@.len() == e@.len(),
            acc == dot2(row@.take(i as int), e@.take(i as int)),
        decreases row@.len() - i,
    {
        proof {
            assert(row@.take(i + 1).drop_last() =~= row@.take(i as int));
            assert(e@.take(i + 1).drop_last() =~= e@.take(i as int));
        }
        acc = acc ^ (row[i] & e[i]);
        i = i + 1;
    }
    proof {
        assert(row@.take(row@.len() as int) =~= row@);
        assert(e@.take(e@.len() as int) =~= e@);
    }
    acc
}

/// The syndrome `H * e (mod 2)`: one bit per row of `H`.
pub fn calculate_syndrome(error_vector: &Vec<u8>, h: &BinaryMatrix) -> (r: Vec<u8>)
    requires
        h.wf(),
        error_vector@.len() == h.cols,
    ensures
        r@ == syndrome_of(h.mat(), error_vector@),
        r@.len() == h.rows,
{
    let mut out: Vec<u8> = Vec::new();
    let mut j: usize = 0;
    while j < h.rows
        invariant
            0 <= j <= h.rows,
            h.wf(),
            error_vector@.len() == h.cols,
            out@.len() == j,
            forall|q: int| 0 <= q < j ==> out@[q] == dot2(h.mat()[q], error_vector@),
        decreases h.rows - j,
    {
        proof {
            h.lemma_row(j as int);
        }
        out.push(dot_row(&h.data[j], error_vector));
        j = j + 1;
    }
    proof {
        assert(out@ =~= syndrome_of(h.mat(), error_vector@));
    }
    out
}

/// XOR of a chosen set of columns of `H`: for duplicate-free positions,
/// exactly the syndrome of their indicator vector, computed without
/// building the vector.
pub fn calculate_partial_syndrome(h: &BinaryMatrix, indices: &Vec<usize>, r: usize) -> (out: Vec<
    u8,
>)
    requires
        h.wf(),
        r == h.rows,
        forall|i: int| 0 <= i < indices@.len() ==> indices@[i] < h.cols,
    ensures
        out@.len() == r,
        indices@.len() == 0 ==> all_zero(out@),
        indices@.no_duplicates() ==> out@ == syndrome_of(
            h.mat(),
            indicator(h.cols as nat, indices@),
        ),
{
    let mut syndrome: Vec<u8> = crate::bits::vec_zeros(r);
    proof {
        if indices@.no_duplicates() {
            assert(indices@.take(0) =~= Seq::<usize>::empty());
            assert(indicator(h.cols as nat, indices@.take(0)) =~= zero_bits(h.cols as nat));
            lemma_syndrome_of_zero(h.mat(), indicator(h.cols as nat, indices@.take(0)));
            assert(syndrome@ =~= syndrome_of(h.mat(), indicator(h.cols as nat, indices@.take(0))));
        }
    }
    let mut k: usize = 0;
    while k < indices.len()
        invariant
            0 <= k <= indices@.len(),
            h.wf(),
            r == h.rows,
            forall|i: int| 0 <= i < indices@.len() ==> indices@[i] < h.cols,
            syndrome@.len() == r,
            indices@.len() == 0 ==> all_zero(syndrome@),
            indices@.no_duplicates() ==> syndrome@ == syndrome_of(
                h.mat(),
                indicator(h.cols as nat, indices@.take(k as int)),
            ),
        decreases indices@.len() - k,
    {
        let ghost pre = syndrome@;
        let idx = indices[k];
        let mut j: usize = 0;
        while j < r
            invariant
                0 <= j <= r,
                h.wf(),
                r == h.rows,
                idx < h.cols,
                syndrome@.len() == r,
                forall|q: int| 0 <= q < j ==> syndrome@[q] == (pre[q] ^ h.mat()[q][idx as int]),
                forall|q: int| j <= q < r ==> syndrome@[q] == pre[q],
            decreases r - j,
        {
            let bit = h.get(j, idx);
            let cur = syndrome[j];
            syndrome.set(j, cur ^ bit);
            j = j + 1;
        }
        proof {
            if indices@.no_duplicates() {
                let n = h.cols as nat;
                let hm = h.mat();
                let prefix = indices@.take(k as int);
                let single = seq![idx];
                assert(indices@.take(k + 1) =~= prefix + single);
                assert forall|x: usize| !(prefix.contains(x) && single.contains(x)) by {
                    if prefix.contains(x) && single.contains(x) {
                        let w = choose|w: int| 0 <= w < prefix.len() && prefix[w] == x;
                        assert(indices@[w] == idx);
                        assert(indices@[k as int] == idx);
                    }
                }
                crate::bits::lemma_indicator_split(n, prefix, single);
                lemma_syndrome_linear(hm, indicator(n, prefix), indicator(n, single));
                assert forall|q: int| 0 <= q < n implies indicator(n, single)[q] == unit_bits(
                    n,
                    idx as int,
                )[q] by {
                    if single.contains(q as usize) {
                        let w = choose|w: int| 0 <= w < single.len() && single[w] == q as usize;
                    }
                    if q == idx {
                        assert(single[0] == idx);
                        assert(single.contains(idx));
                    }
                }
                assert(indicator(n, single) =~= unit_bits(n, idx as int));
                assert forall|q: int|
                    0 <= q < r implies syndrome_of(hm, indicator(n, single))[q] == hm[q][
                    idx as int] by {
                    lemma_dot2_unit(hm[q], idx as int);
                }
                assert(syndrome@ =~= syndrome_of(hm, indicator(n, indices@.take(k + 1))));
            }
        }
        k = k + 1;
    }
    proof {
        assert(indices@.take(indices@.len() as int) =~= indices@);
    }
    syndrome
}

/// Does `e` have syndrome `s` with respect to `H`?
pub fn validate_syndrome(e: &Vec<u8>, s: &Vec<u8>, h: &BinaryMatrix) -> (r: bool)
    requires
        h.wf(),
        e@.len() == h.cols,
    ensures
        r <==> syndrome_of(h.mat(), e@) =~= s@,
{
    let syndrome = calculate_syndrome(e, h);
    crate::bits::bytes_eq(&syndrome, s)
}

} // verus!
