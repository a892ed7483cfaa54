//! The MMT-style partitioned collision search, operating in syndrome space.
//!
//! Unlike the other searches this one is handed a target syndrome directly.
//! The coordinates fall into `p` blocks; the requested weight is spread
//! evenly across them, each half of the blocks contributes a list of random
//! combined samples keyed by partial syndrome, and a complement-syndrome
//! match proposes a candidate.  A candidate is accepted only after its
//! weight equals the requested weight and its full syndrome equals the
//! target.

use vstd::prelude::*;
use vstd::arithmetic::div_mod::lemma_fundamental_div_mod;
use vstd::arithmetic::mul::lemma_mul_inequality;
use crate::bits::{indicator_vector, is_bits, weight_of};
use crate::candidates::{copy_positions, find_entry};
use crate::matrix::{calculate_partial_syndrome, calculate_syndrome, syndrome_of, BinaryMatrix};
use crate::sampling::{range_vec, sample_indices};

verus! {

/// Positions drawn from the given block range, all below `n`, keyed by a
/// partial syndrome of `rows` bits.
pub open spec fn mmt_list_inv(m: Seq<(Vec<u8>, Vec<usize>)>, n: nat, rows: nat) -> bool {
    forall|k: int|
        0 <= k < m.len() ==> {
            &&& (#[trigger] m[k]).0@.len() == rows
            &&& forall|i: int| 0 <= i < m[k].1@.len() ==> #[trigger] m[k].1@[i] < n
        }
}

/// With no weight to place, every stored sample is the empty pattern with
/// an all-zero partial syndrome.
pub open spec fn mmt_list_trivial(m: Seq<(Vec<u8>, Vec<usize>)>) -> bool {
    forall|k: int|
        0 <= k < m.len() ==> crate::bits::all_zero((#[trigger] m[k]).0@) && m[k].1@.len() == 0
}

/// Split the requested weight as evenly as possible across `p` blocks.
fn split_weights(weight: usize, p: usize) -> (w: Vec<usize>)
    requires
        p >= 2,
    ensures
        w@.len() == p,
        weight == 0 ==> forall|i: int| 0 <= i < w@.len() ==> w@[i] == 0,
{
    if p == 2 {
        let mut w: Vec<usize> = Vec::new();
        w.push(weight / 2);
        w.push(weight - weight / 2);
        proof {
            assert(forall|i: int| 0 <= i < w@.len() ==> w@[i] == (if i == 0 {
                weight / 2
            } else {
                (weight - weight / 2) as usize
            }));
        }
        w
    } else {
        let base_weight = weight / p;
        proof {
            lemma_fundamental_div_mod(weight as int, p as int);
            lemma_mul_inequality(2, p as int, base_weight as int);
        }
        let remainder = weight % p;
        let mut w: Vec<usize> = Vec::new();
        let mut i: usize = 0;
        while i < p
            invariant
                0 <= i <= p,
                w@.len() == i,
                2 * base_weight <= weight,
                base_weight == weight / p,
                remainder == weight % p,
                weight == 0 ==> remainder == 0,
                weight == 0 ==> forall|j: int| 0 <= j < w@.len() ==> w@[j] == 0,
            decreases p - i,
        {
            if i < remainder {
                w.push(base_weight + 1);
            } else {
                w.push(base_weight);
            }
            i = i + 1;
        }
        w
    }
}

/// The `p` consecutive coordinate blocks of roughly equal size; the last
/// block absorbs the remainder.
fn build_partitions(n: usize, p: usize) -> (parts: Vec<Vec<usize>>)
    requires
        p >= 2,
    ensures
        parts@.len() == p,
        forall|q: int, i: int|
            0 <= q < parts@.len() && 0 <= i < parts@[q]@.len() ==> #[trigger] parts@[q]@[i] < n,
{
    let partition_size = n / p;
    let mut parts: Vec<Vec<usize>> = Vec::new();
    let mut i: usize = 0;
    while i < p
        invariant
            0 <= i <= p,
            p >= 2,
            partition_size == n / p,
            parts@.len() == i,
            forall|q: int, j: int|
                0 <= q < parts@.len() && 0 <= j < parts@[q]@.len() ==> #[trigger] parts@[q]@[j]
                    < n,
        decreases p - i,
    {
        proof {
            lemma_fundamental_div_mod(n as int, p as int);
            lemma_mul_inequality(i + 1, p as int, partition_size as int);
            lemma_mul_inequality(i as int, i + 1, partition_size as int);
            assert(p * partition_size <= n);
            assert((i + 1) * partition_size <= n);
            assert(i * partition_size <= n);
        }
        let start_idx = i * partition_size;
        let end_idx = if i == p - 1 {
            n
        } else {
            (i + 1) * partition_size
        };
        let part = range_vec(start_idx, end_idx);
        proof {
            assert forall|j: int| 0 <= j < part@.len() implies #[trigger] part@[j] < n by {
                assert(part@.contains(part@[j]));
            }
        }
        parts.push(part);
        i = i + 1;
    }
    parts
}

/// Draw one combined sample across the blocks `[lo, hi)`, honoring the
/// per-block weight split, and key it by its partial syndrome.
fn draw_combined_sample(
    partitions: &Vec<Vec<usize>>,
    weights: &Vec<usize>,
    lo: usize,
    hi: usize,
    h: &BinaryMatrix,
) -> (out: (Vec<u8>, Vec<usize>))
    requires
        h.wf(),
        hi <= partitions@.len(),
        hi <= weights@.len(),
        lo <= hi,
        forall|q: int, i: int|
            0 <= q < partitions@.len() && 0 <= i < partitions@[q]@.len()
                ==> #[trigger] partitions@[q]@[i] < h.cols,
    ensures
        out.0@.len() == h.rows,
        forall|i: int| 0 <= i < out.1@.len() ==> #[trigger] out.1@[i] < h.cols,
        (forall|q: int| lo <= q < hi ==> weights@[q] == 0) ==> (out.1@.len() == 0
            && crate::bits::all_zero(out.0@)),
{
    let mut subset: Vec<usize> = Vec::new();
    let mut i: usize = lo;
    while i < hi
        invariant
            lo <= i <= hi,
            hi <= partitions@.len(),
            hi <= weights@.len(),
            h.wf(),
            forall|q: int, j: int|
                0 <= q < partitions@.len() && 0 <= j < partitions@[q]@.len()
                    ==> #[trigger] partitions@[q]@[j] < h.cols,
            forall|j: int| 0 <= j < subset@.len() ==> #[trigger] subset@[j] < h.cols,
            (forall|q: int| lo <= q < hi ==> weights@[q] == 0) ==> subset@.len() == 0,
        decreases hi - i,
    {
        let partition = &partitions[i];
        let weight_i = weights[i];
        if weight_i > 0 && partition.len() > 0 {
            let amount = if weight_i < partition.len() {
                weight_i
            } else {
                partition.len()
            };
            let chosen = sample_indices(partition, amount);
            proof {
                assert forall|j: int| 0 <= j < chosen@.len() implies #[trigger] chosen@[j]
                    < h.cols by {
                    assert(partitions@[i as int]@.contains(chosen@[j]));
                    let w = choose|w: int|
                        0 <= w < partitions@[i as int]@.len() && partitions@[i as int]@[w]
                            == chosen@[j];
                }
            }
            subset = crate::bits::concat_positions(&subset, &chosen);
        }
        i = i + 1;
    }
    let r_rows = h.rows;
    let partial_syndrome = calculate_partial_syndrome(h, &subset, r_rows);
    (partial_syndrome, subset)
}

/// Search, in syndrome space, for an error vector of weight exactly `weight`
/// whose syndrome equals the given target.
pub fn run_mmt_algorithm(
    h: &BinaryMatrix,
    syndrome: &Vec<u8>,
    n: usize,
    weight: usize,
    p: usize,
    l1: usize,
    l2: usize,
) -> (r: Option<Vec<u8>>)
    requires
        h.wf(),
        n == h.cols,
        syndrome@.len() == h.rows,
    ensures
        r matches Some(e) ==> {
            &&& e@.len() == h.cols
            &&& is_bits(e@)
            &&& weight_of(e@) == weight
            &&& syndrome_of(h.mat(), e@) == syndrome@
        },
        (weight == 0 && l1 >= 1 && l2 >= 1 && crate::bits::all_zero(syndrome@)) ==> (r matches
            Some(e) && e@ == crate::bits::zero_bits(h.cols as nat)),
{
    let p = if p < 2 {
        2
    } else {
        p
    };
    let weights = split_weights(weight, p);
    let partitions = build_partitions(n, p);

    let mut l1_map: Vec<(Vec<u8>, Vec<usize>)> = Vec::new();
    let mut s: usize = 0;
    while s < l1
        invariant
            h.wf(),
            n == h.cols,
            p >= 2,
            partitions@.len() == p,
            weights@.len() == p,
            forall|q: int, i: int|
                0 <= q < partitions@.len() && 0 <= i < partitions@[q]@.len()
                    ==> #[trigger] partitions@[q]@[i] < h.cols,
            mmt_list_inv(l1_map@, n as nat, h.rows as nat),
            l1_map@.len() == s,
            weight == 0 ==> forall|q: int| 0 <= q < weights@.len() ==> weights@[q] == 0,
            weight == 0 ==> mmt_list_trivial(l1_map@),
        decreases l1 - s,
    {
        let entry = draw_combined_sample(&partitions, &weights, 0, p / 2, h);
        l1_map.push(entry);
        s = s + 1;
    }

    let mut l2_map: Vec<(Vec<u8>, Vec<usize>)> = Vec::new();
    let mut t: usize = 0;
    while t < l2
        invariant
            h.wf(),
            n == h.cols,
            p >= 2,
            partitions@.len() == p,
            weights@.len() == p,
            forall|q: int, i: int|
                0 <= q < partitions@.len() && 0 <= i < partitions@[q]@.len()
                    ==> #[trigger] partitions@[q]@[i] < h.cols,
            mmt_list_inv(l2_map@, n as nat, h.rows as nat),
            l2_map@.len() == t,
            weight == 0 ==> forall|q: int| 0 <= q < weights@.len() ==> weights@[q] == 0,
            weight == 0 ==> mmt_list_trivial(l2_map@),
        decreases l2 - t,
    {
        let entry = draw_combined_sample(&partitions, &weights, p / 2, p, h);
        l2_map.push(entry);
        t = t + 1;
    }

    let mut li: usize = 0;
    while li < l1_map.len()
        invariant
            h.wf(),
            n == h.cols,
            syndrome@.len() == h.rows,
            mmt_list_inv(l1_map@, n as nat, h.rows as nat),
            mmt_list_inv(l2_map@, n as nat, h.rows as nat),
            weight == 0 && l1 >= 1 && l2 >= 1 ==> l1_map@.len() >= 1 && l2_map@.len() >= 1
                && mmt_list_trivial(l1_map@) && mmt_list_trivial(l2_map@),
            0 <= li <= l1_map@.len(),
            li >= 1 ==> !(weight == 0 && l1 >= 1 && l2 >= 1 && crate::bits::all_zero(
                syndrome@,
            )),
        decreases l1_map@.len() - li,
    {
        let target_s2 = crate::bits::apply_errors(syndrome, &l1_map[li].0);
        match find_entry(&l2_map, &target_s2) {
            Some(ri) => {
                let subset1 = copy_positions(&l1_map[li].1);
                let subset2 = copy_positions(&l2_map[ri].1);
                let combined = crate::bits::concat_positions(&subset1, &subset2);
                proof {
                    assert forall|i: int| 0 <= i < combined@.len() implies combined@[i] < n by {
                        if i < subset1@.len() {
                            assert(combined@[i] == subset1@[i]);
                        } else {
                            assert(combined@[i] == subset2@[i - subset1@.len()]);
                        }
                    }
                    if weight == 0 && l1 >= 1 && l2 >= 1 {
                        assert(combined@.len() == 0);
                    }
                }
                let error = indicator_vector(n, &combined);
                let actual_weight = crate::bits::calculate_weight(&error);
                if actual_weight == weight {
                    let check_syndrome = calculate_syndrome(&error, h);
                    if crate::bits::bytes_eq(&check_syndrome, syndrome) {
                        proof {
                            if weight == 0 && l1 >= 1 && l2 >= 1 {
                                assert(subset1@.len() == 0 && subset2@.len() == 0);
                                assert(combined@.len() == 0);
                                assert(error@ =~= crate::bits::zero_bits(n as nat));
                            }
                        }
                        return Some(error);
                    }
                    proof {
                        if weight == 0 && l1 >= 1 && l2 >= 1 && crate::bits::all_zero(
                            syndrome@,
                        ) {
                            assert(subset1@.len() == 0 && subset2@.len() == 0);
                            assert(combined@.len() == 0);
                            assert(error@ =~= crate::bits::zero_bits(n as nat));
                            crate::matrix::lemma_syndrome_of_zero(h.mat(), error@);
                            assert(check_syndrome@ =~= syndrome@);
                            assert(false);
                        }
                    }
                } else {
                    proof {
                        if weight == 0 && l1 >= 1 && l2 >= 1 && crate::bits::all_zero(
                            syndrome@,
                        ) {
                            assert(subset1@.len() == 0 && subset2@.len() == 0);
                            assert(combined@.len() == 0);
                            assert(error@ =~= crate::bits::zero_bits(n as nat));
                            crate::bits::lemma_all_zero_weight(error@);
                            assert(false);
                        }
                    }
                }
            },
            None => {
                proof {
                    if weight == 0 && l1 >= 1 && l2 >= 1 && crate::bits::all_zero(syndrome@) {
                        assert(crate::bits::all_zero(l2_map@[0].0@));
                        assert(crate::bits::all_zero(l1_map@[li as int].0@));
                        crate::bits::lemma_xor_u8_basics(0u8, 0u8);
                        assert(l2_map@[0].0@ =~= target_s2@);
                        assert(false);
                    }
                }
            },
        }
        li = li + 1;
    }
    proof {
        if weight == 0 && l1 >= 1 && l2 >= 1 && crate::bits::all_zero(syndrome@) {
            assert(l1_map@.len() >= 1);
        }
    }
    None
}

} // verus!
