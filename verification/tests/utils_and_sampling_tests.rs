use pqcat::bits::calculate_weight;
use pqcat::matrix::BinaryMatrix;
use pqcat::sampling::{
    generate_random_error_vector, generate_subsets, random_below, random_permutation,
    sample_indices, shuffle_indices,
};
use pqcat::utils::{column_match, compute_h_tilde, extract_q_i, generate_random_syndrome,
    support_subset};

fn matrix_from(rows: usize, cols: usize, entries: &[&[u8]]) -> BinaryMatrix {
    let mut h = BinaryMatrix::zeros(rows, cols);
    for (i, row) in entries.iter().enumerate() {
        for (j, &bit) in row.iter().enumerate() {
            h.set(i, j, bit);
        }
    }
    h
}

#[test]
fn generate_subsets_enumerates_all_combinations() {
    let indices: Vec<usize> = vec![10, 20, 30, 40];
    let subsets = generate_subsets(&indices, 2);
    assert_eq!(subsets.len(), 6);
    assert_eq!(subsets[0], vec![10, 20]);
    assert_eq!(subsets[5], vec![30, 40]);
    for s in &subsets {
        assert_eq!(s.len(), 2);
        for x in s {
            assert!(indices.contains(x));
        }
    }
}

#[test]
fn generate_subsets_edge_sizes() {
    let indices: Vec<usize> = vec![1, 2, 3];
    let empty_size = generate_subsets(&indices, 0);
    assert_eq!(empty_size.len(), 1);
    assert!(empty_size[0].is_empty());
    let too_big = generate_subsets(&indices, 4);
    assert!(too_big.is_empty());
}

#[test]
fn shuffle_keeps_the_same_elements() {
    let mut v: Vec<usize> = (0..20).collect();
    shuffle_indices(&mut v);
    assert_eq!(v.len(), 20);
    let mut sorted = v.clone();
    sorted.sort();
    assert_eq!(sorted, (0..20).collect::<Vec<usize>>());
}

#[test]
fn random_permutation_covers_the_range() {
    let v = random_permutation(10);
    let mut sorted = v.clone();
    sorted.sort();
    assert_eq!(sorted, (0..10).collect::<Vec<usize>>());
}

#[test]
fn sample_indices_draws_distinct_members() {
    let v: Vec<usize> = (100..110).collect();
    let s = sample_indices(&v, 4);
    assert_eq!(s.len(), 4);
    for x in &s {
        assert!(v.contains(x));
    }
    for i in 0..s.len() {
        for j in (i + 1)..s.len() {
            assert!(s[i] != s[j]);
        }
    }
    let all = sample_indices(&v, 50);
    assert_eq!(all.len(), 10);
}

#[test]
fn random_below_respects_the_bound() {
    for _ in 0..50 {
        assert!(random_below(7) < 7);
    }
    assert_eq!(random_below(1), 0);
}

#[test]
fn random_error_vector_has_requested_weight() {
    for w in 0..6 {
        let e = generate_random_error_vector(12, w);
        assert_eq!(e.len(), 12);
        assert_eq!(calculate_weight(&e), w);
    }
}

#[test]
fn random_syndrome_has_row_count_length() {
    let h = matrix_from(3, 6, &[
        &[1, 0, 1, 1, 0, 0],
        &[0, 1, 1, 0, 1, 0],
        &[1, 1, 0, 0, 0, 1],
    ]);
    let s = generate_random_syndrome(&h, 2);
    assert_eq!(s.len(), 3);
}

#[test]
fn h_tilde_keeps_every_pth_column() {
    let h = matrix_from(2, 6, &[&[1, 0, 1, 0, 1, 0], &[0, 1, 0, 1, 0, 1]]);
    let ht = compute_h_tilde(&h, 2);
    assert_eq!((ht.rows, ht.cols), (2, 3));
    for j in 0..3 {
        assert_eq!(ht.get(0, j), 1);
        assert_eq!(ht.get(1, j), 0);
    }
}

#[test]
fn support_subset_lists_nonzero_columns() {
    let q = matrix_from(2, 4, &[&[0, 1, 0, 0], &[0, 0, 0, 1]]);
    assert_eq!(support_subset(&q), vec![1, 3]);
}

#[test]
fn extract_q_i_copies_selected_columns() {
    let h = matrix_from(2, 4, &[&[1, 0, 1, 0], &[0, 1, 1, 0]]);
    let picks: Vec<usize> = vec![0, 2];
    let q = extract_q_i(&h, &picks);
    assert_eq!((q.rows, q.cols), (2, 2));
    assert_eq!(q.get(0, 0), 1);
    assert_eq!(q.get(1, 0), 0);
    assert_eq!(q.get(0, 1), 1);
    assert_eq!(q.get(1, 1), 1);
}

#[test]
fn column_match_finds_weight_matching_sums() {
    // Columns: c0 = (1,0), c1 = (0,1), c2 = (1,1).
    let ht = matrix_from(2, 3, &[&[1, 0, 1], &[0, 1, 1]]);
    // Pairs whose XOR has weight 1: {c0, c2} -> (0,1) and {c1, c2} -> (1,0).
    let solutions = column_match(&ht, 1, 1, 1);
    assert_eq!(solutions.len(), 2);
    assert!(solutions.contains(&vec![0, 2]));
    assert!(solutions.contains(&vec![1, 2]));
}
