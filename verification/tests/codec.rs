use eds::bits::{bit_mask, byte_count, get_bit, test_bit};
use eds::codec::{
    check_bits, check_cell, check_matrix, count_ones, dense_to_sparse, feature_ids, is_present,
    pack_keys, sorted_keys, sparse_to_dense, triplets_to_sparse,
};
use eds::csv::{dense_to_eds_sparse, eds_sparse_to_dense, read_flag};
use eds::error::FormatError;
use eds::utils::triplets_to_eds;
use std::collections::HashMap;

fn bits(values: &[f32]) -> Vec<u32> {
    values.iter().map(|v| v.to_bits()).collect()
}

fn floats(values: &[u32]) -> Vec<f32> {
    values.iter().map(|v| f32::from_bits(*v)).collect()
}

#[test]
fn test_read_flag() {
    assert_eq!(
        read_flag(128),
        vec![true, false, false, false, false, false, false, false]
    );
}

#[test]
fn read_flag_lists_the_most_significant_bit_first() {
    assert_eq!(
        read_flag(0x21),
        vec![false, false, true, false, false, false, false, true]
    );
    assert_eq!(read_flag(0), vec![false; 8]);
    assert_eq!(read_flag(255), vec![true; 8]);
}

#[test]
fn bit_mask_counts_from_the_top() {
    assert_eq!(bit_mask(0), 128);
    assert_eq!(bit_mask(2), 32);
    assert_eq!(bit_mask(7), 1);
    assert!(test_bit(0x21, 2));
    assert!(test_bit(0x21, 7));
    assert!(!test_bit(0x21, 0));
}

#[test]
fn byte_count_rounds_up() {
    assert_eq!(byte_count(0), 0);
    assert_eq!(byte_count(1), 1);
    assert_eq!(byte_count(8), 1);
    assert_eq!(byte_count(9), 2);
    assert_eq!(byte_count(16), 2);
    assert_eq!(byte_count(usize::MAX), usize::MAX / 8 + 1);
}

#[test]
fn get_bit_is_false_beyond_the_vector() {
    let bv = vec![0x80u8, 0x01];
    assert!(get_bit(&bv, 0));
    assert!(!get_bit(&bv, 1));
    assert!(get_bit(&bv, 15));
    assert!(!get_bit(&bv, 16));
    assert!(!get_bit(&bv, usize::MAX));
}

#[test]
fn dense_row_of_eight_features() {
    let row = bits(&[0.0, 0.0, 3.5, 0.0, 0.0, 0.0, 0.0, 7.0]);
    let (bit_vec, values) = dense_to_sparse(&row);
    assert_eq!(bit_vec, vec![0b00100001u8]);
    assert_eq!(bit_vec, vec![0x21u8]);
    assert_eq!(floats(&values), vec![3.5, 7.0]);
}

#[test]
fn dense_to_sparse_keeps_what_is_above_zero_only() {
    let row = bits(&[
        -1.0,
        0.0,
        -0.0,
        f32::NAN,
        f32::MIN_POSITIVE,
        f32::INFINITY,
        f32::NEG_INFINITY,
        1e-45,
        2.0,
    ]);
    let (bit_vec, values) = dense_to_sparse(&row);
    assert_eq!(bit_vec, vec![0b00001101u8, 0b10000000]);
    assert_eq!(
        values,
        vec![
            f32::MIN_POSITIVE.to_bits(),
            f32::INFINITY.to_bits(),
            1e-45f32.to_bits(),
            2.0f32.to_bits()
        ]
    );
}

#[test]
fn is_present_agrees_with_the_comparison_of_numbers() {
    let samples: [f32; 12] = [
        0.0,
        -0.0,
        1.0,
        -1.0,
        f32::NAN,
        -f32::NAN,
        f32::INFINITY,
        f32::NEG_INFINITY,
        f32::MAX,
        f32::MIN,
        f32::MIN_POSITIVE,
        1e-45,
    ];
    for v in samples.iter() {
        assert_eq!(is_present(v.to_bits()), *v > 0.0);
    }
    assert!(!is_present(0x7F80_0001));
    assert!(is_present(0x7F80_0000));
    assert!(is_present(1));
    assert!(!is_present(0));
    assert!(!is_present(0x8000_0001));
}

#[test]
fn dense_row_comes_back_from_its_sparse_form() {
    let row = bits(&[0.0, 1.5, 0.0, 0.0, 2.5, 0.0, 0.0, 0.0, 0.0, 9.0, 0.25]);
    let (bit_vec, values) = dense_to_sparse(&row);
    assert_eq!(count_ones(&bit_vec), values.len());
    assert_eq!(sparse_to_dense(&bit_vec, &values, row.len()), Ok(row));
}

#[test]
fn empty_row_has_an_empty_sparse_form() {
    let (bit_vec, values) = dense_to_sparse(&Vec::new());
    assert_eq!(bit_vec, Vec::<u8>::new());
    assert_eq!(values, Vec::<u32>::new());
    assert_eq!(sparse_to_dense(&bit_vec, &values, 0), Ok(Vec::new()));
}

#[test]
fn sparse_to_dense_puts_zero_where_no_bit_is_set() {
    let values = bits(&[2.0, 4.0, 8.0]);
    let dense = sparse_to_dense(&vec![0b01000001u8, 0b00100000], &values, 12).unwrap();
    assert_eq!(
        floats(&dense),
        vec![0.0, 2.0, 0.0, 0.0, 0.0, 0.0, 0.0, 4.0, 0.0, 0.0, 8.0, 0.0]
    );
}

#[test]
fn sparse_to_dense_wants_as_many_values_as_bits() {
    assert_eq!(
        sparse_to_dense(&vec![0xC0u8], &bits(&[1.0]), 8),
        Err(FormatError::ValueCount { expected: 2, found: 1 })
    );
    assert_eq!(
        sparse_to_dense(&vec![0x00u8], &bits(&[1.0]), 8),
        Err(FormatError::ValueCount { expected: 0, found: 1 })
    );
}

#[test]
fn sparse_to_dense_wants_the_right_number_of_bytes() {
    assert_eq!(
        sparse_to_dense(&vec![0x80u8], &bits(&[1.0]), 9),
        Err(FormatError::RowLength { expected: 2, found: 1 })
    );
    assert_eq!(
        sparse_to_dense(&vec![0x80u8, 0], &bits(&[1.0]), 8),
        Err(FormatError::RowLength { expected: 1, found: 2 })
    );
}

#[test]
fn sparse_to_dense_turns_down_a_bit_beyond_the_features() {
    assert_eq!(
        sparse_to_dense(&vec![0b00010100u8], &bits(&[1.0, 2.0]), 3),
        Err(FormatError::FeatureRange { feature: 3, limit: 3 })
    );
    assert_eq!(
        sparse_to_dense(&vec![0b00000001u8], &bits(&[1.0]), 7),
        Err(FormatError::FeatureRange { feature: 7, limit: 7 })
    );
}

#[test]
fn faults_come_in_a_fixed_order() {
    // wrong length, a stray bit and a wrong count at once: the length is named
    assert_eq!(
        check_cell(&vec![0xFFu8, 0xFF], 0, 3),
        Err(FormatError::RowLength { expected: 1, found: 2 })
    );
    // a stray bit and a wrong count: the stray bit is named
    assert_eq!(
        check_cell(&vec![0xFFu8], 0, 3),
        Err(FormatError::FeatureRange { feature: 3, limit: 3 })
    );
    assert_eq!(check_cell(&vec![0xE0u8], 3, 3), Ok(()));
}

#[test]
fn check_bits_counts_the_marked_features() {
    assert_eq!(check_bits(&vec![0xF0u8, 0x80], 9), Ok(5));
    assert_eq!(check_bits(&Vec::new(), 0), Ok(0));
    assert_eq!(
        check_bits(&vec![0xF0u8, 0x40], 9),
        Err(FormatError::FeatureRange { feature: 9, limit: 9 })
    );
}

#[test]
fn count_and_list_of_marked_features() {
    let bv = vec![0x21u8, 0x00, 0x81];
    assert_eq!(count_ones(&bv), 4);
    assert_eq!(feature_ids(&bv), vec![2, 7, 16, 23]);
    assert_eq!(feature_ids(&Vec::new()), Vec::<usize>::new());
}

#[test]
fn check_matrix_names_the_first_fault() {
    let bit_vecs = vec![vec![0x80u8], vec![0xC0u8]];
    let values = vec![bits(&[2.0]), bits(&[1.0, 3.0])];
    assert_eq!(check_matrix(&bit_vecs, &values, 2, 8), Ok(()));
    assert_eq!(
        check_matrix(&bit_vecs, &values, 3, 8),
        Err(FormatError::CellCount { expected: 3, found: 2 })
    );
    assert_eq!(
        check_matrix(&bit_vecs, &vec![bits(&[2.0])], 2, 8),
        Err(FormatError::CellCount { expected: 2, found: 1 })
    );
    assert_eq!(
        check_matrix(&bit_vecs, &vec![bits(&[2.0, 1.0]), bits(&[1.0])], 2, 8),
        Err(FormatError::ValueCount { expected: 1, found: 2 })
    );
    assert_eq!(
        check_matrix(&bit_vecs, &values, 2, 1),
        Err(FormatError::FeatureRange { feature: 1, limit: 1 })
    );
}

#[test]
fn two_cells_densified() {
    let bit_vecs = vec![vec![0x80u8], vec![0xC0u8]];
    let values = vec![bits(&[2.0]), bits(&[1.0, 3.0])];
    let dense = eds_sparse_to_dense(2, 8, bit_vecs, values).unwrap();
    let first = floats(&dense[0]);
    let second = floats(&dense[1]);
    assert_eq!(first, vec![2.0, 0.0, 0.0, 0.0, 0.0, 0.0, 0.0, 0.0]);
    assert_eq!(second, vec![1.0, 3.0, 0.0, 0.0, 0.0, 0.0, 0.0, 0.0]);
    let mut distance = 0.0f32;
    for g in 0..8 {
        distance += (first[g] - second[g]).abs();
    }
    assert_eq!(distance, 4.0);
}

#[test]
fn densify_names_the_fault() {
    assert_eq!(
        eds_sparse_to_dense(1, 8, vec![vec![0x80u8]], vec![bits(&[])]),
        Err(FormatError::ValueCount { expected: 1, found: 0 })
    );
    assert_eq!(
        eds_sparse_to_dense(2, 8, vec![vec![0x80u8]], vec![bits(&[1.0])]),
        Err(FormatError::CellCount { expected: 2, found: 1 })
    );
}

#[test]
fn dense_matrix_to_sparse_and_back() {
    let matrix = vec![
        bits(&[0.0, 0.0, 3.5, 0.0, 0.0, 0.0, 0.0, 7.0]),
        bits(&[0.0; 8]),
        bits(&[1.0; 8]),
    ];
    let (bit_vecs, values) = dense_to_eds_sparse(matrix.clone(), 1).unwrap();
    assert_eq!(bit_vecs, vec![vec![0x21u8], vec![0x00], vec![0xFF]]);
    assert_eq!(values[0], bits(&[3.5, 7.0]));
    assert_eq!(values[1], bits(&[]));
    assert_eq!(values[2], bits(&[1.0; 8]));
    for (bit_vec, vals) in bit_vecs.iter().zip(values.iter()) {
        assert_eq!(count_ones(bit_vec), vals.len());
    }
    assert_eq!(eds_sparse_to_dense(3, 8, bit_vecs, values), Ok(matrix));
}

#[test]
fn dense_matrix_wants_rows_that_take_the_bytes_given() {
    assert_eq!(
        dense_to_eds_sparse(vec![bits(&[0.0; 8]), bits(&[0.0; 9])], 1),
        Err(FormatError::RowLength { expected: 1, found: 2 })
    );
    assert_eq!(
        dense_to_eds_sparse(vec![bits(&[0.0; 8])], 2),
        Err(FormatError::RowLength { expected: 2, found: 1 })
    );
    assert_eq!(
        dense_to_eds_sparse(vec![bits(&[])], 1),
        Err(FormatError::RowLength { expected: 1, found: 0 })
    );
    assert_eq!(
        dense_to_eds_sparse(vec![bits(&[0.0; 8])], usize::MAX),
        Err(FormatError::RowLength { expected: usize::MAX, found: 1 })
    );
    assert_eq!(dense_to_eds_sparse(Vec::new(), 5), Ok((Vec::new(), Vec::new())));
    assert_eq!(
        dense_to_eds_sparse(vec![bits(&[]), bits(&[])], 0),
        Ok((vec![Vec::new(), Vec::new()], vec![Vec::new(), Vec::new()]))
    );
}

#[test]
fn dense_matrix_of_three_features_takes_one_byte() {
    assert_eq!(
        dense_to_eds_sparse(vec![bits(&[0.0, 1.5, 0.0])], 1),
        Ok((vec![vec![0x40u8]], vec![bits(&[1.5])]))
    );
    assert_eq!(
        dense_to_eds_sparse(vec![bits(&[0.0; 7]), bits(&[1.0; 7])], 1),
        Ok((vec![vec![0x00u8], vec![0xFEu8]], vec![bits(&[]), bits(&[1.0; 7])]))
    );
}

#[test]
fn dense_matrix_keeps_what_is_above_zero_only_for_any_number_of_features() {
    let matrix = vec![
        bits(&[-1.0, 0.0, 2.0, -0.0, f32::NAN, 4.0, 0.0, 0.0, 8.0, -3.0, 16.0]),
        bits(&[0.0; 11]),
    ];
    let (bit_vecs, values) = dense_to_eds_sparse(matrix, 2).unwrap();
    assert_eq!(bit_vecs, vec![vec![0b00100100u8, 0b10100000], vec![0u8, 0]]);
    assert_eq!(values, vec![bits(&[2.0, 4.0, 8.0, 16.0]), bits(&[])]);
    for (bit_vec, vals) in bit_vecs.iter().zip(values.iter()) {
        assert_eq!(count_ones(bit_vec), vals.len());
        assert_eq!(check_cell(bit_vec, vals.len(), 11), Ok(()));
    }
}

#[test]
fn dense_matrix_comes_back_for_any_number_of_features() {
    for g in 0..20usize {
        let matrix: Vec<Vec<u32>> = (0..3)
            .map(|c| {
                (0..g)
                    .map(|j| if (j + c) % 3 == 0 { (j as f32 + 0.5).to_bits() } else { 0 })
                    .collect()
            })
            .collect();
        let (bit_vecs, values) = dense_to_eds_sparse(matrix.clone(), byte_count(g)).unwrap();
        assert_eq!(check_matrix(&bit_vecs, &values, 3, g), Ok(()));
        assert_eq!(eds_sparse_to_dense(3, g, bit_vecs, values), Ok(matrix));
    }
}

#[test]
fn sparse_matrix_comes_back_for_any_number_of_features() {
    let bit_vecs = vec![vec![0b10100000u8, 0b01000000], vec![0u8, 0], vec![0xFFu8, 0xC0]];
    let values = vec![
        bits(&[2.0, 0.5, 7.0]),
        bits(&[]),
        bits(&[1.0, 2.0, 3.0, 4.0, 5.0, 6.0, 7.0, 8.0, 9.0, 10.0]),
    ];
    let dense = eds_sparse_to_dense(3, 10, bit_vecs.clone(), values.clone()).unwrap();
    assert!(dense.iter().all(|row| row.len() == 10));
    assert_eq!(dense_to_eds_sparse(dense, 2), Ok((bit_vecs, values)));
}

#[test]
fn mapping_to_sparse_sorts_the_features() {
    let mut mapping: HashMap<u32, u32> = HashMap::new();
    for key in (0..50u32).rev() {
        mapping.insert(key * 3, 1000 + key);
    }
    let keys = sorted_keys(&mapping);
    assert_eq!(keys, (0..50u32).map(|k| k * 3).collect::<Vec<u32>>());
    let (bit_vec, values) = triplets_to_sparse(&mapping, 150).unwrap();
    assert_eq!(values, (0..50u32).map(|k| 1000 + k).collect::<Vec<u32>>());
    assert_eq!(bit_vec.len(), 19);
    assert_eq!(
        feature_ids(&bit_vec),
        (0..50usize).map(|k| k * 3).collect::<Vec<usize>>()
    );
    assert_eq!(count_ones(&bit_vec), values.len());
}

#[test]
fn mapping_to_sparse_does_not_mind_the_order_of_insertion() {
    let pairs: Vec<(u32, u32)> = vec![(9, 90), (0, 1), (17, 170), (8, 80), (3, 30)];
    let mut forward: HashMap<u32, u32> = HashMap::new();
    for (k, v) in pairs.iter() {
        forward.insert(*k, *v);
    }
    let mut backward: HashMap<u32, u32> = HashMap::new();
    for (k, v) in pairs.iter().rev() {
        backward.insert(*k, *v);
    }
    let a = triplets_to_sparse(&forward, 18).unwrap();
    let b = triplets_to_sparse(&backward, 18).unwrap();
    assert_eq!(a, b);
    assert_eq!(a.0, vec![0b10010000u8, 0b11000000, 0b01000000]);
    assert_eq!(a.1, vec![1, 30, 80, 90, 170]);
}

#[test]
fn mapping_to_sparse_keeps_values_that_are_not_above_zero() {
    let mut mapping: HashMap<u32, u32> = HashMap::new();
    mapping.insert(1, 0.0f32.to_bits());
    mapping.insert(0, (-2.0f32).to_bits());
    let (bit_vec, values) = triplets_to_sparse(&mapping, 2).unwrap();
    assert_eq!(bit_vec, vec![0xC0u8]);
    assert_eq!(floats(&values), vec![-2.0, 0.0]);
}

#[test]
fn mapping_to_sparse_names_the_least_feature_out_of_range() {
    let mut mapping: HashMap<u32, u32> = HashMap::new();
    mapping.insert(40, 1);
    mapping.insert(2, 1);
    mapping.insert(12, 1);
    mapping.insert(8, 1);
    assert_eq!(
        triplets_to_sparse(&mapping, 8),
        Err(FormatError::FeatureRange { feature: 8, limit: 8 })
    );
    assert_eq!(
        triplets_to_sparse(&mapping, 0),
        Err(FormatError::FeatureRange { feature: 2, limit: 0 })
    );
}

#[test]
fn empty_mapping_has_no_bit_set() {
    let mapping: HashMap<u32, u32> = HashMap::new();
    assert_eq!(triplets_to_sparse(&mapping, 9), Ok((vec![0u8, 0], Vec::new())));
    assert_eq!(triplets_to_sparse(&mapping, 0), Ok((Vec::new(), Vec::new())));
}

#[test]
fn pack_keys_fills_bytes_in_one_pass() {
    assert_eq!(pack_keys(&vec![0, 7, 8, 31], 32), vec![0x81u8, 0x80, 0x00, 0x01]);
    assert_eq!(pack_keys(&vec![30], 31), vec![0u8, 0, 0, 0x02]);
    assert_eq!(pack_keys(&Vec::new(), 3), vec![0u8]);
}

#[test]
fn mappings_of_a_matrix_are_appended() {
    let mut first: HashMap<u32, u32> = HashMap::new();
    first.insert(0, 5.0f32.to_bits());
    let second: HashMap<u32, u32> = HashMap::new();
    let mut expr = vec![bits(&[1.0])];
    let mut bit_vecs = vec![vec![0x40u8]];
    assert_eq!(triplets_to_eds(&vec![first, second], &mut expr, &mut bit_vecs, 1), Ok(()));
    assert_eq!(bit_vecs, vec![vec![0x40u8], vec![0b10000000u8], vec![0u8]]);
    assert_eq!(expr, vec![bits(&[1.0]), bits(&[5.0]), bits(&[])]);
}

#[test]
fn mappings_of_a_matrix_leave_nothing_behind_on_a_fault() {
    let mut first: HashMap<u32, u32> = HashMap::new();
    first.insert(0, 1);
    let mut second: HashMap<u32, u32> = HashMap::new();
    second.insert(5, 1);
    let mut expr: Vec<Vec<u32>> = Vec::new();
    let mut bit_vecs: Vec<Vec<u8>> = Vec::new();
    assert_eq!(
        triplets_to_eds(&vec![first, second], &mut expr, &mut bit_vecs, 4),
        Err(FormatError::FeatureRange { feature: 5, limit: 4 })
    );
    assert!(expr.is_empty());
    assert!(bit_vecs.is_empty());
}
