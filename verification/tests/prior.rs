use eds::error::FormatError;
use eds::prior::{nearest, neighbors, DistanceMatrix, K_NEAREST, Message, NUM_THREADS};

fn bits(values: &[f32]) -> Vec<u32> {
    values.iter().map(|v| v.to_bits()).collect()
}

#[test]
fn defaults_of_the_smoothing() {
    assert_eq!(K_NEAREST, 10);
    assert_eq!(NUM_THREADS, 20);
}

#[test]
fn nearest_cells_by_ascending_distance() {
    let dists = bits(&[4.0, 0.0, 2.5, 1.0, 8.0]);
    assert_eq!(nearest(&dists, 0), Vec::<usize>::new());
    assert_eq!(nearest(&dists, 1), vec![1]);
    assert_eq!(nearest(&dists, 3), vec![1, 3, 2]);
    assert_eq!(nearest(&dists, 5), vec![1, 3, 2, 0, 4]);
    assert_eq!(nearest(&dists, 9), vec![1, 3, 2, 0, 4]);
    assert_eq!(nearest(&Vec::new(), 3), Vec::<usize>::new());
}

#[test]
fn nearest_cells_at_one_distance_keep_their_order() {
    let dists = bits(&[1.0, 0.0, 1.0, 0.0, 1.0, 0.0]);
    assert_eq!(nearest(&dists, 6), vec![1, 3, 5, 0, 2, 4]);
    assert_eq!(nearest(&dists, 4), vec![1, 3, 5, 0]);
}

#[test]
fn nearest_cells_agree_with_a_stable_sort_of_the_numbers() {
    let numbers: Vec<f32> = vec![3.0, 0.5, 7.25, 0.5, 0.0, 1e30, f32::INFINITY, 3.0, 1e-40, 2.0];
    let mut order: Vec<usize> = (0..numbers.len()).collect();
    order.sort_by(|a, b| numbers[*a].partial_cmp(&numbers[*b]).unwrap());
    for m in 0..=numbers.len() {
        assert_eq!(nearest(&bits(&numbers), m), order[..m].to_vec());
    }
}

#[test]
fn what_is_no_number_comes_last() {
    let dists = bits(&[f32::NAN, 1.0, f32::INFINITY, 0.0]);
    assert_eq!(nearest(&dists, 4), vec![3, 1, 2, 0]);
}

#[test]
fn neighbors_leave_out_the_first_cell() {
    let dists = bits(&[4.0, 0.0, 2.5, 1.0, 8.0]);
    assert_eq!(neighbors(&dists, 2), vec![3, 2]);
    assert_eq!(neighbors(&dists, 4), vec![3, 2, 0, 4]);
    assert_eq!(neighbors(&dists, 0), Vec::<usize>::new());
}

#[test]
fn neighbors_are_fewer_where_cells_are_few() {
    assert_eq!(neighbors(&bits(&[22.0, 0.0]), K_NEAREST), vec![0]);
    assert_eq!(neighbors(&bits(&[0.0, 22.0]), K_NEAREST), vec![1]);
    assert_eq!(neighbors(&bits(&[0.0]), K_NEAREST), Vec::<usize>::new());
    assert_eq!(neighbors(&Vec::new(), K_NEAREST), Vec::<usize>::new());
    assert_eq!(neighbors(&bits(&[0.0, 1.0, 2.0]), usize::MAX), vec![1, 2]);
}

#[test]
fn one_cell_has_a_matrix_of_one_zero() {
    let mut matrix = DistanceMatrix::new(1);
    assert_eq!(
        matrix.absorb(Message::Distance { row: 0, column: 0, dist: 0.0f32.to_bits() }),
        Ok(())
    );
    assert_eq!(matrix.absorb(Message::RowDone), Ok(()));
    assert_eq!(matrix.finish(), Ok(vec![vec![0.0f32.to_bits()]]));
}

#[test]
fn distances_are_put_in_their_places() {
    let mut matrix = DistanceMatrix::new(2);
    assert_eq!(matrix.dists, vec![vec![0u32, 0], vec![0, 0]]);
    let four = 4.0f32.to_bits();
    assert_eq!(matrix.absorb(Message::Distance { row: 0, column: 1, dist: four }), Ok(()));
    assert_eq!(matrix.absorb(Message::RowDone), Ok(()));
    assert_eq!(matrix.absorb(Message::Distance { row: 1, column: 0, dist: four }), Ok(()));
    assert_eq!(matrix.absorb(Message::RowDone), Ok(()));
    assert_eq!(matrix.processed, 2);
    assert_eq!(matrix.finish(), Ok(vec![vec![0, four], vec![four, 0]]));
}

#[test]
fn a_matrix_with_rows_missing_is_not_handed_out() {
    let mut matrix = DistanceMatrix::new(2);
    assert_eq!(matrix.absorb(Message::RowDone), Ok(()));
    assert_eq!(
        matrix.finish(),
        Err(FormatError::CellCount { expected: 2, found: 1 })
    );
    assert_eq!(DistanceMatrix::new(0).finish(), Ok(Vec::new()));
}

#[test]
fn a_distance_between_cells_that_are_not_there_is_turned_down() {
    let mut matrix = DistanceMatrix::new(2);
    assert_eq!(
        matrix.absorb(Message::Distance { row: 2, column: 5, dist: 1 }),
        Err(FormatError::CellRange { cell: 2, limit: 2 })
    );
    assert_eq!(
        matrix.absorb(Message::Distance { row: 1, column: 5, dist: 1 }),
        Err(FormatError::CellRange { cell: 5, limit: 2 })
    );
    assert_eq!(matrix.dists, vec![vec![0u32, 0], vec![0, 0]]);
    assert_eq!(matrix.processed, 0);
}

#[test]
fn two_cells_smoothed_by_the_average_of_their_neighbors() {
    let dense = eds::csv::eds_sparse_to_dense(
        2,
        8,
        vec![vec![0], vec![128]],
        vec![vec![], vec![22.0f32.to_bits()]],
    )
    .unwrap();
    let matrix: Vec<Vec<f32>> = dense
        .iter()
        .map(|row| row.iter().map(|p| f32::from_bits(*p)).collect())
        .collect();
    let mut distances = DistanceMatrix::new(2);
    for i in 0..2 {
        for j in 0..2 {
            let dist: f32 = matrix[i]
                .iter()
                .zip(matrix[j].iter())
                .map(|(a, b)| (a - b).abs())
                .sum();
            distances
                .absorb(Message::Distance { row: i, column: j, dist: dist.to_bits() })
                .unwrap();
        }
        distances.absorb(Message::RowDone).unwrap();
    }
    let dists = distances.finish().unwrap();
    assert_eq!(dists[0][0], 0.0f32.to_bits());
    assert_eq!(dists[1][1], 0.0f32.to_bits());
    assert_eq!(dists[0][1], 22.0f32.to_bits());
    assert_eq!(dists[0][1], dists[1][0]);
    let mut priors: Vec<Vec<u32>> = Vec::new();
    for cell in 0..2 {
        let mut counts = matrix[cell].clone();
        for neighbor in neighbors(&dists[cell], K_NEAREST) {
            for g in 0..8 {
                counts[g] += matrix[neighbor][g];
            }
        }
        priors.push(counts.iter().map(|x| (x / K_NEAREST as f32).to_bits()).collect());
    }
    let (bit_vecs, alphas) = eds::csv::dense_to_eds_sparse(priors, 1).unwrap();
    assert_eq!(bit_vecs, vec![vec![128u8], vec![128]]);
    assert_eq!(
        alphas,
        vec![vec![2.2f32.to_bits()], vec![2.2f32.to_bits()]]
    );
}
