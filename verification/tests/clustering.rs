use msm_precompute::{
    all_precomputation, precompute_with_cluster_method, AllPrecomputeResult, PrecomputeError,
    RowResult,
};

fn cluster(chunks: &[usize], row_idx: usize, num_rows: usize) -> RowResult {
    match precompute_with_cluster_method(chunks, row_idx, num_rows) {
        Ok(row) => row,
        Err(e) => panic!("clustering failed: {:?}", e),
    }
}

fn assemble(chunks: &[usize], num_rows: usize) -> AllPrecomputeResult {
    match all_precomputation(chunks, num_rows) {
        Ok(all) => all,
        Err(e) => panic!("assembling failed: {:?}", e),
    }
}

fn cluster_error(chunks: &[usize], row_idx: usize, num_rows: usize) -> PrecomputeError {
    match precompute_with_cluster_method(chunks, row_idx, num_rows) {
        Ok(_) => panic!("clustering succeeded"),
        Err(e) => e,
    }
}

fn assemble_error(chunks: &[usize], num_rows: usize) -> PrecomputeError {
    match all_precomputation(chunks, num_rows) {
        Ok(_) => panic!("assembling succeeded"),
        Err(e) => e,
    }
}

/// A matrix of `num_rows * num_cols` chunks below `modulus`, none of its
/// rows empty.
fn sample_matrix(num_rows: usize, num_cols: usize, modulus: usize, seed: u64) -> Vec<usize> {
    let mut state = seed;
    let mut chunks = Vec::new();
    for _ in 0..num_rows {
        for col in 0..num_cols {
            state = state.wrapping_mul(6364136223846793005).wrapping_add(1442695040888963407);
            let chunk = ((state >> 33) as usize) % modulus;
            chunks.push(if col == 0 && chunk == 0 { 1 } else { chunk });
        }
    }
    chunks
}

#[test]
fn worked_example_is_assembled() {
    let all = assemble(&[4, 4, 4, 3, 3, 3, 3, 0], 2);
    assert_eq!(all.all_new_point_indices, vec![0, 1, 2, 3, 4, 5, 6]);
    assert_eq!(all.all_cluster_start_indices, vec![0, 4]);
    assert_eq!(all.all_cluster_end_indices, vec![3, 7]);
    assert_eq!(all.all_single_point_indices, vec![3]);
    assert_eq!(all.all_single_scalar_chunks, vec![3]);
    assert_eq!(all.row_ptr, vec![0, 2, 3]);
}

#[test]
fn worked_example_rows_are_clustered() {
    let chunks = [4, 4, 4, 3, 3, 3, 3, 0];
    let first = cluster(&chunks, 0, 2);
    assert_eq!(first.new_point_indices, vec![0, 1, 2, 3]);
    assert_eq!(first.cluster_start_indices, vec![0]);
    assert_eq!(first.cluster_end_indices, vec![3]);
    assert_eq!(first.singles_start, Some(3));
    assert_eq!(first.num_non_zero, 2);

    let second = cluster(&chunks, 1, 2);
    assert_eq!(second.new_point_indices, vec![4, 5, 6]);
    assert_eq!(second.cluster_start_indices, vec![0]);
    assert_eq!(second.cluster_end_indices, vec![3]);
    assert_eq!(second.singles_start, None);
    assert_eq!(second.num_non_zero, 1);
}

#[test]
fn groups_come_in_ascending_chunk_order_before_singletons() {
    let row = cluster(&[5, 2, 5, 2, 7, 1, 0, 9], 0, 1);
    assert_eq!(row.new_point_indices, vec![1, 3, 0, 2, 5, 4, 7]);
    assert_eq!(row.cluster_start_indices, vec![0, 2]);
    assert_eq!(row.cluster_end_indices, vec![2, 4]);
    assert_eq!(row.singles_start, Some(4));
    assert_eq!(row.num_non_zero, 5);
}

#[test]
fn group_members_keep_column_order() {
    let row = cluster(&[9, 9, 0, 9, 9], 0, 1);
    assert_eq!(row.new_point_indices, vec![0, 1, 3, 4]);
    assert_eq!(row.cluster_start_indices, vec![0]);
    assert_eq!(row.cluster_end_indices, vec![4]);
    assert_eq!(row.singles_start, None);
    assert_eq!(row.num_non_zero, 1);
}

#[test]
fn row_of_singletons_has_no_group() {
    let row = cluster(&[3, 1, 2], 0, 1);
    assert_eq!(row.new_point_indices, vec![1, 2, 0]);
    assert_eq!(row.cluster_start_indices, Vec::<usize>::new());
    assert_eq!(row.cluster_end_indices, Vec::<usize>::new());
    assert_eq!(row.singles_start, Some(0));
    assert_eq!(row.num_non_zero, 3);
}

#[test]
fn largest_chunk_value_is_clustered() {
    let row = cluster(&[usize::MAX, 1, usize::MAX, 1, usize::MAX - 1], 0, 1);
    assert_eq!(row.new_point_indices, vec![1, 3, 0, 2, 4]);
    assert_eq!(row.cluster_start_indices, vec![0, 2]);
    assert_eq!(row.cluster_end_indices, vec![2, 4]);
    assert_eq!(row.singles_start, Some(4));
    assert_eq!(row.num_non_zero, 3);
}

#[test]
fn later_row_lists_flat_indices() {
    let chunks = [1, 1, 1, 0, 6, 8, 6, 8, 2, 0, 0, 2];
    let row = cluster(&chunks, 1, 3);
    assert_eq!(row.new_point_indices, vec![4, 6, 5, 7]);
    assert_eq!(row.cluster_start_indices, vec![0, 2]);
    assert_eq!(row.cluster_end_indices, vec![2, 4]);
    assert_eq!(row.singles_start, None);
    assert_eq!(row.num_non_zero, 2);
}

#[test]
fn boundaries_are_offset_by_earlier_rows() {
    let all = assemble(&[1, 1, 1, 0, 6, 8, 6, 8, 2, 5, 0, 2], 3);
    assert_eq!(all.all_new_point_indices, vec![0, 1, 2, 4, 6, 5, 7, 8, 11, 9]);
    assert_eq!(all.all_cluster_start_indices, vec![0, 3, 5, 7]);
    assert_eq!(all.all_cluster_end_indices, vec![3, 5, 7, 9]);
    assert_eq!(all.all_single_point_indices, vec![9]);
    assert_eq!(all.all_single_scalar_chunks, vec![5]);
    assert_eq!(all.row_ptr, vec![0, 1, 3, 5]);
}

#[test]
fn singletons_of_all_rows_are_collected() {
    let all = assemble(&[7, 3, 9, 2, 2, 4], 2);
    assert_eq!(all.all_new_point_indices, vec![1, 0, 2, 3, 4, 5]);
    assert_eq!(all.all_cluster_start_indices, vec![3]);
    assert_eq!(all.all_cluster_end_indices, vec![5]);
    assert_eq!(all.all_single_point_indices, vec![1, 0, 2, 5]);
    assert_eq!(all.all_single_scalar_chunks, vec![3, 7, 9, 4]);
    assert_eq!(all.row_ptr, vec![0, 3, 5]);
}

#[test]
fn zero_rows_is_an_invalid_shape() {
    assert_eq!(assemble_error(&[1, 2, 3], 0), PrecomputeError::InvalidShape);
    assert_eq!(assemble_error(&[], 0), PrecomputeError::InvalidShape);
}

#[test]
fn uneven_rows_are_an_invalid_shape() {
    assert_eq!(assemble_error(&[4, 4, 4, 3, 3, 3, 3, 0], 3), PrecomputeError::InvalidShape);
    assert_eq!(cluster_error(&[4, 4, 4, 3, 3, 3, 3, 0], 0, 3), PrecomputeError::InvalidShape);
    assert_eq!(cluster_error(&[4, 4, 4, 3, 3, 3, 3, 0], 2, 5), PrecomputeError::InvalidShape);
}

#[test]
fn row_without_nonzero_chunk_is_rejected() {
    assert_eq!(assemble_error(&[1, 1, 0, 0], 2), PrecomputeError::EmptyRow);
    assert_eq!(assemble_error(&[0, 0, 5, 5], 2), PrecomputeError::EmptyRow);
    assert_eq!(cluster_error(&[1, 1, 0, 0], 1, 2), PrecomputeError::EmptyRow);
    assert_eq!(cluster(&[1, 1, 0, 0], 0, 2).new_point_indices, vec![0, 1]);
}

#[test]
fn matrix_without_columns_has_empty_rows() {
    assert_eq!(assemble_error(&[], 1), PrecomputeError::EmptyRow);
    assert_eq!(assemble_error(&[], 4), PrecomputeError::EmptyRow);
    assert_eq!(cluster_error(&[], 0, 1), PrecomputeError::EmptyRow);
}

#[test]
fn invalid_shape_is_reported_before_empty_row() {
    assert_eq!(assemble_error(&[0, 0, 0, 0, 0], 2), PrecomputeError::InvalidShape);
}

#[test]
fn every_nonzero_chunk_of_a_row_is_listed_once() {
    let (num_rows, num_cols) = (5, 40);
    let chunks = sample_matrix(num_rows, num_cols, 9, 11);
    for row_idx in 0..num_rows {
        let row = cluster(&chunks, row_idx, num_rows);
        let in_row = &chunks[row_idx * num_cols..(row_idx + 1) * num_cols];
        let nonzero = in_row.iter().filter(|chunk| **chunk != 0).count();
        assert_eq!(row.new_point_indices.len(), nonzero);
        let mut listed = row.new_point_indices.clone();
        listed.sort();
        listed.dedup();
        assert_eq!(listed.len(), nonzero);
        for point in &row.new_point_indices {
            assert!(row_idx * num_cols <= *point && *point < (row_idx + 1) * num_cols);
            assert_ne!(chunks[*point], 0);
        }
    }
}

#[test]
fn group_boundaries_tile_the_groups() {
    let (num_rows, num_cols) = (6, 30);
    let chunks = sample_matrix(num_rows, num_cols, 12, 5);
    for row_idx in 0..num_rows {
        let row = cluster(&chunks, row_idx, num_rows);
        let starts = &row.cluster_start_indices;
        let ends = &row.cluster_end_indices;
        assert_eq!(starts.len(), ends.len());
        let mut covered = 0;
        let mut expected_start = 0;
        for k in 0..starts.len() {
            assert_eq!(starts[k], expected_start);
            assert!(starts[k] + 2 <= ends[k]);
            covered += ends[k] - starts[k];
            expected_start = ends[k];
        }
        let singles = row.num_non_zero - starts.len();
        assert_eq!(covered + singles, row.new_point_indices.len());
        match row.singles_start {
            Some(start) => {
                assert_eq!(start, covered);
                assert!(singles > 0);
            },
            None => assert_eq!(singles, 0),
        }
    }
}

#[test]
fn row_ptr_counts_distinct_chunks() {
    let (num_rows, num_cols) = (7, 25);
    let chunks = sample_matrix(num_rows, num_cols, 10, 3);
    let all = assemble(&chunks, num_rows);
    assert_eq!(all.row_ptr.len(), num_rows + 1);
    assert_eq!(all.row_ptr[0], 0);
    let mut total = 0;
    for row_idx in 0..num_rows {
        let mut distinct: Vec<usize> = chunks[row_idx * num_cols..(row_idx + 1) * num_cols]
            .iter()
            .filter(|chunk| **chunk != 0)
            .map(|chunk| *chunk)
            .collect();
        distinct.sort();
        distinct.dedup();
        assert!(all.row_ptr[row_idx] <= all.row_ptr[row_idx + 1]);
        assert_eq!(all.row_ptr[row_idx + 1] - all.row_ptr[row_idx], distinct.len());
        assert_eq!(cluster(&chunks, row_idx, num_rows).num_non_zero, distinct.len());
        total += distinct.len();
    }
    assert_eq!(all.row_ptr[num_rows], total);
}

#[test]
fn global_boundaries_enclose_points_of_one_chunk() {
    let (num_rows, num_cols) = (4, 50);
    let chunks = sample_matrix(num_rows, num_cols, 7, 23);
    let all = assemble(&chunks, num_rows);
    assert_eq!(all.all_cluster_start_indices.len(), all.all_cluster_end_indices.len());
    for k in 0..all.all_cluster_start_indices.len() {
        let start = all.all_cluster_start_indices[k];
        let end = all.all_cluster_end_indices[k];
        assert!(start < end && end <= all.all_new_point_indices.len());
        let chunk = chunks[all.all_new_point_indices[start]];
        for point in &all.all_new_point_indices[start..end] {
            assert_eq!(chunks[*point], chunk);
        }
    }
    for k in 0..all.all_single_point_indices.len() {
        assert_eq!(all.all_single_scalar_chunks[k], chunks[all.all_single_point_indices[k]]);
    }
}

#[test]
fn assembling_concatenates_the_rows() {
    let (num_rows, num_cols) = (5, 16);
    let chunks = sample_matrix(num_rows, num_cols, 6, 99);
    let all = assemble(&chunks, num_rows);
    let mut points = Vec::new();
    let mut starts = Vec::new();
    let mut ends = Vec::new();
    for row_idx in 0..num_rows {
        let row = cluster(&chunks, row_idx, num_rows);
        let offset = points.len();
        starts.extend(row.cluster_start_indices.iter().map(|start| start + offset));
        ends.extend(row.cluster_end_indices.iter().map(|end| end + offset));
        points.extend(row.new_point_indices);
    }
    assert_eq!(all.all_new_point_indices, points);
    assert_eq!(all.all_cluster_start_indices, starts);
    assert_eq!(all.all_cluster_end_indices, ends);
}

#[test]
fn assembling_twice_gives_the_same_arrays() {
    let chunks = sample_matrix(8, 20, 11, 42);
    let first = assemble(&chunks, 8);
    let second = assemble(&chunks, 8);
    assert_eq!(first.all_new_point_indices, second.all_new_point_indices);
    assert_eq!(first.all_cluster_start_indices, second.all_cluster_start_indices);
    assert_eq!(first.all_cluster_end_indices, second.all_cluster_end_indices);
    assert_eq!(first.all_single_point_indices, second.all_single_point_indices);
    assert_eq!(first.all_single_scalar_chunks, second.all_single_scalar_chunks);
    assert_eq!(first.row_ptr, second.row_ptr);
    assert_eq!(assemble_error(&chunks, 7), assemble_error(&chunks, 7));
}
