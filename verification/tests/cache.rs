use lsi_search::persist::{
    check_index_dimensions, check_layout, check_svd_dimensions, chunk_ranges, combined,
    coordinates_fit, expected_cells, repair, restore_dense, warning_of, PersistenceError, Repair,
    CHUNK_CELLS,
};

#[test]
fn cells_are_rows_times_columns() {
    assert_eq!(expected_cells(3, 4), Ok(12));
    assert_eq!(expected_cells(0, 7), Ok(0));
    assert_eq!(expected_cells(usize::MAX, 1), Ok(usize::MAX));
    assert_eq!(expected_cells(usize::MAX, 2), Err(PersistenceError::CorruptHeader));
    assert_eq!(expected_cells(1 << 40, 1 << 40), Err(PersistenceError::CorruptHeader));
}

#[test]
fn short_blocks_are_padded_with_zeros() {
    let mut data = vec![1.5, 2.5];
    assert_eq!(repair(&mut data, 5, 0.0), Repair::Padded { missing: 3 });
    assert_eq!(data, vec![1.5, 2.5, 0.0, 0.0, 0.0]);
}

#[test]
fn long_blocks_are_truncated() {
    let mut data = vec![1.0, 2.0, 3.0, 4.0];
    assert_eq!(repair(&mut data, 3, 0.0), Repair::Truncated { excess: 1 });
    assert_eq!(data, vec![1.0, 2.0, 3.0]);
    assert_eq!(repair(&mut data, 0, 0.0), Repair::Truncated { excess: 3 });
    assert!(data.is_empty());
}

#[test]
fn blocks_of_the_right_size_stay() {
    let mut data = vec![1.0, 2.0, 3.0];
    assert_eq!(repair(&mut data, 3, 0.0), Repair::Intact);
    assert_eq!(data, vec![1.0, 2.0, 3.0]);
    let mut none: Vec<f64> = Vec::new();
    assert_eq!(repair(&mut none, 0, 0.0), Repair::Intact);
}

#[test]
fn dense_blocks_are_restored_to_their_dimensions() {
    let (block, done) = restore_dense(2, 2, Some(vec![1.0, 2.0, 3.0]), 0.0).unwrap();
    assert_eq!((block.nrows, block.ncols), (2, 2));
    assert_eq!(block.data, vec![1.0, 2.0, 3.0, 0.0]);
    assert_eq!(done, Repair::Padded { missing: 1 });
    let (block, done) = restore_dense(2, 2, Some(vec![1.0, 2.0, 3.0, 4.0]), 0.0).unwrap();
    assert_eq!(block.data, vec![1.0, 2.0, 3.0, 4.0]);
    assert_eq!(done, Repair::Intact);
    let (block, done) = restore_dense(1, 2, Some(vec![1.0, 2.0, 3.0]), 0.0).unwrap();
    assert_eq!(block.data, vec![1.0, 2.0]);
    assert_eq!(done, Repair::Truncated { excess: 1 });
}

#[test]
fn unreadable_cells_become_zeros() {
    let (block, done) = restore_dense::<f64>(2, 3, None, 0.0).unwrap();
    assert_eq!(block.data, vec![0.0; 6]);
    assert_eq!(done, Repair::Padded { missing: 6 });
}

#[test]
fn impossible_dimensions_are_a_corrupt_header() {
    let r = restore_dense(usize::MAX, 3, Some(vec![1.0]), 0.0);
    assert_eq!(r.err(), Some(PersistenceError::CorruptHeader));
}

#[test]
fn chunks_cover_the_block() {
    assert_eq!(chunk_ranges(0), vec![]);
    assert_eq!(chunk_ranges(1), vec![(0, 1)]);
    assert_eq!(chunk_ranges(CHUNK_CELLS), vec![(0, CHUNK_CELLS)]);
    assert_eq!(chunk_ranges(CHUNK_CELLS + 1), vec![(0, CHUNK_CELLS), (CHUNK_CELLS, CHUNK_CELLS + 1)]);
    assert_eq!(
        chunk_ranges(2_500_000),
        vec![(0, 1_000_000), (1_000_000, 2_000_000), (2_000_000, 2_500_000)]
    );
}

#[test]
fn chunks_written_and_read_back_give_the_block() {
    let data: Vec<u64> = (0..2_300_007u64).collect();
    let mut back: Vec<u64> = Vec::new();
    for (start, end) in chunk_ranges(data.len()) {
        back.extend_from_slice(&data[start..end]);
    }
    assert_eq!(back, data);
    assert_eq!(repair(&mut back, data.len(), 0), Repair::Intact);
}

#[test]
fn sound_layouts_pass() {
    assert_eq!(check_layout(2, 3, &vec![0, 2, 3], &vec![0, 2, 1], 3), Ok(()));
    assert_eq!(check_layout(0, 0, &vec![0], &vec![], 0), Ok(()));
    assert_eq!(check_layout(3, 2, &vec![0, 0, 0, 0], &vec![], 0), Ok(()));
    assert_eq!(check_layout(1, 4, &vec![0, 4], &vec![0, 1, 2, 3], 4), Ok(()));
}

#[test]
fn unsound_layouts_are_corrupt() {
    let corrupt = Err(PersistenceError::CorruptHeader);
    assert_eq!(check_layout(2, 3, &vec![0, 2], &vec![0, 2], 2), corrupt);
    assert_eq!(check_layout(2, 3, &vec![], &vec![], 0), corrupt);
    assert_eq!(check_layout(2, 3, &vec![1, 2, 3], &vec![0, 2, 1], 3), corrupt);
    assert_eq!(check_layout(2, 3, &vec![0, 2, 4], &vec![0, 2, 1], 3), corrupt);
    assert_eq!(check_layout(2, 3, &vec![0, 2, 3], &vec![0, 2, 1], 4), corrupt);
    assert_eq!(check_layout(2, 3, &vec![0, 3, 2], &vec![0, 1], 2), corrupt);
    assert_eq!(check_layout(2, 3, &vec![0, 2, 3], &vec![0, 3, 1], 3), corrupt);
    assert_eq!(check_layout(2, 3, &vec![0, 2, 3], &vec![2, 0, 1], 3), corrupt);
    assert_eq!(check_layout(2, 3, &vec![0, 2, 3], &vec![1, 1, 1], 3), corrupt);
}

#[test]
fn repairs_are_reported_as_size_mismatches() {
    assert_eq!(warning_of(Repair::Intact), None);
    assert_eq!(warning_of(Repair::Padded { missing: 2 }), Some(PersistenceError::SizeMismatch));
    assert_eq!(warning_of(Repair::Truncated { excess: 1 }), Some(PersistenceError::SizeMismatch));
    let mut data = vec![1.0];
    assert_eq!(warning_of(repair(&mut data, 2, 0.0)), Some(PersistenceError::SizeMismatch));
    assert_eq!(warning_of(repair(&mut data, 2, 0.0)), None);
}

#[test]
fn repairs_of_several_blocks_are_combined() {
    let padded = Repair::Padded { missing: 2 };
    let cut = Repair::Truncated { excess: 1 };
    assert_eq!(combined(Repair::Intact, Repair::Intact), Repair::Intact);
    assert_eq!(combined(Repair::Intact, padded), padded);
    assert_eq!(combined(padded, Repair::Intact), padded);
    assert_eq!(combined(cut, padded), cut);
    assert_eq!(combined(padded, cut), padded);
}

#[test]
fn index_parts_must_fit_the_matrix() {
    let corrupt = Err(PersistenceError::CorruptHeader);
    assert_eq!(check_index_dimensions(3, 2, 3, 3, 3, 2), Ok(()));
    assert_eq!(check_index_dimensions(0, 0, 0, 0, 0, 0), Ok(()));
    assert_eq!(check_index_dimensions(3, 2, 2, 3, 3, 2), corrupt);
    assert_eq!(check_index_dimensions(3, 2, 3, 4, 3, 2), corrupt);
    assert_eq!(check_index_dimensions(3, 2, 3, 3, 2, 2), corrupt);
    assert_eq!(check_index_dimensions(3, 2, 3, 3, 3, 3), corrupt);
    assert_eq!(check_index_dimensions(2, 3, 3, 3, 3, 2), corrupt);
}

#[test]
fn decomposition_parts_must_fit_the_rank() {
    let corrupt = Err(PersistenceError::CorruptHeader);
    assert_eq!(check_svd_dimensions(2, 2, 2, 2), Ok(()));
    assert_eq!(check_svd_dimensions(0, 0, 0, 0), Ok(()));
    assert_eq!(check_svd_dimensions(2, 1, 2, 2), corrupt);
    assert_eq!(check_svd_dimensions(2, 2, 3, 2), corrupt);
    assert_eq!(check_svd_dimensions(2, 2, 2, 1), corrupt);
    assert!(coordinates_fit(2, 5, 2, 5));
    assert!(!coordinates_fit(3, 5, 2, 5));
    assert!(!coordinates_fit(2, 4, 2, 5));
}
