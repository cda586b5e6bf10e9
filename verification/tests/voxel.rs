use sss::voxel::{column_area_moment, voxel_column_counts, voxel_columns};

#[test]
fn columns_are_sorted_distinct_rows() {
    let voxels = vec![(0u32, 5u32), (2, 1), (0, 3), (0, 5), (2, 1), (2, 0)];
    let cols = voxel_columns(&voxels);
    assert_eq!(cols, vec![vec![3, 5], vec![], vec![0, 1]]);
}

#[test]
fn columns_of_no_voxels_is_one_empty_column() {
    let voxels: Vec<(u32, u32)> = Vec::new();
    assert_eq!(voxel_columns(&voxels), vec![Vec::<u32>::new()]);
}

#[test]
fn counts_cover_every_column() {
    let voxels = vec![(0u32, 5u32), (2, 1), (0, 3), (0, 5), (2, 1), (2, 0)];
    assert_eq!(voxel_column_counts(&voxels), vec![2, 0, 2]);
}

#[test]
fn counts_of_single_column_and_of_no_voxels() {
    let voxels = vec![(0u32, 1u32), (0, 2), (0, 1)];
    assert_eq!(voxel_column_counts(&voxels), vec![2]);
    let none: Vec<(u32, u32)> = Vec::new();
    assert!(voxel_column_counts(&none).is_empty());
}

#[test]
fn counts_match_column_lengths() {
    let voxels: Vec<(u32, u32)> = (0..200u32).map(|i| (i % 13, i % 7)).collect();
    let cols = voxel_columns(&voxels);
    let counts = voxel_column_counts(&voxels);
    assert_eq!(counts.len(), cols.len());
    for (x, c) in counts.iter().enumerate() {
        assert_eq!(*c, cols[x].len());
    }
}

#[test]
fn area_and_moment() {
    let counts = vec![2usize, 0, 4, 1];
    assert_eq!(column_area_moment(&counts), (7, 0 * 2 + 1 * 0 + 2 * 4 + 3 * 1));
    assert_eq!(column_area_moment(&Vec::new()), (0, 0));
}
