use sudoku_solver::{RegionSum, SudokuGrid, VariantContradiction};

fn set(grid: &mut SudokuGrid, r: usize, c: usize, v: u8) {
    let _ = grid.set_cell(r, c, v);
}

#[test]
fn region_sum_test_get_possibilities_basic() {
    let mut grid = SudokuGrid::empty();
    // Pre-fill known cells
    set(&mut grid, 1, 0, 2);
    set(&mut grid, 2, 0, 3);
    let region_sum = RegionSum::new(vec![(1, 0), (2, 0), (0, 3), (1, 3)]);
    let result = region_sum.get_possibilities(&grid);
    assert!(result.is_ok());
    let result = result.unwrap();
    assert_eq!(result.count_entries(), 4);
    assert_eq!(result.get_list(1, 0), Some(vec![2]));
    assert_eq!(result.get_list(2, 0), Some(vec![3]));
    assert_eq!(result.get_list(0, 3).unwrap(), vec![1, 2, 3, 4]);
    assert_eq!(result.get_list(1, 3).unwrap(), vec![1, 2, 3, 4]);
}

#[test]
fn region_sum_test_get_possibilities_highly_constrained() {
    let mut grid = SudokuGrid::empty();
    // Pre-fill one cell in each region
    set(&mut grid, 1, 0, 1);
    set(&mut grid, 0, 3, 9);
    let rs = RegionSum::new(vec![(1, 0), (2, 0), (0, 3), (1, 3)]);
    let result = rs.get_possibilities(&grid);
    assert!(result.is_ok());
    let result = result.unwrap();
    assert_eq!(result.count_entries(), 4);
    assert_eq!(result.get_list(1, 0), Some(vec![1]));
    assert_eq!(result.get_list(2, 0).unwrap(), vec![9]);
    assert_eq!(result.get_list(1, 3).unwrap(), vec![1]);
}

#[test]
fn test_get_possibilities_not_fully_known() {
    let mut grid = SudokuGrid::empty();
    set(&mut grid, 1, 0, 4);
    set(&mut grid, 0, 3, 5);
    let rs = RegionSum::new(vec![(1, 0), (2, 0), (0, 3), (1, 3)]);
    let result = rs.get_possibilities(&grid);
    assert!(result.is_ok());
    let result = result.unwrap();
    assert_eq!(result.count_entries(), 4);
    assert_eq!(result.get_list(1, 0), Some(vec![4]));
    assert_eq!(result.get_list(0, 3), Some(vec![5]));
    assert_eq!(result.get_list(2, 0).unwrap(), vec![2, 3, 4, 5, 6, 7, 8, 9]);
    assert_eq!(result.get_list(1, 3).unwrap(), vec![1, 2, 3, 4, 5, 6, 7, 8]);
}

#[test]
fn test_get_possibilities_fully_known() {
    let mut grid = SudokuGrid::empty();
    set(&mut grid, 1, 0, 2);
    set(&mut grid, 2, 0, 5);
    set(&mut grid, 0, 3, 4);
    set(&mut grid, 1, 3, 3);
    let rs = RegionSum::new(vec![(1, 0), (2, 0), (0, 3), (1, 3)]);
    let result = rs.get_possibilities(&grid);
    assert!(result.is_ok());
    let result = result.unwrap();
    assert_eq!(result.count_entries(), 4);
    assert_eq!(result.get_list(1, 0), Some(vec![2]));
    assert_eq!(result.get_list(2, 0), Some(vec![5]));
    assert_eq!(result.get_list(0, 3), Some(vec![4]));
    assert_eq!(result.get_list(1, 3), Some(vec![3]));
}

#[test]
fn test_get_possibilities_inconsistent_sum() {
    let mut grid = SudokuGrid::empty();
    set(&mut grid, 1, 0, 1); // Box 1 - partial sum is only 1 so far
    set(&mut grid, 0, 3, 9);
    set(&mut grid, 1, 3, 8); // Box 2 partial sum = 17
    let rs = RegionSum::new(vec![(1, 0), (2, 0), (0, 3), (1, 3)]);
    let result = rs.get_possibilities(&grid);
    assert!(result.is_err());
    assert!(matches!(
        result,
        Err(VariantContradiction::NoPossibilities { cell: (2, 0), .. })
    ));
}

#[test]
fn test_get_possibilities_partial_and_known_boxes() {
    let mut grid = SudokuGrid::empty();
    set(&mut grid, 1, 0, 3);
    set(&mut grid, 2, 0, 4); // sum = 7 (known box)
    set(&mut grid, 0, 3, 0);
    set(&mut grid, 1, 3, 0); // sum = ?? (unknowns)
    let rs = RegionSum::new(vec![(1, 0), (2, 0), (0, 3), (1, 3)]);
    let result = rs.get_possibilities(&grid);
    assert!(result.is_ok());
    let result = result.unwrap();
    assert_eq!(result.count_entries(), 4);
    assert_eq!(result.get_list(1, 0), Some(vec![3]));
    assert_eq!(result.get_list(2, 0), Some(vec![4]));
    assert_eq!(result.get_list(0, 3).unwrap(), vec![1, 2, 3, 4, 5, 6]);
    assert_eq!(result.get_list(1, 3).unwrap(), vec![1, 2, 3, 4, 5, 6]);
}

#[test]
fn test_get_possibilities_single_cell_region() {
    let grid = SudokuGrid::empty();
    let rs = RegionSum::new(vec![(0, 0)]);
    let result = rs.get_possibilities(&grid);
    assert!(result.is_ok());
    let result = result.unwrap();
    assert_eq!(result.count_entries(), 1);
    assert_eq!(result.get_list(0, 0).unwrap(), vec![1, 2, 3, 4, 5, 6, 7, 8, 9]);
}

#[test]
fn test_get_possibilities_cell_not_on_line() {
    let mut grid = SudokuGrid::empty();
    set(&mut grid, 1, 0, 3);
    let rs = RegionSum::new(vec![(0, 0), (0, 1)]);
    let result = rs.get_possibilities(&grid);
    assert!(result.is_ok());
    let result = result.unwrap();
    assert_eq!(result.count_entries(), 2);
    let expected = vec![1, 2, 3, 4, 5, 6, 7, 8, 9];
    assert_eq!(result.get_list(0, 0), Some(expected.clone()));
    assert_eq!(result.get_list(0, 1), Some(expected));
}

#[test]
fn test_validate_correct_solution() {
    let mut grid = SudokuGrid::empty();
    let line = vec![(0, 0), (0, 1), (0, 3), (0, 4), (0, 6), (0, 7)];
    let region_sum = RegionSum::new(line);
    // Fill all segments to sum to 10
    set(&mut grid, 0, 0, 4);
    set(&mut grid, 0, 1, 6);
    set(&mut grid, 0, 3, 1);
    set(&mut grid, 0, 4, 9);
    set(&mut grid, 0, 6, 2);
    set(&mut grid, 0, 7, 8);
    assert!(region_sum.validate_solution(&grid));
}

#[test]
fn test_validate_incorrect_solution() {
    let mut grid = SudokuGrid::empty();
    let line = vec![(0, 0), (0, 1), (0, 3), (0, 4), (0, 6), (0, 7)];
    let region_sum = RegionSum::new(line);
    set(&mut grid, 0, 0, 3); // This one is wrong!
    set(&mut grid, 0, 1, 6);
    set(&mut grid, 0, 3, 1);
    set(&mut grid, 0, 4, 9);
    set(&mut grid, 0, 6, 2);
    set(&mut grid, 0, 7, 8);
    assert!(!region_sum.validate_solution(&grid));
}

#[test]
fn test_validate_solution_with_zeros() {
    let mut grid = SudokuGrid::empty();
    let line = vec![(0, 0), (0, 1), (0, 3), (0, 4), (0, 6), (0, 7)];
    let region_sum = RegionSum::new(line);
    set(&mut grid, 0, 0, 4);
    set(&mut grid, 0, 1, 6);
    set(&mut grid, 0, 3, 1);
    set(&mut grid, 0, 4, 9);
    set(&mut grid, 0, 6, 2);
    assert!(!region_sum.validate_solution(&grid));
}

#[test]
fn test_is_valid_with_partial_data() {
    let mut grid = SudokuGrid::empty();
    let line = vec![(0, 0), (0, 1), (0, 3), (0, 4), (0, 6), (0, 7)];
    let region_sum = RegionSum::new(line);
    // Box 0 partial
    set(&mut grid, 0, 0, 2);
    // Other boxes empty
    // Now simulate placing 3 at (0, 1)
    let is_valid = region_sum.is_valid(&grid, 0, 1, 3);
    assert!(is_valid);
}

#[test]
fn test_is_valid_exceeds_known_sum() {
    let mut grid = SudokuGrid::empty();
    let line = vec![(0, 0), (0, 1), (0, 3), (0, 4), (0, 6), (0, 7)];
    let region_sum = RegionSum::new(line);
    // Fill one segment (Box 1)
    set(&mut grid, 0, 3, 4);
    set(&mut grid, 0, 4, 6);
    // Now partially fill Box 0
    set(&mut grid, 0, 0, 8);
    // Now try placing values in box 0 that would exceed this
    let is_valid = region_sum.is_valid(&grid, 0, 1, 3);
    assert!(!is_valid);
}

#[test]
fn test_is_valid_exceeds_known_sum_incomplete_line() {
    let mut grid = SudokuGrid::empty();
    let line = vec![(0, 0), (0, 1), (0, 3), (0, 4), (0, 6), (0, 7)];
    let region_sum = RegionSum::new(line);
    // Fill one segment (Box 0) to 7
    set(&mut grid, 0, 0, 6);
    set(&mut grid, 0, 1, 1);
    // Try setting a cell in box 1 to 8
    let is_valid = region_sum.is_valid(&grid, 0, 3, 8);
    assert!(!is_valid);
    // Check that setting a cell in box 1 to 5 passes
    let is_valid = region_sum.is_valid(&grid, 0, 3, 5);
    assert!(is_valid);
}

#[test]
fn test_is_valid_cell_not_in_line() {
    let grid = SudokuGrid::empty();
    let region_sum = RegionSum::new(vec![(0, 0), (0, 1)]); // Only those two
    let is_valid = region_sum.is_valid(&grid, 4, 4, 9); // not part of any segment
    assert!(is_valid);
}

#[test]
fn test_valid_value_within_overlapping_ranges() {
    let mut grid = SudokuGrid::empty();
    let region = RegionSum::new(vec![(0, 0), (0, 1), (0, 2), (0, 3)]);
    // 3 cell region with values 4 + 2 = 6, so range between 7 and 15
    set(&mut grid, 0, 0, 4);
    set(&mut grid, 0, 1, 2);
    // Try filling 1-cell region with a 7 - should pass
    let is_valid = region.is_valid(&grid, 0, 3, 7);
    assert!(is_valid)
}

#[test]
fn test_reject_value_exceeding_range_overlap() {
    let mut grid = SudokuGrid::empty();
    let region = RegionSum::new(vec![(0, 0), (0, 1), (0, 3), (0, 4), (0, 5)]);
    // Fill box 0 (2-cell region) with 1, _
    // Fill box 1 (3-cell region) with 6, _, _
    set(&mut grid, 0, 0, 1);
    set(&mut grid, 0, 3, 6);
    // Check that trying to add a 5 to box 1 will fail
    let is_valid = region.is_valid(&grid, 0, 4, 5);
    assert!(!is_valid);
}

#[test]
fn test_reject_value_too_small() {
    let mut grid = SudokuGrid::empty();
    let region = RegionSum::new(vec![(0, 0), (0, 1), (0, 3), (0, 4)]);
    // Box 1 segment is already filled: 6 + 7 = 13
    set(&mut grid, 0, 3, 6);
    set(&mut grid, 0, 4, 7);
    // Box 0, try placing a 1, making the max sum (1+9=10) too low
    assert!(!region.is_valid(&grid, 0, 0, 1));
}

#[test]
fn test_conflicting_ranges_due_to_value() {
    let mut grid = SudokuGrid::empty();
    let region = RegionSum::new(vec![(0, 0), (0, 1), (0, 3), (0, 4)]);
    // Fill Box 1: 3 + 4 = 7
    set(&mut grid, 0, 3, 3);
    set(&mut grid, 0, 4, 4);
    // Now in Box 0, placing 9 in (0,0) next to the 9 in (0,1) makes sum 18
    set(&mut grid, 0, 1, 9);
    let is_valid = region.is_valid(&grid, 0, 0, 9);
    assert!(!is_valid); // Segment sum = 18, no overlap with 7
}

#[test]
fn test_one_cell_segment_limits_possible_sums() {
    let mut grid = SudokuGrid::empty();
    let region = RegionSum::new(vec![(0, 0), (0, 3), (0, 4), (0, 5)]);
    // Place 6 in the 1-cell segment
    set(&mut grid, 0, 0, 6);
    // Now try placing a value in box 1 that cannot lead to sum 6
    set(&mut grid, 0, 4, 1);
    let is_valid = region.is_valid(&grid, 0, 3, 9);
    assert!(!is_valid); // Segment too long to match 6
}

#[test]
fn test_different_length_segments_with_valid_overlap() {
    let mut grid = SudokuGrid::empty();
    let region = RegionSum::new(vec![(0, 0), (0, 3), (0, 4), (0, 6), (0, 7), (0, 8)]);
    // Fill the 2-cell segment with 4+5=9
    set(&mut grid, 0, 3, 4);
    set(&mut grid, 0, 4, 5);
    // Try placing 9 in the 1-cell segment
    let is_valid = region.is_valid(&grid, 0, 0, 9);
    assert!(is_valid); // All segments can plausibly hit 9
}
