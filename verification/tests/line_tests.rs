use sudoku_solver::{Entropic, Renban, SudokuGrid, Thermometer};

fn set(grid: &mut SudokuGrid, r: usize, c: usize, v: u8) {
    let _ = grid.set_cell(r, c, v);
}

fn create_thermometer() -> Thermometer {
    Thermometer::new(vec![(0, 1), (0, 2), (0, 3), (0, 4)])
}

#[test]
fn test_basic_get_possibilities() {
    let mut grid = SudokuGrid::empty();
    let thermometer = create_thermometer();
    set(&mut grid, 0, 2, 5);
    let result = thermometer.get_possibilities(&grid);
    assert!(result.is_ok());
    let result = result.unwrap();
    assert_eq!(result.count_entries(), 4);
    assert_eq!(result.get_list(0, 1).unwrap(), vec![1, 2, 3, 4]);
    assert_eq!(result.get_list(0, 2).unwrap(), vec![5]);
    assert_eq!(result.get_list(0, 3).unwrap(), vec![6, 7, 8]);
    assert_eq!(result.get_list(0, 4).unwrap(), vec![7, 8, 9]);
}

#[test]
fn test_get_possiblilities_value_at_start() {
    let mut grid = SudokuGrid::empty();
    let thermometer = create_thermometer();
    set(&mut grid, 0, 1, 3); // Set first cell
    let result = thermometer.get_possibilities(&grid);
    assert!(result.is_ok());
    let result = result.unwrap();
    assert_eq!(result.count_entries(), 4);
    assert_eq!(result.get_list(0, 1).unwrap(), vec![3]);
    assert_eq!(result.get_list(0, 2).unwrap(), vec![4, 5, 6, 7]);
    assert_eq!(result.get_list(0, 3).unwrap(), vec![5, 6, 7, 8]);
    assert_eq!(result.get_list(0, 4).unwrap(), vec![6, 7, 8, 9]);
}

#[test]
fn test_get_possiblilities_value_at_end() {
    let mut grid = SudokuGrid::empty();
    let thermometer = create_thermometer();
    set(&mut grid, 0, 4, 6);
    let result = thermometer.get_possibilities(&grid);
    assert!(result.is_ok());
    let result = result.unwrap();
    assert_eq!(result.count_entries(), 4);
    assert_eq!(result.get_list(0, 1).unwrap(), vec![1, 2, 3]);
    assert_eq!(result.get_list(0, 2).unwrap(), vec![2, 3, 4]);
    assert_eq!(result.get_list(0, 3).unwrap(), vec![3, 4, 5]);
    assert_eq!(result.get_list(0, 4).unwrap(), vec![6]);
}

#[test]
fn test_get_possibilities_two_known() {
    let mut grid = SudokuGrid::empty();
    let thermometer = create_thermometer();
    set(&mut grid, 0, 1, 3);
    set(&mut grid, 0, 4, 7);
    let result = thermometer.get_possibilities(&grid);
    assert!(result.is_ok());
    let result = result.unwrap();
    assert_eq!(result.count_entries(), 4);
    assert_eq!(result.get_list(0, 1).unwrap(), vec![3]);
    assert_eq!(result.get_list(0, 2).unwrap(), vec![4, 5]);
    assert_eq!(result.get_list(0, 3).unwrap(), vec![5, 6]);
    assert_eq!(result.get_list(0, 4).unwrap(), vec![7]);
}

#[test]
fn test_get_possibilities_empty() {
    let grid = SudokuGrid::empty();
    let thermometer = create_thermometer();
    let result = thermometer.get_possibilities(&grid);
    assert!(result.is_ok());
    let result = result.unwrap();
    assert_eq!(result.count_entries(), 4);
    assert_eq!(result.get_list(0, 1).unwrap(), vec![1, 2, 3, 4, 5, 6]);
    assert_eq!(result.get_list(0, 2).unwrap(), vec![2, 3, 4, 5, 6, 7]);
    assert_eq!(result.get_list(0, 3).unwrap(), vec![3, 4, 5, 6, 7, 8]);
    assert_eq!(result.get_list(0, 4).unwrap(), vec![4, 5, 6, 7, 8, 9]);
}

#[test]
fn test_impossible_to_fill() {
    let mut grid = SudokuGrid::empty();
    let thermometer = create_thermometer();
    set(&mut grid, 0, 1, 7);
    let result = thermometer.get_possibilities(&grid);
    assert!(result.is_err());
}

#[test]
fn renban_test_get_possibilities_basic() {
    let renban = Renban::new(vec![(0, 0), (0, 1), (0, 2), (0, 3), (0, 4)]);
    let mut grid = SudokuGrid::empty();
    set(&mut grid, 0, 0, 3);
    let result = renban.get_possibilities(&grid).unwrap();
    let expected: Vec<u8> = vec![1, 2, 4, 5, 6, 7];
    for c in 1..5 {
        assert_eq!(result.get_list(0, c).unwrap(), expected);
    }
}

#[test]
fn test_get_possibilities_two_givens() {
    let renban = Renban::new(vec![(0, 0), (0, 1), (0, 2), (0, 3)]);
    let mut grid = SudokuGrid::empty();
    set(&mut grid, 0, 0, 5);
    set(&mut grid, 0, 3, 6);
    let result = renban.get_possibilities(&grid).unwrap();
    assert_eq!(result.get_list(0, 1).unwrap(), vec![3, 4, 7, 8]);
    assert_eq!(result.get_list(0, 2).unwrap(), vec![3, 4, 7, 8]);
}

#[test]
fn test_get_possibilities_fully_known_line() {
    let renban = Renban::new(vec![(0, 0), (0, 1), (0, 2)]);
    let mut grid = SudokuGrid::empty();
    set(&mut grid, 0, 0, 3);
    set(&mut grid, 0, 1, 2);
    set(&mut grid, 0, 2, 4);
    let result = renban.get_possibilities(&grid).unwrap();
    // A fully known line maps every cell to the singleton of its value.
    assert_eq!(result.get_list(0, 0).unwrap(), vec![3]);
    assert_eq!(result.get_list(0, 1).unwrap(), vec![2]);
    assert_eq!(result.get_list(0, 2).unwrap(), vec![4]);
}

#[test]
fn test_get_possibilities_impossible_range() {
    let renban = Renban::new(vec![(0, 0), (0, 1), (0, 2)]);
    let mut grid = SudokuGrid::empty();
    set(&mut grid, 0, 0, 1);
    set(&mut grid, 0, 1, 5);
    let result = renban.get_possibilities(&grid);
    assert!(result.is_err());
}

#[test]
fn test_get_possibilities_duplicates_on_line() {
    let renban = Renban::new(vec![(0, 0), (0, 1), (0, 2)]);
    let mut grid = SudokuGrid::empty();
    set(&mut grid, 0, 0, 5);
    set(&mut grid, 0, 1, 5);
    let result = renban.get_possibilities(&grid);
    assert!(result.is_err());
}

#[test]
fn test_get_possibilities_edge_of_range() {
    let renban = Renban::new(vec![(0, 0), (0, 1), (0, 2)]);
    let mut grid = SudokuGrid::empty();
    set(&mut grid, 0, 1, 9);
    let result = renban.get_possibilities(&grid).unwrap();
    assert_eq!(result.get_list(0, 0).unwrap(), vec![7, 8]);
    assert_eq!(result.get_list(0, 2).unwrap(), vec![7, 8]);
}

#[test]
fn renban_test_get_possibilities_highly_constrained() {
    let renban = Renban::new(vec![(0, 0), (0, 1), (0, 2)]);
    let mut grid = SudokuGrid::empty();
    set(&mut grid, 0, 0, 2);
    set(&mut grid, 0, 1, 4);
    let result = renban.get_possibilities(&grid).unwrap();
    assert_eq!(result.get_list(0, 2).unwrap(), vec![3]);
}

#[test]
fn renban_test_valid_solution() {
    let renban = Renban::new(vec![(0, 0), (0, 1), (0, 2)]);
    let mut grid = SudokuGrid::empty();
    set(&mut grid, 0, 0, 6);
    set(&mut grid, 0, 1, 4);
    set(&mut grid, 0, 2, 5);
    assert!(renban.validate_solution(&grid), "Should be a valid solution");
}

#[test]
fn test_solution_non_consecutive() {
    let renban = Renban::new(vec![(0, 0), (0, 1), (0, 2)]);
    let mut grid = SudokuGrid::empty();
    set(&mut grid, 0, 0, 6);
    set(&mut grid, 0, 1, 4);
    set(&mut grid, 0, 2, 7);
    assert!(!renban.validate_solution(&grid), "Should be invlid");
}

#[test]
fn test_solution_duplicate() {
    let renban = Renban::new(vec![(1, 0), (1, 1), (1, 2)]);
    let mut grid = SudokuGrid::empty();
    set(&mut grid, 1, 0, 2);
    set(&mut grid, 1, 1, 2);
    set(&mut grid, 1, 2, 3);
    assert!(!renban.validate_solution(&grid), "Should be invlid");
}

#[test]
fn renban_test_valid_proposal() {
    let renban = Renban::new(vec![(0, 0), (0, 1), (0, 2)]);
    let mut grid = SudokuGrid::empty();
    set(&mut grid, 0, 1, 4);
    set(&mut grid, 0, 2, 5);
    assert!(renban.is_valid(&grid, 0, 0, 6), "Should be valid proposal");
    assert!(renban.is_valid(&grid, 0, 0, 3), "Should be valid proposal");
}

#[test]
fn renban_test_invalid_proposal_duplicate() {
    let renban = Renban::new(vec![(0, 0), (0, 1), (0, 2)]);
    let mut grid = SudokuGrid::empty();
    set(&mut grid, 0, 1, 4);
    set(&mut grid, 0, 2, 5);
    assert!(!renban.is_valid(&grid, 0, 0, 4), "Would cause a duplicate");
}

#[test]
fn test_invalid_proposal_impossible_sequence() {
    let renban = Renban::new(vec![(0, 0), (0, 1), (0, 2)]);
    let mut grid = SudokuGrid::empty();
    set(&mut grid, 0, 1, 4);
    set(&mut grid, 0, 2, 5);
    assert!(!renban.is_valid(&grid, 0, 0, 7), "Valid sequence impossible");
    assert!(!renban.is_valid(&grid, 0, 0, 2), "Valid sequence impossible");
}

#[test]
fn renban_test_valid_proposal_incomplete() {
    let renban = Renban::new(vec![(0, 0), (0, 1), (0, 2), (0, 3)]);
    let mut grid = SudokuGrid::empty();
    set(&mut grid, 0, 1, 4);
    set(&mut grid, 0, 2, 5);
    assert!(renban.is_valid(&grid, 0, 0, 6), "Should be valid proposal");
    assert!(renban.is_valid(&grid, 0, 0, 3), "Should be valid proposal");
    assert!(renban.is_valid(&grid, 0, 3, 7), "Should be valid proposal");
    assert!(renban.is_valid(&grid, 0, 3, 2), "Should be valid proposal");
}

#[test]
fn renban_test_invalid_proposal_incomplete() {
    let renban = Renban::new(vec![(0, 0), (0, 1), (0, 2), (0, 3)]);
    let mut grid = SudokuGrid::empty();
    set(&mut grid, 0, 1, 4);
    set(&mut grid, 0, 2, 5);
    assert!(!renban.is_valid(&grid, 0, 0, 8), "Should be invalid proposal");
    assert!(!renban.is_valid(&grid, 0, 0, 1), "Should be invalid proposal");
    assert!(!renban.is_valid(&grid, 0, 3, 4), "Should be invalid proposal");
    assert!(!renban.is_valid(&grid, 0, 3, 5), "Should be invalid proposal");
}

#[test]
fn renban_test_single_cell_valid() {
    let renban = Renban::new(vec![(4, 4)]);
    let mut grid = SudokuGrid::empty();
    set(&mut grid, 4, 4, 7);
    assert!(renban.validate_solution(&grid));
}

#[test]
fn test_length_9_renban() {
    let renban = Renban::new(vec![
        (0, 0),
        (1, 1),
        (2, 2),
        (3, 3),
        (4, 4),
        (5, 5),
        (6, 6),
        (7, 7),
        (8, 8),
    ]);
    let mut grid = SudokuGrid::empty();
    set(&mut grid, 0, 0, 3);
    set(&mut grid, 1, 1, 4);
    set(&mut grid, 2, 2, 5);
    set(&mut grid, 3, 3, 6);
    set(&mut grid, 4, 4, 7);
    set(&mut grid, 5, 5, 8);
    set(&mut grid, 6, 6, 9);
    // Check that both 1 and 2 could be added to the renban
    assert!(renban.is_valid(&grid, 7, 7, 1));
    assert!(renban.is_valid(&grid, 7, 7, 2));
    // Check that 3 and 9 are invalid
    assert!(!renban.is_valid(&grid, 7, 7, 3));
    assert!(!renban.is_valid(&grid, 7, 7, 9));
    // Check that this is not a valid solution as there are empty cells
    assert!(!renban.validate_solution(&grid));
    // Set a value to 1, and check that the remaining cell can only be 2
    set(&mut grid, 8, 8, 1);
    assert!(renban.is_valid(&grid, 7, 7, 2));
    assert!(!renban.is_valid(&grid, 7, 7, 1));
    assert!(!renban.validate_solution(&grid));
    // Set the final cell and check that solution is valid
    set(&mut grid, 7, 7, 2);
    assert!(renban.validate_solution(&grid));
}

#[test]
fn test_proposal_underflow() {
    let renban = Renban::new(vec![
        (0, 0),
        (0, 1),
        (0, 2),
        (0, 3),
        (0, 4),
        (0, 5),
        (0, 6),
        (0, 7),
    ]);
    let mut grid = SudokuGrid::empty();
    set(&mut grid, 0, 1, 1);
    assert!(renban.is_valid(&grid, 0, 2, 2));
}

#[test]
fn test_solution_valid() {
    let entropic = Entropic::new(vec![(0, 0), (0, 1), (0, 2), (0, 3)]);
    let mut grid = SudokuGrid::empty();
    set(&mut grid, 0, 0, 1);
    set(&mut grid, 0, 1, 4);
    set(&mut grid, 0, 2, 7);
    set(&mut grid, 0, 3, 2);
    assert!(entropic.validate_solution(&grid), "Should be valid triplet");
}

#[test]
fn test_solution_incomplete() {
    let entropic = Entropic::new(vec![(0, 0), (0, 1), (0, 2), (0, 3)]);
    let mut grid = SudokuGrid::empty();
    set(&mut grid, 0, 0, 1);
    set(&mut grid, 0, 1, 4);
    set(&mut grid, 0, 2, 7);
    assert!(
        !entropic.validate_solution(&grid),
        "All values need to be filled - invalid"
    );
}

#[test]
fn test_solution_wrong_order() {
    let entropic = Entropic::new(vec![(0, 0), (0, 1), (0, 2), (0, 3)]);
    let mut grid = SudokuGrid::empty();
    set(&mut grid, 0, 0, 1);
    set(&mut grid, 0, 1, 4);
    set(&mut grid, 0, 2, 2);
    set(&mut grid, 0, 3, 7);
    assert!(
        !entropic.validate_solution(&grid),
        "Two Low values in triplet - invalid"
    );
}

#[test]
fn test_solution_valid_short() {
    let entropic = Entropic::new(vec![(0, 0), (0, 1)]);
    let mut grid = SudokuGrid::empty();
    set(&mut grid, 0, 0, 1);
    set(&mut grid, 0, 1, 2);
    assert!(
        entropic.validate_solution(&grid),
        "Lines shorter than 3 cells should always pass"
    );
}

#[test]
fn test_solution_all_same_entropy() {
    let entropic = Entropic::new(vec![(1, 0), (1, 1), (1, 2)]);
    let mut grid = SudokuGrid::empty();
    set(&mut grid, 1, 0, 4);
    set(&mut grid, 1, 1, 5);
    set(&mut grid, 1, 2, 6);
    assert!(
        !entropic.validate_solution(&grid),
        "All medium values - invalid"
    );
}

#[test]
fn test_valid_proposal_in_window() {
    let entropic = Entropic::new(vec![(0, 0), (0, 1), (0, 2)]);
    let mut grid = SudokuGrid::empty();
    set(&mut grid, 0, 0, 2);
    set(&mut grid, 0, 1, 5);
    assert!(entropic.is_valid(&grid, 0, 2, 9), "Should complete valid window");
}

#[test]
fn test_invalid_duplicate_band_proposal() {
    let entropic = Entropic::new(vec![(0, 0), (0, 1), (0, 2)]);
    let mut grid = SudokuGrid::empty();
    set(&mut grid, 0, 0, 2);
    set(&mut grid, 0, 1, 1);
    assert!(!entropic.is_valid(&grid, 0, 2, 5), "Two lows already - invalid");
}

#[test]
fn test_invalid_add_same_band_proposal() {
    let entropic = Entropic::new(vec![(0, 0), (0, 1), (0, 2)]);
    let mut grid = SudokuGrid::empty();
    set(&mut grid, 0, 0, 2);
    set(&mut grid, 0, 1, 5);
    assert!(
        !entropic.is_valid(&grid, 0, 2, 1),
        "Trying to add another low - invalid"
    );
}

#[test]
fn test_valid_long_line_multiple_windows() {
    let entropic = Entropic::new(vec![(0, 0), (0, 1), (0, 2), (0, 3), (0, 4), (0, 5)]);
    let mut grid = SudokuGrid::empty();
    set(&mut grid, 0, 0, 1); // L
    set(&mut grid, 0, 1, 5); // M
    set(&mut grid, 0, 2, 7); // H
    set(&mut grid, 0, 3, 3); // L
    set(&mut grid, 0, 4, 6); // M
    assert!(
        entropic.is_valid(&grid, 0, 5, 9),
        "Should complete all windows validly"
    );
}

#[test]
fn test_invalid_middle_window_violation() {
    let entropic = Entropic::new(vec![(0, 0), (0, 1), (0, 2), (0, 3)]);
    let mut grid = SudokuGrid::empty();
    set(&mut grid, 0, 0, 1); // L
    set(&mut grid, 0, 1, 5); // M
    set(&mut grid, 0, 3, 4); // M
    assert!(
        !entropic.is_valid(&grid, 0, 2, 2),
        "High digit expected - invalid"
    );
}

#[test]
fn entropic_test_basic_get_possibilities() {
    let line = Entropic::new(vec![(1, 1), (1, 2), (1, 3), (1, 4)]);
    let mut grid = SudokuGrid::empty();
    set(&mut grid, 1, 1, 1); // Low value
    set(&mut grid, 1, 3, 6); // Medium value
    let result = line.get_possibilities(&grid).unwrap();
    assert_eq!(result.get_list(1, 2).unwrap(), vec![7, 8, 9]);
    assert_eq!(result.get_list(1, 4).unwrap(), vec![1, 2, 3]);
}
