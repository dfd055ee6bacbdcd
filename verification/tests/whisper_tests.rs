use sudoku_solver::{GermanWhisper, SudokuGrid};

fn set(grid: &mut SudokuGrid, r: usize, c: usize, v: u8) {
    let _ = grid.set_cell(r, c, v);
}

fn make_grid_with_values(values: Vec<Vec<u8>>) -> SudokuGrid {
    let mut grid = SudokuGrid::empty();
    for (r, row) in values.into_iter().enumerate() {
        for (c, v) in row.into_iter().enumerate() {
            if v != 0 {
                set(&mut grid, r, c, v);
            }
        }
    }
    grid
}

#[test]
fn test_linear_line() {
    let grid = make_grid_with_values(vec![vec![1, 6, 1]]); // row 0
    let line = GermanWhisper::new(vec![(0, 0), (0, 1), (0, 2)], false);
    assert!(line.validate_solution(&grid));
}

#[test]
fn test_difference_too_small() {
    let grid = make_grid_with_values(vec![vec![1, 3, 9]]);
    let line = GermanWhisper::new(vec![(0, 0), (0, 1), (0, 2)], false);
    assert!(!line.validate_solution(&grid));
}

#[test]
fn test_contains_zero_value() {
    let grid = make_grid_with_values(vec![vec![1, 0, 2]]);
    let line = GermanWhisper::new(vec![(0, 0), (0, 1), (0, 2)], false);
    assert!(!line.validate_solution(&grid));
}

#[test]
fn test_circular_line_valid() {
    let mut grid = SudokuGrid::empty();
    set(&mut grid, 3, 2, 1);
    set(&mut grid, 4, 1, 9);
    set(&mut grid, 4, 3, 2);
    set(&mut grid, 5, 2, 8);
    let line = GermanWhisper::new(vec![(3, 2), (4, 1), (4, 3), (5, 2)], true);
    assert!(line.validate_solution(&grid));
}

#[test]
fn test_circular_line_invalid() {
    let mut grid = SudokuGrid::empty();
    set(&mut grid, 3, 2, 4);
    set(&mut grid, 4, 1, 9);
    set(&mut grid, 4, 3, 2);
    set(&mut grid, 5, 2, 8);
    let line = GermanWhisper::new(vec![(3, 2), (4, 1), (4, 3), (5, 2)], true);
    assert!(!line.validate_solution(&grid));
}

#[test]
fn german_whisper_test_not_on_line() {
    let grid = make_grid_with_values(vec![vec![1, 2, 0]]);
    let line = GermanWhisper::new(vec![(0, 0), (0, 1)], false);
    assert!(line.is_valid(&grid, 0, 2, 3));
}

#[test]
fn test_placement_in_middle_of_line() {
    let grid = make_grid_with_values(vec![vec![1, 0, 2]]);
    let line = GermanWhisper::new(vec![(0, 0), (0, 1), (0, 2)], false);
    assert!(line.is_valid(&grid, 0, 1, 9));
    assert!(!line.is_valid(&grid, 0, 1, 6));
    assert!(!line.is_valid(&grid, 0, 1, 4));
    assert!(line.is_valid(&grid, 0, 1, 8));
    assert!(line.is_valid(&grid, 0, 1, 7));
}

#[test]
fn test_placement_end_of_line() {
    let grid = make_grid_with_values(vec![vec![0, 7, 0]]);
    let line = GermanWhisper::new(vec![(0, 0), (0, 1), (0, 2)], false);
    assert!(line.is_valid(&grid, 0, 0, 1));
    assert!(line.is_valid(&grid, 0, 0, 2));
    assert!(line.is_valid(&grid, 0, 2, 1));
    assert!(line.is_valid(&grid, 0, 2, 2));
    assert!(!line.is_valid(&grid, 0, 0, 3));
    assert!(!line.is_valid(&grid, 0, 2, 3));
    assert!(!line.is_valid(&grid, 0, 0, 9));
    assert!(!line.is_valid(&grid, 0, 2, 9));
}

#[test]
fn german_whisper_test_circular_line() {
    let grid = make_grid_with_values(vec![vec![0, 7, 2, 6]]);
    let line = GermanWhisper::new(vec![(0, 0), (0, 1), (0, 2), (0, 3)], true);
    assert!(!line.is_valid(&grid, 0, 0, 8));
    assert!(line.is_valid(&grid, 0, 0, 1));
    assert!(!line.is_valid(&grid, 0, 0, 2));
}

#[test]
fn whisper_candidates_test_not_on_line() {
    let mut grid = SudokuGrid::empty();
    set(&mut grid, 0, 0, 5);
    let line = GermanWhisper::new(vec![(0, 1), (0, 2)], false);
    let result = line.get_possibilities(&grid).unwrap();
    // The cell away from the line has no entry in the line's map.
    assert!(result.get_list(0, 0).is_none());
}

#[test]
fn test_one_neighbour_not_set() {
    let mut grid = SudokuGrid::empty();
    set(&mut grid, 0, 0, 3);
    let whisper = GermanWhisper::new(vec![(0, 0), (0, 1)], false);
    let result = whisper.get_possibilities(&grid).unwrap();
    assert_eq!(result.get_list(0, 1).unwrap(), vec![8, 9]);
}

#[test]
fn test_middle_of_line_value_set() {
    let mut grid = SudokuGrid::empty();
    set(&mut grid, 0, 1, 7);
    let whisper = GermanWhisper::new(vec![(0, 0), (0, 1), (0, 2)], false);
    let result = whisper.get_possibilities(&grid).unwrap();
    let expected = vec![1, 2];
    assert_eq!(result.get_list(0, 0).unwrap(), expected);
    assert_eq!(result.get_list(0, 2).unwrap(), expected);
}

#[test]
fn german_whisper_test_circular_line_candidates() {
    let mut grid = SudokuGrid::empty();
    set(&mut grid, 0, 0, 6);
    let whisper = GermanWhisper::new(vec![(0, 0), (0, 1), (0, 2), (0, 3)], true);
    let result = whisper.get_possibilities(&grid).unwrap();
    assert_eq!(result.get_list(0, 1).unwrap(), vec![1]);
    assert_eq!(result.get_list(0, 3).unwrap(), vec![1]);
    assert_eq!(result.get_list(0, 2).unwrap(), vec![6, 7, 8, 9]);
}

#[test]
fn test_single_cell_line() {
    let mut grid = SudokuGrid::empty();
    set(&mut grid, 4, 4, 5);
    let whisper = GermanWhisper::new(vec![(4, 4)], false);
    // The single filled cell maps to the singleton of its value.
    let result = whisper.get_possibilities(&grid).unwrap();
    assert_eq!(result.get_list(4, 4).unwrap(), vec![5]);
}

#[test]
fn no_valid_neighbours() {
    let mut grid = SudokuGrid::empty();
    set(&mut grid, 0, 0, 5);
    let whisper = GermanWhisper::new(vec![(0, 0), (0, 1)], false);
    let result = whisper.get_possibilities(&grid);
    assert!(result.is_err());
}

#[test]
fn skip_already_filled_cells() {
    let mut grid = SudokuGrid::empty();
    let whisper = GermanWhisper::new(vec![(2, 0), (2, 1), (2, 2)], false);
    set(&mut grid, 2, 1, 6); // Set center
    set(&mut grid, 2, 0, 0); // Unset
    set(&mut grid, 2, 2, 7); // Already filled
    let result = whisper.get_possibilities(&grid).unwrap();
    assert!(result.get_list(2, 0).is_some());
    assert_eq!(result.get_list(2, 2).unwrap(), vec![7]);
}

#[test]
fn test_conflicting_known_values() {
    let mut grid = SudokuGrid::empty();
    set(&mut grid, 0, 0, 1); // Low
    set(&mut grid, 0, 2, 9); // High - conflict with (0, 0)
    let whisper = GermanWhisper::new(vec![(0, 0), (0, 1), (0, 2)], false);
    let result = whisper.get_possibilities(&grid);
    assert!(result.is_err());
}

#[test]
fn test_parity_inference_from_odd_index() {
    let mut grid = SudokuGrid::empty();
    set(&mut grid, 0, 1, 8); // high at an odd index
    let whisper = GermanWhisper::new(vec![(0, 0), (0, 1), (0, 2)], false);
    let result = whisper.get_possibilities(&grid).unwrap();
    let expected = vec![1, 2, 3];
    assert_eq!(result.get_list(0, 0).unwrap(), expected);
    assert_eq!(result.get_list(0, 2).unwrap(), expected);
}

#[test]
fn test_five_never_included() {
    let mut grid = SudokuGrid::empty();
    set(&mut grid, 0, 1, 1); // Low
    let whisper = GermanWhisper::new(vec![(0, 0), (0, 1)], false);
    let result = whisper.get_possibilities(&grid).unwrap();
    let values = result.get_list(0, 0).unwrap();
    assert!(!values.contains(&5));
}

#[test]
fn test_long_whisper_line() {
    let mut grid = SudokuGrid::empty();
    set(&mut grid, 0, 0, 7);
    let whisper = GermanWhisper::new(vec![(0, 0), (0, 1), (0, 2), (0, 3), (0, 4), (0, 5)], true);
    let result = whisper.get_possibilities(&grid).unwrap();
    assert_eq!(result.get_list(0, 1).unwrap(), vec![1, 2]);
    assert_eq!(result.get_list(0, 2).unwrap(), vec![6, 7, 8, 9]);
    assert_eq!(result.get_list(0, 3).unwrap(), vec![1, 2, 3, 4]);
    assert_eq!(result.get_list(0, 4).unwrap(), vec![6, 7, 8, 9]);
    assert_eq!(result.get_list(0, 5).unwrap(), vec![1, 2]);

    let whisper = GermanWhisper::new(vec![(0, 0), (0, 1), (0, 2), (0, 3), (0, 4), (0, 5)], false);
    let result = whisper.get_possibilities(&grid).unwrap();
    assert_eq!(result.get_list(0, 1).unwrap(), vec![1, 2]);
    assert_eq!(result.get_list(0, 2).unwrap(), vec![6, 7, 8, 9]);
    assert_eq!(result.get_list(0, 3).unwrap(), vec![1, 2, 3, 4]);
    assert_eq!(result.get_list(0, 4).unwrap(), vec![6, 7, 8, 9]);
    assert_eq!(result.get_list(0, 5).unwrap(), vec![1, 2, 3, 4]);
}
