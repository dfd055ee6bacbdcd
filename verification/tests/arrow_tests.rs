use sudoku_solver::{Arrow, SudokuGrid};

fn set(grid: &mut SudokuGrid, r: usize, c: usize, v: u8) {
    let _ = grid.set_cell(r, c, v);
}

fn setup_arrow() -> Arrow {
    // Arrow from (0,0) (head) to (0,1) and (0,2)
    Arrow::new(vec![(0, 0), (0, 1), (0, 2)])
}

#[test]
fn arrow_test_constrained_cells() {
    let arrow = setup_arrow();
    assert_eq!(arrow.constrained_cells(), vec![(0, 0), (0, 1), (0, 2)]);
}

#[test]
fn test_is_valid_head_correct_sum() {
    let arrow = setup_arrow();
    let mut grid = SudokuGrid::empty();
    set(&mut grid, 0, 1, 3);
    set(&mut grid, 0, 2, 4);
    // Head should be 7
    assert!(arrow.is_valid(&grid, 0, 0, 7));
}

#[test]
fn test_is_valid_head_incorrect_sum() {
    let arrow = setup_arrow();
    let mut grid = SudokuGrid::empty();
    set(&mut grid, 0, 1, 3);
    set(&mut grid, 0, 2, 4);
    // Head is 8, but sum is 7
    assert!(!arrow.is_valid(&grid, 0, 0, 8));
}

#[test]
fn test_is_valid_body_cell() {
    let arrow = setup_arrow();
    let mut grid = SudokuGrid::empty();
    set(&mut grid, 0, 0, 7);
    set(&mut grid, 0, 2, 4);
    // (0,1) is 3, so 3+4=7, valid
    assert!(arrow.is_valid(&grid, 0, 1, 3));
    // (0,1) is 2, so 2+4=6 != 7, invalid
    assert!(!arrow.is_valid(&grid, 0, 1, 2));
}

#[test]
fn test_validate_solution_valid() {
    let arrow = setup_arrow();
    let mut grid = SudokuGrid::empty();
    set(&mut grid, 0, 0, 7);
    set(&mut grid, 0, 1, 3);
    set(&mut grid, 0, 2, 4);
    assert!(arrow.validate_solution(&grid));
}

#[test]
fn test_validate_solution_invalid() {
    let arrow = setup_arrow();
    let mut grid = SudokuGrid::empty();
    set(&mut grid, 0, 0, 8);
    set(&mut grid, 0, 1, 3);
    set(&mut grid, 0, 2, 4);
    assert!(!arrow.validate_solution(&grid));
}

#[test]
fn test_get_possibilities_not_on_arrow() {
    let arrow = setup_arrow();
    let grid = SudokuGrid::empty();
    let result = arrow.get_possibilities(&grid).unwrap();
    // A cell away from the arrow has no entry in the arrow's map.
    assert!(result.get_list(1, 1).is_none());
}

#[test]
fn test_get_possibilities_on_arrow_head() {
    let arrow = setup_arrow();
    let mut grid = SudokuGrid::empty();
    // Suppose we just set (0,0) to 7
    set(&mut grid, 0, 0, 7);
    let result = arrow.get_possibilities(&grid).unwrap();
    // For each body cell, possible values are those (1..=9) such that sum of two is 7
    assert!(result.get_list(0, 1).is_some());
    assert!(result.get_list(0, 2).is_some());
    for v in result.get_list(0, 1).unwrap() {
        assert!(1 <= v && v <= 6);
    }
    for v in result.get_list(0, 2).unwrap() {
        assert!(1 <= v && v <= 6);
    }
}

#[test]
fn test_get_possibilities_on_arrow_body() {
    let arrow = setup_arrow();
    let mut grid = SudokuGrid::empty();
    // Suppose we just set (0,1) to 3, and head is 7
    set(&mut grid, 0, 0, 7);
    set(&mut grid, 0, 1, 3);
    let result = arrow.get_possibilities(&grid).unwrap();
    // (0,2) must be 4
    assert_eq!(result.get_list(0, 2), Some(vec![4]));
    assert_eq!(result.get_list(0, 0), Some(vec![7]));
}

#[test]
fn test_arrow_with_two_cells() {
    let mut grid = SudokuGrid::empty();
    let arrow = Arrow::new(vec![(2, 2), (3, 3)]);
    // First check that all values are possible for both cells
    let result = arrow.get_possibilities(&grid).unwrap();
    assert!(result.get_list(2, 2).is_some());
    assert!(result.get_list(3, 3).is_some());
    for v in result.get_list(2, 2).unwrap() {
        assert!(1 <= v && v <= 9);
    }
    for v in result.get_list(3, 3).unwrap() {
        assert!(1 <= v && v <= 9);
    }
    // Now set (2,2) to 5 and check that (3, 3) must also be 5
    set(&mut grid, 2, 2, 5);
    let result = arrow.get_possibilities(&grid).unwrap();
    assert_eq!(result.get_list(2, 2), Some(vec![5]));
    assert_eq!(result.get_list(3, 3), Some(vec![5]));
    // Now check that setting the other cell on the arrow also works as expected.
    set(&mut grid, 2, 2, 0);
    set(&mut grid, 3, 3, 4);
    let result = arrow.get_possibilities(&grid).unwrap();
    assert_eq!(result.get_list(2, 2), Some(vec![4]));
    assert_eq!(result.get_list(3, 3), Some(vec![4]));
}

#[test]
fn test_arrow_all_cells_unknown() {
    // Arrow with 3 cells, all unknown
    let arrow = setup_arrow();
    let grid = SudokuGrid::empty();
    let result = arrow.get_possibilities(&grid).unwrap();
    // Both body cells can hold 1..=8, the head 2..=9.
    for cell in &[(0usize, 1usize), (0, 2)] {
        assert_eq!(
            result.get_list(cell.0, cell.1).unwrap(),
            (1..=8).collect::<Vec<u8>>()
        );
    }
    assert_eq!(result.get_list(0, 0).unwrap(), vec![2, 3, 4, 5, 6, 7, 8, 9]);
}

#[test]
fn test_arrow_head_set_multiple_body_unknown() {
    // Head is set, all body cells unknown
    let arrow = setup_arrow();
    let mut grid = SudokuGrid::empty();
    set(&mut grid, 0, 0, 5);
    let result = arrow.get_possibilities(&grid).unwrap();
    // Only pairs of body values that sum to 5 are possible
    let mut expected: Vec<u8> = Vec::new();
    for a in 1..=9u8 {
        for b in 1..=9u8 {
            if a + b == 5 && !expected.contains(&a) {
                expected.push(a);
            }
        }
    }
    expected.sort_unstable();
    assert_eq!(result.get_list(0, 1).unwrap(), expected);
    assert_eq!(result.get_list(0, 2).unwrap(), expected);
}

#[test]
fn test_arrow_some_body_set_head_unknown() {
    // Some body cells set, head unknown
    let arrow = setup_arrow();
    let mut grid = SudokuGrid::empty();
    set(&mut grid, 0, 1, 2);
    // Head and (0,2) unknown
    let result = arrow.get_possibilities(&grid).unwrap();
    // Head must be 2 + (0,2), so for each possible (0,2), head is 2 + v
    for v in 1..=9u8 {
        let head_val = 2 + v;
        if head_val <= 9 {
            assert!(result.get_list(0, 0).unwrap().contains(&head_val));
            assert!(result.get_list(0, 2).unwrap().contains(&v));
        }
    }
}

#[test]
fn test_arrow_impossible_sum() {
    // Set body cells so their sum is greater than 9
    let arrow = setup_arrow();
    let mut grid = SudokuGrid::empty();
    set(&mut grid, 0, 1, 8);
    set(&mut grid, 0, 2, 5);
    // Head is unknown, but sum is 13 > 9, so no valid head
    let result = arrow.get_possibilities(&grid);
    assert!(result.is_err());
}

#[test]
fn test_arrow_one_cell_left() {
    // All but one cell are filled
    let arrow = setup_arrow();
    let mut grid = SudokuGrid::empty();
    set(&mut grid, 0, 0, 9);
    set(&mut grid, 0, 1, 4);
    // Only (0,2) is unknown, must be 5
    let result = arrow.get_possibilities(&grid).unwrap();
    assert_eq!(result.get_list(0, 2), Some(vec![5]));
}

#[test]
fn test_arrow_repeated_digits_allowed() {
    // Set up a case where repeated digits are required
    let arrow = Arrow::new(vec![(0, 0), (0, 1), (0, 2)]);
    let mut grid = SudokuGrid::empty();
    set(&mut grid, 0, 0, 4);
    // For (0,1) and (0,2), the pair (2,2) must stay possible
    let result = arrow.get_possibilities(&grid).unwrap();
    assert!(result.get_list(0, 1).unwrap().contains(&2));
    assert!(result.get_list(0, 2).unwrap().contains(&2));
}

#[test]
fn test_arrow_head_set_to_zero_invalid() {
    // Head is cleared (still empty)
    let arrow = setup_arrow();
    let mut grid = SudokuGrid::empty();
    set(&mut grid, 0, 0, 0);
    let result = arrow.get_possibilities(&grid).unwrap();
    // All body cells can still hold 1..=8
    for cell in &[(0usize, 1usize), (0, 2)] {
        assert_eq!(
            result.get_list(cell.0, cell.1).unwrap(),
            (1..=8).collect::<Vec<u8>>()
        );
    }
}
