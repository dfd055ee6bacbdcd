use sudoku_solver::{King, Knight, PossibilityMap, SudokuGrid};

fn set(grid: &mut SudokuGrid, r: usize, c: usize, v: u8) {
    let _ = grid.set_cell(r, c, v);
}

#[test]
fn king_valid_empty_middle() {
    let grid = SudokuGrid::empty();
    let king = King::new();
    for value in 1..=9 {
        assert!(king.is_valid(&grid, 4, 4, value));
    }
}

#[test]
fn king_valid_empty_edge() {
    let grid = SudokuGrid::empty();
    let king = King::new();
    for value in 1..=9 {
        assert!(king.is_valid(&grid, 0, 0, value));
    }
}

#[test]
fn king_valid_one_option() {
    let mut grid = SudokuGrid::empty();
    let king = King::new();
    set(&mut grid, 0, 0, 1);
    set(&mut grid, 0, 1, 2);
    set(&mut grid, 0, 2, 3);
    set(&mut grid, 1, 0, 4);
    set(&mut grid, 1, 2, 5);
    set(&mut grid, 2, 0, 6);
    set(&mut grid, 2, 1, 7);
    set(&mut grid, 2, 2, 8);
    for value in 1..9 {
        assert!(!king.is_valid(&grid, 1, 1, value));
    }
    assert!(king.is_valid(&grid, 1, 1, 9))
}

#[test]
fn king_invalid_middle() {
    let mut grid = SudokuGrid::empty();
    let king = King::new();
    set(&mut grid, 2, 2, 1);
    assert!(!king.is_valid(&grid, 1, 1, 1));
    assert!(!king.is_valid(&grid, 1, 2, 1));
    assert!(!king.is_valid(&grid, 1, 3, 1));
    assert!(!king.is_valid(&grid, 2, 1, 1));
    assert!(!king.is_valid(&grid, 2, 3, 1));
    assert!(!king.is_valid(&grid, 3, 1, 1));
    assert!(!king.is_valid(&grid, 3, 2, 1));
    assert!(!king.is_valid(&grid, 3, 3, 1));
}

#[test]
fn king_invalid_edge() {
    let mut grid = SudokuGrid::empty();
    let king = King::new();
    set(&mut grid, 0, 1, 1);
    set(&mut grid, 1, 0, 2);
    set(&mut grid, 1, 1, 3);
    for value in 1..4 {
        assert!(!king.is_valid(&grid, 0, 0, value));
    }
    for value in 4..=9 {
        assert!(king.is_valid(&grid, 0, 0, value));
    }
}

const KING_SOLUTION: [[u8; 9]; 9] = [
    [5, 7, 1, 4, 3, 9, 6, 2, 8],
    [6, 4, 8, 5, 2, 1, 3, 7, 9],
    [9, 3, 2, 6, 8, 7, 5, 4, 1],
    [4, 5, 7, 3, 9, 2, 1, 8, 6],
    [3, 1, 9, 8, 7, 6, 4, 5, 2],
    [2, 8, 6, 1, 4, 5, 9, 3, 7],
    [7, 9, 4, 2, 6, 3, 8, 1, 5],
    [8, 6, 5, 7, 1, 4, 2, 9, 3],
    [1, 2, 3, 9, 5, 8, 7, 6, 4],
];

#[test]
fn king_valid_solution() {
    let mut grid = SudokuGrid::empty();
    let king = King::new();
    for (r, row) in KING_SOLUTION.iter().enumerate() {
        for (c, &value) in row.iter().enumerate() {
            set(&mut grid, r, c, value);
        }
    }
    assert!(king.validate_solution(&grid));
}

#[test]
fn king_invalid_solution() {
    let mut values = KING_SOLUTION;
    values[3] = [4, 5, 7, 2, 9, 3, 1, 8, 6];
    let mut grid = SudokuGrid::empty();
    let king = King::new();
    for (r, row) in values.iter().enumerate() {
        for (c, &value) in row.iter().enumerate() {
            set(&mut grid, r, c, value);
        }
    }
    assert!(!king.validate_solution(&grid));
}

#[test]
fn king_empty() {
    let grid = SudokuGrid::empty();
    let king = King::new();
    assert_eq!(king.get_possibilities(&grid), Ok(PossibilityMap::new_full()));
}

#[test]
fn king_partially_filled() {
    let mut grid = SudokuGrid::empty();
    let king = King::new();
    let mut expected = PossibilityMap::new_full();
    let mut value = 1;
    for row in 0..3 {
        for col in 0..3 {
            set(&mut grid, row, col, value);
            expected.set_list(row, col, vec![value]);
            value += 1;
        }
    }
    // The cells around the edge of the filled block.
    expected.set_list(0, 3, vec![1, 2, 4, 5, 7, 8, 9]);
    expected.set_list(1, 3, vec![1, 2, 4, 5, 7, 8]);
    expected.set_list(2, 3, vec![1, 2, 3, 4, 5, 7, 8]);
    expected.set_list(3, 3, vec![1, 2, 3, 4, 5, 6, 7, 8]);
    expected.set_list(3, 0, vec![1, 2, 3, 4, 5, 6, 9]);
    expected.set_list(3, 1, vec![1, 2, 3, 4, 5, 6]);
    expected.set_list(3, 2, vec![1, 2, 3, 4, 5, 6, 7]);
    let result = king.get_possibilities(&grid);
    assert_eq!(result, Ok(expected));
}

#[test]
fn king_fully_filled() {
    let mut grid = SudokuGrid::empty();
    let king = King::new();
    let mut expected = PossibilityMap::new_blank();
    for (r, row) in KING_SOLUTION.iter().enumerate() {
        for (c, &value) in row.iter().enumerate() {
            set(&mut grid, r, c, value);
            expected.set_list(r, c, vec![value]);
        }
    }
    assert_eq!(king.get_possibilities(&grid), Ok(expected));
}

#[test]
fn knight_valid_empty_middle() {
    let grid = SudokuGrid::empty();
    let knight = Knight::new();
    for value in 1..=9 {
        assert!(knight.is_valid(&grid, 4, 4, value));
    }
}

#[test]
fn knight_valid_empty_edge() {
    let grid = SudokuGrid::empty();
    let knight = Knight::new();
    for value in 1..=9 {
        assert!(knight.is_valid(&grid, 0, 0, value));
    }
}

#[test]
fn knight_valid_one_option() {
    let mut grid = SudokuGrid::empty();
    let knight = Knight::new();
    set(&mut grid, 2, 3, 1);
    set(&mut grid, 2, 5, 2);
    set(&mut grid, 3, 2, 3);
    set(&mut grid, 3, 6, 4);
    set(&mut grid, 5, 2, 5);
    set(&mut grid, 5, 6, 6);
    set(&mut grid, 6, 3, 7);
    set(&mut grid, 6, 5, 8);
    for value in 1..9 {
        assert!(!knight.is_valid(&grid, 4, 4, value));
    }
    assert!(knight.is_valid(&grid, 1, 1, 9));
}

#[test]
fn knight_invalid_middle() {
    let mut grid = SudokuGrid::empty();
    let knight = Knight::new();
    set(&mut grid, 4, 4, 1);
    assert!(!knight.is_valid(&grid, 2, 3, 1));
    assert!(!knight.is_valid(&grid, 2, 5, 1));
    assert!(!knight.is_valid(&grid, 3, 2, 1));
    assert!(!knight.is_valid(&grid, 3, 6, 1));
    assert!(!knight.is_valid(&grid, 5, 2, 1));
    assert!(!knight.is_valid(&grid, 5, 6, 1));
    assert!(!knight.is_valid(&grid, 6, 3, 1));
    assert!(!knight.is_valid(&grid, 6, 5, 1));
}

#[test]
fn knight_invalid_edge() {
    let mut grid = SudokuGrid::empty();
    let knight = Knight::new();
    set(&mut grid, 1, 2, 1);
    set(&mut grid, 2, 1, 2);
    for value in 1..3 {
        assert!(!knight.is_valid(&grid, 0, 0, value));
    }
    for value in 3..=9 {
        assert!(knight.is_valid(&grid, 0, 0, value));
    }
}

const KNIGHT_SOLUTION: [[u8; 9]; 9] = [
    [8, 1, 2, 9, 7, 3, 5, 4, 6],
    [9, 6, 3, 5, 4, 8, 2, 7, 1],
    [7, 4, 5, 1, 6, 2, 8, 9, 3],
    [4, 8, 1, 7, 3, 5, 9, 6, 2],
    [6, 3, 7, 2, 8, 9, 4, 1, 5],
    [2, 5, 9, 6, 1, 4, 7, 3, 8],
    [1, 9, 8, 3, 5, 7, 6, 2, 4],
    [3, 7, 4, 8, 2, 6, 1, 5, 9],
    [5, 2, 6, 4, 9, 1, 3, 8, 7],
];

#[test]
fn knight_valid_solution() {
    let mut grid = SudokuGrid::empty();
    let knight = Knight::new();
    for (r, row) in KNIGHT_SOLUTION.iter().enumerate() {
        for (c, &value) in row.iter().enumerate() {
            set(&mut grid, r, c, value);
        }
    }
    assert!(knight.validate_solution(&grid));
}

#[test]
fn knight_invalid_solution() {
    let mut values = KNIGHT_SOLUTION;
    values[0] = [4, 1, 2, 9, 7, 3, 5, 8, 6];
    let mut grid = SudokuGrid::empty();
    let knight = Knight::new();
    for (r, row) in values.iter().enumerate() {
        for (c, &value) in row.iter().enumerate() {
            set(&mut grid, r, c, value);
        }
    }
    assert!(!knight.validate_solution(&grid));
}

#[test]
fn knight_empty() {
    let grid = SudokuGrid::empty();
    let knight = Knight::new();
    assert_eq!(knight.get_possibilities(&grid), Ok(PossibilityMap::new_full()));
}

#[test]
fn knight_partially_filled() {
    let mut grid = SudokuGrid::empty();
    let knight = Knight::new();
    let mut expected = PossibilityMap::new_full();
    let mut value = 1;
    for row in 0..3 {
        for col in 0..3 {
            set(&mut grid, row, col, value);
            expected.set_list(row, col, vec![value]);
            value += 1;
        }
    }
    expected.set_list(0, 3, vec![1, 2, 3, 4, 6, 7, 8]);
    expected.set_list(0, 4, vec![1, 2, 3, 4, 5, 7, 8, 9]);
    expected.set_list(1, 3, vec![1, 3, 4, 5, 6, 7, 9]);
    expected.set_list(1, 4, vec![1, 2, 4, 5, 6, 7, 8]);
    expected.set_list(2, 3, vec![1, 2, 4, 6, 7, 8, 9]);
    expected.set_list(2, 4, vec![1, 2, 3, 4, 5, 7, 8, 9]);
    expected.set_list(3, 0, vec![1, 2, 3, 4, 6, 7, 8]);
    expected.set_list(3, 1, vec![1, 2, 3, 5, 7, 8, 9]);
    expected.set_list(3, 2, vec![1, 2, 3, 4, 6, 8, 9]);
    expected.set_list(3, 3, vec![1, 2, 3, 4, 5, 7, 9]);
    expected.set_list(3, 4, vec![1, 2, 3, 4, 5, 6, 7, 8]);
    expected.set_list(4, 0, vec![1, 2, 3, 4, 5, 6, 7, 9]);
    expected.set_list(4, 1, vec![1, 2, 3, 4, 5, 6, 8]);
    expected.set_list(4, 2, vec![1, 2, 3, 4, 5, 6, 7, 9]);
    expected.set_list(4, 3, vec![1, 2, 3, 4, 5, 6, 7, 8]);
    let result = knight.get_possibilities(&grid);
    assert_eq!(result, Ok(expected));
}

#[test]
fn knight_fully_filled() {
    let mut grid = SudokuGrid::empty();
    let knight = Knight::new();
    let mut expected = PossibilityMap::new_blank();
    for (r, row) in KNIGHT_SOLUTION.iter().enumerate() {
        for (c, &value) in row.iter().enumerate() {
            set(&mut grid, r, c, value);
            expected.set_list(r, c, vec![value]);
        }
    }
    assert_eq!(knight.get_possibilities(&grid), Ok(expected));
}

#[test]
fn chess_constraints_cover_every_cell() {
    let king = King::new();
    let knight = Knight::new();
    assert_eq!(king.constrained_cells().len(), 81);
    assert_eq!(knight.constrained_cells().len(), 81);
}
