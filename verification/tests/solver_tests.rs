use sudoku_solver::{Solver, SudokuGrid};

fn set(grid: &mut SudokuGrid, r: usize, c: usize, v: u8) {
    let _ = grid.set_cell(r, c, v);
}

fn entry(grid: &SudokuGrid, r: usize, c: usize) -> Vec<u8> {
    grid.possibilities_entry(r, c).unwrap()
}

fn all_digits() -> Vec<u8> {
    vec![1, 2, 3, 4, 5, 6, 7, 8, 9]
}

fn place_givens(grid: &mut SudokuGrid, givens: &[(usize, usize, u8)]) {
    for &(r, c, v) in givens {
        set(grid, r, c, v);
    }
}

#[test]
fn naked_pair_in_row() {
    let mut grid = SudokuGrid::empty();
    // Set up possibilities: row 0 col 0 and 1 have [1,2], others have all digits
    let solver = Solver::new(&mut grid).unwrap();
    grid.set_possibilities_entry(0, 0, vec![1, 2]);
    grid.set_possibilities_entry(0, 1, vec![1, 2]);
    solver.apply_naked_subsets(&mut grid);
    // The naked pair [1,2] in (0,0) and (0,1) should remove 1,2 from other cells in row 0
    for c in 0..9 {
        let poss = entry(&grid, 0, c);
        if c == 0 || c == 1 {
            assert_eq!(poss, vec![1, 2], "Cell (0, {c}) should only have [1, 2] left");
        } else {
            assert_eq!(
                poss,
                vec![3, 4, 5, 6, 7, 8, 9],
                "Cell (0, {c}) should only have [3,4,5,6,7,8,9] left"
            );
        }
    }
    // Now also check the cells in the top left box.
    for dr in 0..3 {
        for dc in 0..3 {
            let poss = entry(&grid, dr, dc);
            if dr == 0 && (dc == 0 || dc == 1) {
                assert_eq!(poss, vec![1, 2]);
            } else {
                assert_eq!(poss, vec![3, 4, 5, 6, 7, 8, 9]);
            }
        }
    }
    // Check column 0
    for r in 0..9 {
        let poss = entry(&grid, r, 0);
        let expected: Vec<u8> = match r {
            0 => vec![1, 2],
            1..=2 => vec![3, 4, 5, 6, 7, 8, 9],
            _ => all_digits(),
        };
        assert_eq!(poss, expected, "Cell ({r}, 0) mismatch");
    }
}

#[test]
fn naked_triple_in_column() {
    let mut grid = SudokuGrid::empty();
    let solver = Solver::new(&mut grid).unwrap();
    // Setup a naked triple in column 0, rows 0, 3, 6 - so only the column should be affected
    grid.set_possibilities_entry(0, 0, vec![1, 2, 3]);
    grid.set_possibilities_entry(3, 0, vec![1, 2, 3]);
    grid.set_possibilities_entry(6, 0, vec![1, 2, 3]);
    solver.apply_naked_subsets(&mut grid);
    // Check that the column is as expected
    for r in 0..9 {
        let poss = entry(&grid, r, 0);
        if r == 0 || r == 3 || r == 6 {
            assert_eq!(poss, vec![1, 2, 3], "Cell ({r}, 0) should only have [1,2,3] left");
        } else {
            assert_eq!(
                poss,
                vec![4, 5, 6, 7, 8, 9],
                "Cell ({r}, 0) should only have [4,5,6,7,8,9] left"
            );
        }
    }
    // Check row 0 is unaffected
    for c in 0..9 {
        let poss = entry(&grid, 0, c);
        if c == 0 {
            assert_eq!(poss, vec![1, 2, 3]);
        } else {
            assert_eq!(poss, all_digits());
        }
    }
    // Check box 0 is only affected down column 0
    for dr in 0..3 {
        for dc in 0..3 {
            let poss = entry(&grid, dr, dc);
            if dr == 0 && dc == 0 {
                assert_eq!(poss, vec![1, 2, 3]);
            } else if dc == 0 {
                assert_eq!(poss, vec![4, 5, 6, 7, 8, 9]);
            } else {
                assert_eq!(poss, all_digits());
            }
        }
    }
}

#[test]
fn naked_triple_with_subset() {
    let mut grid = SudokuGrid::empty();
    let solver = Solver::new(&mut grid).unwrap();
    // Cells (0, 0) and (0, 1) have [1,2,3] as possibilities, and cell (0, 2) has [1,2].
    // This should have the effect of the three cells being a triple
    grid.set_possibilities_entry(0, 0, vec![1, 2, 3]);
    grid.set_possibilities_entry(0, 1, vec![1, 2, 3]);
    grid.set_possibilities_entry(0, 2, vec![1, 2]);
    solver.apply_naked_subsets(&mut grid);
    // Row 0 has a triple
    for c in 0..9 {
        let poss = entry(&grid, 0, c);
        if c == 0 || c == 1 {
            assert_eq!(poss, vec![1, 2, 3]);
        } else if c == 2 {
            assert_eq!(poss, vec![1, 2]);
        } else {
            assert_eq!(poss, vec![4, 5, 6, 7, 8, 9]);
        }
    }
    // Box 0 has a triple
    for dr in 0..3 {
        for dc in 0..3 {
            let poss = entry(&grid, dr, dc);
            if dr == 0 && (dc == 0 || dc == 1) {
                assert_eq!(poss, vec![1, 2, 3]);
            } else if dr == 0 && dc == 2 {
                assert_eq!(poss, vec![1, 2]);
            } else {
                assert_eq!(poss, vec![4, 5, 6, 7, 8, 9]);
            }
        }
    }
    // Check column 0
    for r in 0..9 {
        let poss = entry(&grid, r, 0);
        let expected: Vec<u8> = match r {
            0 => vec![1, 2, 3],
            1..=2 => vec![4, 5, 6, 7, 8, 9],
            _ => all_digits(),
        };
        assert_eq!(poss, expected);
    }
}

#[test]
fn naked_triple_less_options() {
    let mut grid = SudokuGrid::empty();
    let solver = Solver::new(&mut grid).unwrap();
    // Row 0: Cells 0, 1, 2 have a [1,2,3] triple
    // Other cells have combinations of the rest of the available values
    let expected: [Vec<u8>; 9] = [
        vec![1, 2, 3],
        vec![1, 2, 3],
        vec![1, 2, 3],
        vec![4, 5],
        vec![5, 6],
        vec![6, 7],
        vec![7, 8],
        vec![8, 9],
        vec![4, 9],
    ];
    for (c, e) in expected.iter().enumerate() {
        grid.set_possibilities_entry(0, c, e.clone());
    }
    solver.apply_naked_subsets(&mut grid);
    // Check row 0. Shouldn't have any changes
    for (c, e) in expected.iter().enumerate() {
        let poss = entry(&grid, 0, c);
        assert_eq!(&poss, e, "Cell (0, {c}) should only have {:?}", e);
    }
    // Check column 0
    for r in 0..9 {
        let poss = entry(&grid, r, 0);
        if r == 0 {
            assert_eq!(poss, vec![1, 2, 3]);
        } else if r < 3 {
            assert_eq!(poss, vec![4, 5, 6, 7, 8, 9]);
        } else {
            assert_eq!(poss, all_digits());
        }
    }
    // Check column 3
    for r in 0..9 {
        let poss = entry(&grid, r, 3);
        if r == 0 {
            assert_eq!(poss, expected[3]);
        } else {
            assert_eq!(poss, all_digits());
        }
    }
}

#[test]
fn naked_triple_and_double() {
    let mut grid = SudokuGrid::empty();
    let solver = Solver::new(&mut grid).unwrap();
    // Row 0: Cells 0, 1, 2 have a [1,2,3] triple; cells 4, 5 a [4,5] double
    let row_0_possibilities: [Vec<u8>; 9] = [
        vec![1, 2, 3],
        vec![1, 2, 3],
        vec![1, 2, 3],
        vec![1, 2, 3, 4, 5, 6, 7],
        vec![4, 5],
        vec![4, 5],
        vec![1, 2, 3, 4, 5, 7, 8],
        vec![1, 2, 3, 4, 5, 8, 9],
        vec![1, 2, 3, 4, 5, 6, 9],
    ];
    let expected: [Vec<u8>; 9] = [
        vec![1, 2, 3],
        vec![1, 2, 3],
        vec![1, 2, 3],
        vec![6, 7],
        vec![4, 5],
        vec![4, 5],
        vec![7, 8],
        vec![8, 9],
        vec![6, 9],
    ];
    for (c, p) in row_0_possibilities.iter().enumerate() {
        grid.set_possibilities_entry(0, c, p.clone());
    }
    solver.apply_naked_subsets(&mut grid);
    // Check row 0.
    for (c, e) in expected.iter().enumerate() {
        let poss = entry(&grid, 0, c);
        assert_eq!(&poss, e, "Cell (0, {c}) should only have {:?}", e);
    }
    // Check column 0
    for r in 0..9 {
        let poss = entry(&grid, r, 0);
        if r == 0 {
            assert_eq!(poss, vec![1, 2, 3]);
        } else if r < 3 {
            assert_eq!(poss, vec![4, 5, 6, 7, 8, 9]);
        } else {
            assert_eq!(poss, all_digits());
        }
    }
    // Check column 3
    for r in 0..9 {
        let poss = entry(&grid, r, 3);
        if r == 0 {
            assert_eq!(poss, vec![6, 7]);
        } else if r < 3 {
            assert_eq!(poss, vec![1, 2, 3, 6, 7, 8, 9]);
        } else {
            assert_eq!(poss, all_digits());
        }
    }
}

#[test]
fn solves_with_naked_pairs() {
    let mut grid = SudokuGrid::empty();
    let givens = [
        (0, 0, 5), (0, 1, 1), (0, 2, 7), (0, 3, 6), (0, 7, 3), (0, 8, 4),
        (1, 0, 2), (1, 1, 8), (1, 2, 9), (1, 5, 4),
        (2, 0, 3), (2, 1, 4), (2, 2, 6), (2, 3, 2), (2, 5, 5), (2, 7, 9),
        (3, 0, 6), (3, 2, 2), (3, 7, 1),
        (4, 1, 3), (4, 2, 8), (4, 5, 6), (4, 7, 4), (4, 8, 7),
        (6, 1, 9), (6, 7, 7), (6, 8, 8),
        (7, 0, 7), (7, 2, 3), (7, 3, 4), (7, 6, 5), (7, 7, 6),
    ];
    place_givens(&mut grid, &givens);
    let solver = Solver::new(&mut grid).unwrap();
    let solved = solver.solve(&mut grid, false);
    assert!(solved, "Solver should solve the puzzle using naked pairs");
    let solution = [
        [5, 1, 7, 6, 9, 8, 2, 3, 4],
        [2, 8, 9, 1, 3, 4, 7, 5, 6],
        [3, 4, 6, 2, 7, 5, 8, 9, 1],
        [6, 7, 2, 8, 4, 9, 3, 1, 5],
        [1, 3, 8, 5, 2, 6, 9, 4, 7],
        [9, 5, 4, 7, 1, 3, 6, 8, 2],
        [4, 9, 5, 3, 6, 2, 1, 7, 8],
        [7, 2, 3, 4, 8, 1, 5, 6, 9],
        [8, 6, 1, 9, 5, 7, 4, 2, 3],
    ];
    for (r, row) in solution.iter().enumerate() {
        for (c, val) in row.iter().enumerate() {
            assert_eq!(&grid.get_cell(r, c), val, "Cell ({r}, {c}) mismatch");
        }
    }
}

#[test]
fn solves_with_pointing_pairs() {
    let mut grid = SudokuGrid::empty();
    let givens = [
        (0, 2, 9), (0, 4, 7),
        (1, 1, 8), (1, 3, 4),
        (2, 2, 3), (2, 7, 2), (2, 8, 8),
        (3, 0, 1), (3, 6, 6), (3, 7, 7),
        (4, 1, 2), (4, 4, 1), (4, 5, 3), (4, 7, 4),
        (5, 1, 4), (5, 5, 7), (5, 6, 8),
        (6, 0, 6), (6, 4, 3),
        (7, 1, 1),
        (8, 6, 2), (8, 7, 8), (8, 8, 4),
    ];
    place_givens(&mut grid, &givens);
    let solver = Solver::new(&mut grid).unwrap();
    let solved = solver.solve(&mut grid, false);
    assert!(solved, "Solver should solve the puzzle using pointing pairs");
    let solution = [
        [2, 6, 9, 3, 7, 8, 4, 1, 5],
        [5, 8, 1, 4, 2, 9, 7, 6, 3],
        [4, 7, 3, 5, 6, 1, 9, 2, 8],
        [1, 3, 5, 9, 8, 4, 6, 7, 2],
        [7, 2, 8, 6, 1, 3, 5, 4, 9],
        [9, 4, 6, 2, 5, 7, 8, 3, 1],
        [6, 9, 4, 8, 3, 2, 1, 5, 7],
        [8, 1, 2, 7, 4, 5, 3, 9, 6],
        [3, 5, 7, 1, 9, 6, 2, 8, 4],
    ];
    for (r, row) in solution.iter().enumerate() {
        for (c, val) in row.iter().enumerate() {
            assert_eq!(&grid.get_cell(r, c), val, "Cell ({r}, {c}) mismatch");
        }
    }
}

#[test]
fn poining_pair_row_removal() {
    let mut grid = SudokuGrid::empty();
    let solver = Solver::new(&mut grid).unwrap();
    // Set up: value 5 is a candidate in (0, 0) and (0, 1) (both in row 0, box 0)
    // Do this by removing 5 as a possibility from all other cells in box 0
    let no_five: Vec<u8> = vec![1, 2, 3, 4, 6, 7, 8, 9];
    for &(r, c) in &[(0, 2), (1, 0), (1, 1), (1, 2), (2, 0), (2, 1), (2, 2)] {
        grid.set_possibilities_entry(r, c, no_five.clone());
    }
    solver.apply_pointing_pairs(&mut grid);
    // Check all of row 0 to ensure 5 is only a possibility in cells (0, 0) and (0, 1)
    for c in 0..9 {
        let poss = entry(&grid, 0, c);
        if c == 0 || c == 1 {
            assert!(poss.contains(&5), "Cell (0, {c}) possibilities should contain a 5");
        } else {
            assert!(!poss.contains(&5), "Cell (0, {c}) should NOT contain a 5: {:?}", poss);
        }
    }
    // Row 1: 5 not possible in first 3 cells (box 0), possible in the others
    for c in 0..9 {
        let poss = entry(&grid, 1, c);
        if c < 3 {
            assert!(!poss.contains(&5), "Cell (1, {c}) should NOT contain a 5: {:?}", poss);
        } else {
            assert!(poss.contains(&5), "Cell (1, {c}) possibilities should contain a 5");
        }
    }
    // Row 3: 5 possible everywhere
    for c in 0..9 {
        let poss = entry(&grid, 3, c);
        assert!(poss.contains(&5), "Cell (3, {c}) possibilities should contain a 5");
    }
}

#[test]
fn pointing_pair_column_removal() {
    let mut grid = SudokuGrid::empty();
    let solver = Solver::new(&mut grid).unwrap();
    // Set up: value 5 is a candidate in (0, 6) and (1, 6) (both in col 6, box 2)
    let no_five: Vec<u8> = vec![1, 2, 3, 4, 6, 7, 8, 9];
    for &(r, c) in &[(0, 7), (0, 8), (1, 7), (1, 8), (2, 6), (2, 7), (2, 8)] {
        grid.set_possibilities_entry(r, c, no_five.clone());
    }
    solver.apply_pointing_pairs(&mut grid);
    // Check all of col 6 to ensure 5 is only a possibility in cells (0, 6) and (1, 6)
    for r in 0..9 {
        let poss = entry(&grid, r, 6);
        if r == 0 || r == 1 {
            assert!(poss.contains(&5), "Cell ({r}, 6) possibilities should contain a 5");
        } else {
            assert!(!poss.contains(&5), "Cell ({r}, 6) should NOT contain a 5: {:?}", poss);
        }
    }
    // Col 7: 5 not possible in first 3 cells (box 2), possible in the others
    for r in 0..9 {
        let poss = entry(&grid, r, 7);
        if r < 3 {
            assert!(!poss.contains(&5), "Cell ({r}, 7) should NOT contain a 5: {:?}", poss);
        } else {
            assert!(poss.contains(&5), "Cell ({r}, 7) possibilities should contain a 5");
        }
    }
    // Col 0: 5 possible everywhere
    for r in 0..9 {
        let poss = entry(&grid, r, 0);
        assert!(poss.contains(&5), "Cell ({r}, 0) possibilities should contain a 5");
    }
}

const HIDDEN_PAIR_GIVENS: [(usize, usize, u8); 30] = [
    (1, 0, 9), (1, 2, 4), (1, 3, 6), (1, 5, 7),
    (2, 1, 7), (2, 2, 6), (2, 3, 8), (2, 5, 4), (2, 6, 1),
    (3, 0, 3), (3, 2, 9), (3, 3, 7), (3, 5, 1), (3, 7, 8),
    (4, 2, 8), (4, 6, 3),
    (5, 1, 5), (5, 3, 3), (5, 5, 8), (5, 6, 7), (5, 8, 2),
    (6, 2, 7), (6, 3, 5), (6, 5, 2), (6, 6, 6), (6, 7, 1),
    (7, 3, 4), (7, 5, 3), (7, 6, 2), (7, 8, 8),
];

#[test]
fn hidden_pair_row() {
    // The 6's and 7's in boxes 1 and 2, and column 7, mean that 6 and 7
    // must be in row 0, columns 8 and 9.
    let mut grid = SudokuGrid::empty();
    place_givens(&mut grid, &HIDDEN_PAIR_GIVENS);
    let solver = Solver::new(&mut grid).unwrap();
    // Check that the possibilities in (0, 7) and (0, 8) have many options first
    assert_eq!(
        grid.possibilities_entry(0, 7),
        Some(vec![2, 3, 4, 5, 6, 7, 9]),
        "Incorrect possibilities for (0, 7) before the pass."
    );
    assert_eq!(
        grid.possibilities_entry(0, 8),
        Some(vec![3, 4, 5, 6, 7, 9]),
        "Incorrect possibilities for (0, 8) before the pass."
    );
    solver.apply_hidden_pairs(&mut grid);
    // Check that the possibilities of (0, 7) and (0, 8) are now minimised
    assert_eq!(grid.possibilities_entry(0, 7), Some(vec![6, 7]));
    assert_eq!(grid.possibilities_entry(0, 8), Some(vec![6, 7]));
    // Check that no other cells in the row or box can contain a 6 or a 7
    for col in 0..7 {
        if let Some(poss) = grid.possibilities_entry(0, col) {
            assert!(!poss.contains(&6), "Cell (0, {col}) should not contain a 6");
            assert!(!poss.contains(&7), "Cell (0, {col}) should not contain a 7");
        }
    }
    for dr in 0..3 {
        for dc in 0..3 {
            let row = dr;
            let col = 6 + dc;
            if let Some(poss) = grid.possibilities_entry(row, col) {
                if row == 0 && (col == 7 || col == 8) {
                    continue;
                }
                assert!(!poss.contains(&6), "Cell ({row}, {col}) should not contain a 6");
                assert!(!poss.contains(&7), "Cell ({row}, {col}) should not contain a 7");
            }
        }
    }
}

#[test]
fn hidden_pair_columns() {
    let mut grid = SudokuGrid::empty();
    let givens = [
        (2, 3, 9), (2, 7, 8), (3, 1, 8), (5, 2, 9), (7, 2, 8), (8, 1, 9),
    ];
    place_givens(&mut grid, &givens);
    let solver = Solver::new(&mut grid).unwrap();
    for row in 0..2 {
        if let Some(poss) = grid.possibilities_entry(row, 0) {
            assert_eq!(poss, all_digits(), "Cell ({row}, 0) should have all possibilities");
        }
    }
    solver.apply_hidden_pairs(&mut grid);
    for row in 0..2 {
        if let Some(poss) = grid.possibilities_entry(row, 0) {
            assert_eq!(poss, vec![8, 9], "Cell ({row}, 0) should have possibilities [8, 9]");
        }
    }
}

#[test]
fn hidden_pair_box() {
    // Expecting to see that [1, 2] can only go in cells (0, 6) and (2, 8) in the top right box
    let mut grid = SudokuGrid::empty();
    let givens = [
        (1, 1, 1), (1, 5, 2), (4, 7, 2), (7, 7, 1), (0, 8, 5), (2, 6, 3),
    ];
    place_givens(&mut grid, &givens);
    let solver = Solver::new(&mut grid).unwrap();
    assert_eq!(
        grid.possibilities_entry(0, 6),
        Some(vec![1, 2, 4, 6, 7, 8, 9])
    );
    assert_eq!(
        grid.possibilities_entry(2, 8),
        Some(vec![1, 2, 4, 6, 7, 8, 9])
    );
    solver.apply_hidden_pairs(&mut grid);
    assert_eq!(grid.possibilities_entry(0, 6), Some(vec![1, 2]));
    assert_eq!(grid.possibilities_entry(2, 8), Some(vec![1, 2]));
}

#[test]
fn no_hidden_pair() {
    let mut grid = SudokuGrid::empty();
    let givens = [
        (1, 1, 1), (1, 2, 2), (2, 3, 1), (2, 4, 2), (4, 6, 1), (5, 7, 2),
    ];
    place_givens(&mut grid, &givens);
    let solver = Solver::new(&mut grid).unwrap();
    let expected: [Vec<u8>; 3] = [
        vec![2, 3, 4, 5, 6, 7, 8, 9],
        vec![1, 3, 4, 5, 6, 7, 8, 9],
        vec![1, 2, 3, 4, 5, 6, 7, 8, 9],
    ];
    for (i, &(r, c)) in [(0, 6), (0, 7), (0, 8)].iter().enumerate() {
        let poss = grid.possibilities_entry(r, c);
        assert_eq!(poss, Some(expected[i].clone()), "Cell ({r}, {c}) mismatch");
    }
    solver.apply_hidden_pairs(&mut grid);
    // Shouldn't change
    for (i, &(r, c)) in [(0, 6), (0, 7), (0, 8)].iter().enumerate() {
        let poss = grid.possibilities_entry(r, c);
        assert_eq!(poss, Some(expected[i].clone()), "Cell ({r}, {c}) mismatch");
    }
}

#[test]
fn overlapping_hidden_and_naked_pairs() {
    let mut grid = SudokuGrid::empty();
    let givens = [
        (1, 7, 1), (1, 8, 2), (3, 5, 1), (4, 5, 2), (6, 4, 1), (7, 4, 2),
    ];
    place_givens(&mut grid, &givens);
    let solver = Solver::new(&mut grid).unwrap();
    grid.set_possibilities_entry(0, 1, vec![3, 4]);
    grid.set_possibilities_entry(0, 2, vec![3, 4]);
    // Check the possibilities in row 0 from initial setup
    for col in 0..9 {
        let poss = grid.possibilities_entry(0, col);
        if col == 1 || col == 2 {
            assert_eq!(poss, Some(vec![3, 4]), "Before: cell (0, {col}) mismatch");
        } else if col == 0 || col == 3 {
            assert_eq!(poss, Some(all_digits()), "Before: cell (0, {col}) mismatch");
        } else {
            assert_eq!(
                poss,
                Some(vec![3, 4, 5, 6, 7, 8, 9]),
                "Before: cell (0, {col}) mismatch"
            );
        }
    }
    // Apply naked subsets and hidden pairs
    solver.apply_naked_subsets(&mut grid);
    solver.apply_hidden_pairs(&mut grid);
    // Check possibilities for row 0
    for col in 0..9 {
        let poss = grid.possibilities_entry(0, col);
        if col == 1 || col == 2 {
            // Naked pair
            assert_eq!(poss, Some(vec![3, 4]), "After: cell (0, {col}) mismatch");
        } else if col == 0 || col == 3 {
            // Hidden pair
            assert_eq!(poss, Some(vec![1, 2]), "After: cell (0, {col}) mismatch");
        } else {
            // The rest
            assert_eq!(
                poss,
                Some(vec![5, 6, 7, 8, 9]),
                "After: cell (0, {col}) mismatch"
            );
        }
    }
}

#[test]
fn hidden_pair_solve() {
    let mut grid = SudokuGrid::empty();
    place_givens(&mut grid, &HIDDEN_PAIR_GIVENS);
    let solver = Solver::new(&mut grid).unwrap();
    let solution = [
        [5, 8, 3, 2, 1, 9, 4, 6, 7],
        [9, 1, 4, 6, 3, 7, 8, 2, 5],
        [2, 7, 6, 8, 5, 4, 1, 3, 9],
        [3, 4, 9, 7, 2, 1, 5, 8, 6],
        [7, 2, 8, 9, 6, 5, 3, 4, 1],
        [6, 5, 1, 3, 4, 8, 7, 9, 2],
        [4, 9, 7, 5, 8, 2, 6, 1, 3],
        [1, 6, 5, 4, 9, 3, 2, 7, 8],
        [8, 3, 2, 1, 7, 6, 9, 5, 4],
    ];
    let solved = solver.solve(&mut grid, false);
    assert!(solved, "Solver should solve the puzzle");
    for (r, row) in solution.iter().enumerate() {
        for (c, val) in row.iter().enumerate() {
            assert_eq!(&grid.get_cell(r, c), val, "Cell ({r}, {c}) mismatch");
        }
    }
}
