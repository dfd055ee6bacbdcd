use sudoku_solver::{
    Arrow, Diagonal, KillerCage, KropkiDot, Solver, SudokuGrid, SudokuVariant, Thermometer,
};

fn set(grid: &mut SudokuGrid, r: usize, c: usize, v: u8) {
    let _ = grid.set_cell(r, c, v);
}

#[test]
fn classic_solve_from_text() {
    // A classic puzzle given as text; the solver must fill it completely.
    let text = "..9.....4\n.24.9....\n...4..392\n1726.89.3\n453971..8\n.9.2.37..\n...7..5.9\n.3..8....\n..1.....6\n";
    let mut grid = sudoku_solver::parse_puzzle(text).unwrap();
    let solver = Solver::new(&mut grid).unwrap();
    assert!(solver.solve(&mut grid, false));
    assert!(grid.is_board_valid());
    // The givens are kept.
    assert_eq!(grid.get_cell(0, 2), 9);
    assert_eq!(grid.get_cell(0, 8), 4);
    assert_eq!(grid.get_cell(4, 0), 4);
    assert_eq!(grid.get_cell(8, 8), 6);
}

#[test]
fn draft_day_solve() {
    // An empty grid constrained by a negative diagonal, eight killer cages
    // and two thermometers has exactly the known solution.
    let mut grid = SudokuGrid::empty();
    grid.add_variant(SudokuVariant::Diagonal(Diagonal::new(true)));
    let cages: [(Vec<(usize, usize)>, u8); 8] = [
        (vec![(0, 1), (0, 2)], 11),
        (vec![(1, 0), (2, 0)], 5),
        (vec![(0, 6), (0, 7), (1, 6)], 6),
        (vec![(1, 8), (2, 7), (2, 8)], 24),
        (vec![(4, 3), (5, 3), (5, 4)], 13),
        (vec![(6, 0), (6, 1), (7, 0)], 24),
        (vec![(6, 7), (6, 8)], 11),
        (vec![(8, 7), (8, 8)], 8),
    ];
    for (cells, sum) in cages {
        grid.add_variant(SudokuVariant::Killer(KillerCage::new(cells, sum)));
    }
    grid.add_variant(SudokuVariant::Thermometer(Thermometer::new(vec![
        (8, 4),
        (7, 3),
        (6, 2),
        (5, 1),
        (4, 0),
        (3, 0),
    ])));
    grid.add_variant(SudokuVariant::Thermometer(Thermometer::new(vec![
        (6, 7),
        (5, 7),
        (4, 6),
        (3, 5),
        (2, 4),
        (1, 3),
    ])));
    // The known solution satisfies every variant.
    let solution_probe: [[u8; 9]; 9] = [
        [8, 9, 2, 6, 7, 5, 3, 1, 4],
        [1, 5, 7, 9, 4, 3, 2, 6, 8],
        [4, 3, 6, 1, 8, 2, 5, 9, 7],
        [6, 2, 1, 4, 5, 7, 9, 8, 3],
        [5, 7, 8, 3, 9, 1, 6, 4, 2],
        [3, 4, 9, 8, 2, 6, 7, 5, 1],
        [7, 8, 3, 5, 6, 4, 1, 2, 9],
        [9, 1, 5, 2, 3, 8, 4, 7, 6],
        [2, 6, 4, 7, 1, 9, 8, 3, 5],
    ];
    {
        let mut probe = SudokuGrid::empty();
        for v in grid.variants().iter() {
            probe.add_variant(v.clone());
        }
        for (r, row) in solution_probe.iter().enumerate() {
            for (c, val) in row.iter().enumerate() {
                set(&mut probe, r, c, *val);
            }
        }
        assert!(probe.is_board_valid());
        for v in probe.variants().clone().iter() {
            assert!(v.validate_solution(&probe), "variant rejected the known solution: {:?}", v);
        }
    }
    let solver = Solver::new(&mut grid).unwrap();
    assert!(solver.solve(&mut grid, false));
    let solution: [[u8; 9]; 9] = [
        [8, 9, 2, 6, 7, 5, 3, 1, 4],
        [1, 5, 7, 9, 4, 3, 2, 6, 8],
        [4, 3, 6, 1, 8, 2, 5, 9, 7],
        [6, 2, 1, 4, 5, 7, 9, 8, 3],
        [5, 7, 8, 3, 9, 1, 6, 4, 2],
        [3, 4, 9, 8, 2, 6, 7, 5, 1],
        [7, 8, 3, 5, 6, 4, 1, 2, 9],
        [9, 1, 5, 2, 3, 8, 4, 7, 6],
        [2, 6, 4, 7, 1, 9, 8, 3, 5],
    ];
    for (r, row) in solution.iter().enumerate() {
        for (c, val) in row.iter().enumerate() {
            assert_eq!(&grid.get_cell(r, c), val, "Cell ({r}, {c}) mismatch");
        }
    }
}

#[test]
fn arrow_head_checks() {
    // Arrow head=(0,0), shaft [(0,1),(0,2)] with 3 and 4 placed: a 7 in the
    // head is locally valid, an 8 is not, and head 7 validates the solution.
    let arrow = Arrow::new(vec![(0, 0), (0, 1), (0, 2)]);
    let mut grid = SudokuGrid::empty();
    set(&mut grid, 0, 1, 3);
    set(&mut grid, 0, 2, 4);
    assert!(arrow.is_valid(&grid, 0, 0, 7));
    assert!(!arrow.is_valid(&grid, 0, 0, 8));
    set(&mut grid, 0, 0, 7);
    assert!(arrow.validate_solution(&grid));
}

#[test]
fn kropki_white_dot_with_known_eight() {
    // White dot on {(0,0),(0,1)} with (0,0)=8: the open cell may hold 7 or 9.
    let dot = KropkiDot::new(vec![(0, 0), (0, 1)], "white");
    let mut grid = SudokuGrid::empty();
    set(&mut grid, 0, 0, 8);
    let result = dot.get_possibilities(&grid).unwrap();
    assert_eq!(result.get_list(0, 1).unwrap(), vec![7, 9]);
}

#[test]
fn hidden_pair_textbook_example() {
    // After one hidden-pair pass the two open cells of row 0's right box hold
    // exactly the digits 6 and 7.
    let mut grid = SudokuGrid::empty();
    let givens = [
        (1, 0, 9),
        (1, 2, 4),
        (1, 3, 6),
        (1, 5, 7),
        (2, 1, 7),
        (2, 2, 6),
        (2, 3, 8),
        (2, 5, 4),
        (2, 6, 1),
        (3, 0, 3),
        (3, 2, 9),
        (3, 3, 7),
        (3, 5, 1),
        (3, 7, 8),
        (4, 2, 8),
        (4, 6, 3),
        (5, 1, 5),
        (5, 3, 3),
        (5, 5, 8),
        (5, 6, 7),
        (5, 8, 2),
        (6, 2, 7),
        (6, 3, 5),
        (6, 5, 2),
        (6, 6, 6),
        (6, 7, 1),
        (7, 3, 4),
        (7, 5, 3),
        (7, 6, 2),
        (7, 8, 8),
    ];
    for &(r, c, v) in &givens {
        set(&mut grid, r, c, v);
    }
    let solver = Solver::new(&mut grid).unwrap();
    solver.apply_hidden_pairs(&mut grid);
    assert_eq!(grid.possibilities_entry(0, 7), Some(vec![6, 7]));
    assert_eq!(grid.possibilities_entry(0, 8), Some(vec![6, 7]));
}

#[test]
fn budget_exhaustion_restores_grid() {
    // A search stopped by its step budget reports failure and leaves the
    // grid's cells and candidate map exactly as they were.
    let mut grid = SudokuGrid::empty();
    let solver = Solver::new(&mut grid).unwrap();
    let tiny = Solver::with_max_steps(5);
    assert!(!tiny.solve(&mut grid, false));
    for r in 0..9 {
        for c in 0..9 {
            assert_eq!(grid.get_cell(r, c), 0);
            assert_eq!(
                grid.possibilities_entry(r, c),
                Some(vec![1, 2, 3, 4, 5, 6, 7, 8, 9])
            );
        }
    }
    // With the default budget, the empty grid is solvable.
    assert!(solver.solve(&mut grid, false));
    assert!(grid.is_board_valid());
}

#[test]
fn unsolvable_grid_is_restored() {
    // Two 1s confined to one row by the candidate map cannot both be placed:
    // the search fails and restores the entry state.
    let mut grid = SudokuGrid::empty();
    let _ = Solver::new(&mut grid).unwrap();
    grid.set_possibilities_entry(0, 0, vec![1]);
    grid.set_possibilities_entry(0, 1, vec![1]);
    let solver = Solver::with_max_steps(1000000);
    assert!(!solver.solve(&mut grid, false));
    assert_eq!(grid.get_cell(0, 0), 0);
    assert_eq!(grid.get_cell(0, 1), 0);
    assert_eq!(grid.possibilities_entry(0, 0), Some(vec![1]));
    assert_eq!(grid.possibilities_entry(0, 1), Some(vec![1]));
}

#[test]
fn inference_passes_idempotent_on_example() {
    // Applying the three passes a second time without an intervening
    // placement leaves this candidate map unchanged.
    let mut grid = SudokuGrid::empty();
    let solver = Solver::new(&mut grid).unwrap();
    grid.set_possibilities_entry(0, 0, vec![1, 2]);
    grid.set_possibilities_entry(0, 1, vec![1, 2]);
    solver.apply_naked_subsets(&mut grid);
    solver.apply_pointing_pairs(&mut grid);
    solver.apply_hidden_pairs(&mut grid);
    let mut snapshot: Vec<Vec<u8>> = Vec::new();
    for r in 0..9 {
        for c in 0..9 {
            snapshot.push(grid.possibilities_entry(r, c).unwrap());
        }
    }
    solver.apply_naked_subsets(&mut grid);
    solver.apply_pointing_pairs(&mut grid);
    solver.apply_hidden_pairs(&mut grid);
    let mut i = 0;
    for r in 0..9 {
        for c in 0..9 {
            assert_eq!(grid.possibilities_entry(r, c).unwrap(), snapshot[i]);
            i += 1;
        }
    }
}

#[test]
fn set_and_clear_restore_cell_value() {
    // set(r,c,v); set(r,c,0) restores the cell value; the candidate map is
    // restored by putting back a snapshot, as the solver does.
    let mut grid = SudokuGrid::empty();
    let before = grid.possibilities_snapshot();
    set(&mut grid, 4, 4, 7);
    assert_eq!(grid.get_cell(4, 4), 7);
    // Peers lost the digit from their candidate lists.
    assert!(!grid.possibilities_entry(4, 5).unwrap().contains(&7));
    set(&mut grid, 4, 4, 0);
    assert_eq!(grid.get_cell(4, 4), 0);
    // The map is not restored by the clear alone; the snapshot taken before
    // the placement still holds the original candidate lists.
    assert!(!grid.possibilities_entry(4, 5).unwrap().contains(&7));
    assert!(before.get_list(4, 5).unwrap().contains(&7));
}

#[test]
fn is_move_valid_respects_classic_rules() {
    // A digit already in the row, column or box of a cell is not a valid move.
    let mut grid = SudokuGrid::empty();
    set(&mut grid, 0, 0, 5);
    assert!(!grid.is_valid_move(0, 8, 5));
    assert!(!grid.is_valid_move(8, 0, 5));
    assert!(!grid.is_valid_move(2, 2, 5));
    assert!(grid.is_valid_move(2, 2, 6));
    assert!(grid.is_valid_move(8, 8, 5));
}

#[test]
fn relation_symmetry_on_values() {
    // Kropki, XV and whisper relations hold in either order of the two cells.
    let mut grid = SudokuGrid::empty();
    set(&mut grid, 0, 0, 3);
    set(&mut grid, 0, 1, 6);
    let black_one_way = KropkiDot::new(vec![(0, 0), (0, 1)], "black");
    let black_other_way = KropkiDot::new(vec![(0, 1), (0, 0)], "black");
    assert!(black_one_way.validate_solution(&grid));
    assert!(black_other_way.validate_solution(&grid));
    let xv_one_way = sudoku_solver::XVDot::new(vec![(0, 0), (0, 1)], "v");
    let xv_other_way = sudoku_solver::XVDot::new(vec![(0, 1), (0, 0)], "v");
    let mut vgrid = SudokuGrid::empty();
    set(&mut vgrid, 0, 0, 2);
    set(&mut vgrid, 0, 1, 3);
    assert!(xv_one_way.validate_solution(&vgrid));
    assert!(xv_other_way.validate_solution(&vgrid));
    let w_one_way = sudoku_solver::GermanWhisper::new(vec![(0, 0), (0, 1)], false);
    let w_other_way = sudoku_solver::GermanWhisper::new(vec![(0, 1), (0, 0)], false);
    let mut wgrid = SudokuGrid::empty();
    set(&mut wgrid, 0, 0, 1);
    set(&mut wgrid, 0, 1, 6);
    assert!(w_one_way.validate_solution(&wgrid));
    assert!(w_other_way.validate_solution(&wgrid));
}

#[test]
fn solver_reports_initial_contradiction() {
    // A kropki dot whose partner digit admits nothing makes the initial
    // propagation fail without mutating the grid.
    let mut grid = SudokuGrid::empty();
    grid.add_variant(SudokuVariant::Kropki(KropkiDot::new(
        vec![(0, 0), (0, 1)],
        "black",
    )));
    set(&mut grid, 0, 0, 5);
    let result = Solver::new(&mut grid);
    assert!(result.is_err());
    assert_eq!(grid.get_cell(0, 0), 5);
}

#[test]
fn possibilities_to_string_names_the_cell() {
    let mut grid = SudokuGrid::empty();
    let solver = Solver::new(&mut grid).unwrap();
    grid.set_possibilities_entry(0, 1, vec![3, 4]);
    let text = solver.possibilities_to_string(&grid, 0, 1);
    assert!(text.contains("[3, 4]"));
    set(&mut grid, 2, 2, 5);
    let text2 = solver.possibilities_to_string(&grid, 2, 2);
    assert!(text2.contains("no candidate entry"));
}
