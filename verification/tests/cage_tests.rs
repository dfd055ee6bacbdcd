use sudoku_solver::{KillerCage, Nabner, QuadrupleCircle, Shaded, Shape, SudokuGrid, SudokuVariant};

fn set(grid: &mut SudokuGrid, r: usize, c: usize, v: u8) {
    let _ = grid.set_cell(r, c, v);
}

#[test]
fn test_possible_values() {
    let tests: [(Vec<(usize, usize)>, u8, Vec<u8>); 3] = [
        (vec![(0, 0), (0, 1)], 17, vec![8, 9]),
        (vec![(0, 0), (0, 1), (0, 2)], 6, vec![1, 2, 3]),
        (vec![(0, 0), (0, 1)], 10, vec![1, 2, 3, 4, 6, 7, 8, 9]),
    ];
    for (idx, (cells, sum, expected_possible_values)) in tests.iter().enumerate() {
        let cage = KillerCage::new(cells.clone(), *sum);
        assert_eq!(
            cage.possible_values,
            *expected_possible_values,
            "Case {} failed. Expected possible values: {:?}. Got: {:?}",
            idx + 1,
            expected_possible_values,
            cage.possible_values
        );
    }
}

#[test]
fn test_possible_values_sum_15_three_cells() {
    let cage = KillerCage::new(vec![(0, 0), (0, 1), (0, 2)], 15);
    // All 3-digit combinations adding to 15 with distinct digits from 1-9
    let mut expected: Vec<u8> = Vec::new();
    for x in 1..=9u8 {
        let mut hit = false;
        for y in 1..=9u8 {
            for z in 1..=9u8 {
                if x != y && y != z && x != z && x + y + z == 15 {
                    hit = true;
                }
            }
        }
        if hit {
            expected.push(x);
        }
    }
    assert_eq!(cage.possible_values, expected);
}

#[test]
fn test_value_not_in_possible_values() {
    let grid = SudokuGrid::empty();
    let cage = KillerCage::new(vec![(0, 0), (0, 1)], 10);
    assert!(!cage.is_valid(&grid, 0, 0, 5));
}

#[test]
fn test_repeated_value_in_cage() {
    let mut grid = SudokuGrid::empty();
    set(&mut grid, 0, 1, 2);
    let cage = KillerCage::new(vec![(0, 0), (0, 1), (0, 2)], 8);
    assert!(!cage.is_valid(&grid, 0, 0, 2));
}

#[test]
fn test_sum_too_large() {
    let mut grid = SudokuGrid::empty();
    set(&mut grid, 0, 1, 2);
    let cage = KillerCage::new(vec![(0, 0), (0, 1)], 3);
    assert!(!cage.is_valid(&grid, 0, 0, 5)); // 5 + 2 = 7 > 3
}

#[test]
fn test_partial_sum_ok() {
    let mut grid = SudokuGrid::empty();
    set(&mut grid, 0, 1, 2);
    let cage = KillerCage::new(vec![(0, 0), (0, 1)], 5);
    assert!(cage.is_valid(&grid, 0, 0, 3)); // 3 + 2 = 5
}

#[test]
fn test_current_move_outside_cage() {
    let grid = SudokuGrid::empty();
    let cage = KillerCage::new(vec![(0, 0), (0, 1)], 3);
    assert!(cage.is_valid(&grid, 1, 1, 5));
}

#[test]
fn killer_test_valid() {
    let mut grid = SudokuGrid::empty();
    set(&mut grid, 0, 0, 1);
    set(&mut grid, 0, 1, 2);
    let cage = KillerCage::new(vec![(0, 0), (0, 1)], 3);
    assert!(cage.validate_solution(&grid));
}

#[test]
fn test_incomplete() {
    let mut grid = SudokuGrid::empty();
    set(&mut grid, 0, 0, 1);
    let cage = KillerCage::new(vec![(0, 0), (0, 1)], 3);
    assert!(!cage.validate_solution(&grid));
}

#[test]
fn test_incorrect_sum() {
    let mut grid = SudokuGrid::empty();
    set(&mut grid, 0, 0, 1);
    set(&mut grid, 0, 1, 2);
    let cage = KillerCage::new(vec![(0, 0), (0, 1)], 4);
    assert!(!cage.validate_solution(&grid));
}

#[test]
fn killer_test_constrained_cells() {
    let cage = KillerCage::new(vec![(1, 2), (3, 4)], 10);
    let expected = vec![(1, 2), (3, 4)];
    assert_eq!(cage.constrained_cells(), expected);
}

#[test]
fn test_parse_killer_cage() {
    if let Some(SudokuVariant::Killer(k)) = KillerCage::parse("((0, 0), (0, 1)): 10") {
        assert_eq!(k.total, 10);
        assert_eq!(k.cells, vec![(0, 0), (0, 1)]);
    } else {
        panic!("Failed to parse valid KillerCage string");
    }
}

#[test]
fn test_cell_not_in_cage() {
    let cage = KillerCage::new(vec![(0, 0), (0, 1)], 10);
    let mut grid = SudokuGrid::empty();
    set(&mut grid, 2, 2, 5); // Not in cage
    let result = cage.get_possibilities(&grid).unwrap();
    assert!(result.get_list(2, 2).is_none());
}

#[test]
fn killer_test_get_possibilities_basic() {
    let mut grid = SudokuGrid::empty();
    set(&mut grid, 0, 0, 1);
    let cage = KillerCage::new(vec![(0, 0), (0, 1)], 4);
    let result = cage.get_possibilities(&grid).unwrap();
    assert_eq!(result.get_list(0, 1), Some(vec![3]));
    assert_eq!(result.get_list(0, 0), Some(vec![1]));
}

#[test]
fn test_invalid_move_exceeds_sum() {
    let mut grid = SudokuGrid::empty();
    set(&mut grid, 0, 0, 5); // Too big for sum of 4
    let cage = KillerCage::new(vec![(0, 0), (0, 1)], 4);
    let result = cage.get_possibilities(&grid);
    assert!(result.is_err());
}

#[test]
fn test_three_cells_partial_assignment() {
    let mut grid = SudokuGrid::empty();
    set(&mut grid, 0, 0, 3);
    let cage = KillerCage::new(vec![(0, 0), (0, 1), (0, 2)], 10);
    let result = cage.get_possibilities(&grid).unwrap();
    // Valid remaining pairs sum to 7 and exclude the placed 3.
    let expected = vec![1, 2, 5, 6];
    assert_eq!(result.get_list(0, 1), Some(expected.clone()));
    assert_eq!(result.get_list(0, 2), Some(expected));
}

#[test]
fn test_cage_filled() {
    let mut grid = SudokuGrid::empty();
    set(&mut grid, 0, 0, 3);
    set(&mut grid, 0, 1, 7);
    let cage = KillerCage::new(vec![(0, 0), (0, 1), (0, 2)], 10);
    let result = cage.get_possibilities(&grid);
    assert!(result.is_err());
}

fn get_test_circle(required: Vec<u8>, is_anti: bool) -> QuadrupleCircle {
    QuadrupleCircle::new(vec![(1, 1), (1, 2), (2, 1), (2, 2)], required, is_anti)
}

fn check_all_possibilities_other_than_first_cell(
    result: &Result<sudoku_solver::PossibilityMap, sudoku_solver::VariantContradiction>,
    first_cell_value: u8,
) {
    assert!(result.is_ok());
    let result = result.as_ref().unwrap();
    let expected: Vec<u8> = (1..=9).collect();
    assert_eq!(result.count_entries(), 4);
    assert_eq!(result.get_list(1, 1).unwrap(), vec![first_cell_value]);
    assert_eq!(result.get_list(1, 2).unwrap(), expected);
    assert_eq!(result.get_list(2, 1).unwrap(), expected);
    assert_eq!(result.get_list(2, 2).unwrap(), expected);
}

#[test]
fn test_one_required_digit_one_cell_filled_valid() {
    let mut grid = SudokuGrid::empty();
    let circle = get_test_circle(vec![5], false);
    set(&mut grid, 1, 1, 5);
    let result = circle.get_possibilities(&grid);
    check_all_possibilities_other_than_first_cell(&result, 5);
}

#[test]
fn test_one_required_digit_unsatisfied() {
    let mut grid = SudokuGrid::empty();
    let circle = get_test_circle(vec![5], false);
    set(&mut grid, 1, 1, 3);
    let result = circle.get_possibilities(&grid);
    check_all_possibilities_other_than_first_cell(&result, 3);
}

#[test]
fn test_multiple_required_digits_one_satisfied() {
    let mut grid = SudokuGrid::empty();
    let circle = get_test_circle(vec![4, 7], false);
    set(&mut grid, 1, 1, 4);
    let result = circle.get_possibilities(&grid);
    check_all_possibilities_other_than_first_cell(&result, 4);
}

#[test]
fn test_impossible_to_satisfy() {
    let mut grid = SudokuGrid::empty();
    let circle = get_test_circle(vec![7, 8], false);
    set(&mut grid, 1, 1, 1);
    set(&mut grid, 1, 2, 2);
    set(&mut grid, 2, 1, 3);
    let result = circle.get_possibilities(&grid);
    assert!(result.is_err());
}

#[test]
fn test_anti_valid_state_excludes_banned_digits() {
    let mut grid = SudokuGrid::empty();
    set(&mut grid, 1, 1, 1);
    let circle = get_test_circle(vec![4, 5, 6, 7], true);
    let result = circle.get_possibilities(&grid);
    assert!(result.is_ok());
    let result = result.unwrap();
    assert_eq!(result.count_entries(), 4);
    assert_eq!(result.get_list(1, 1).unwrap(), vec![1]);
    for cell in [(1, 2), (2, 1), (2, 2)] {
        assert_eq!(result.get_list(cell.0, cell.1).unwrap(), vec![1, 2, 3, 8, 9]);
    }
}

#[test]
fn test_quadruple_anti_rule_excludes_value() {
    let mut grid = SudokuGrid::empty();
    set(&mut grid, 1, 1, 5);
    let circle = get_test_circle(vec![5], true);
    let result = circle.get_possibilities(&grid);
    // Already invalid: a banned digit is placed
    assert!(result.is_err());
}

#[test]
fn test_corner_case() {
    let mut grid = SudokuGrid::empty();
    set(&mut grid, 0, 0, 2);
    let circle = QuadrupleCircle::new(vec![(0, 0), (0, 1), (1, 0)], vec![7], false);
    let result = circle.get_possibilities(&grid);
    assert!(result.is_ok());
    let result = result.unwrap();
    assert_eq!(result.count_entries(), 3);
    assert_eq!(result.get_list(0, 0).unwrap(), vec![2]);
    for cell in [(0, 1), (1, 0)] {
        assert!(result.get_list(cell.0, cell.1).unwrap().contains(&7));
    }
}

#[test]
fn shaded_test_valid() {
    let grid = SudokuGrid::empty();
    let shaded = Shaded::new((0, 0), Shape::Square);
    for value in [2, 4, 6, 8] {
        assert!(shaded.is_valid(&grid, 0, 0, value));
    }
    let shaded = Shaded::new((0, 0), Shape::Circle);
    for value in [1, 3, 5, 7, 9] {
        assert!(shaded.is_valid(&grid, 0, 0, value));
    }
}

#[test]
fn test_invalid() {
    let grid = SudokuGrid::empty();
    let shaded = Shaded::new((0, 0), Shape::Square);
    for value in [0, 1, 3, 5, 7, 9] {
        assert!(!shaded.is_valid(&grid, 0, 0, value));
    }
    let shaded = Shaded::new((0, 0), Shape::Circle);
    for value in [0, 2, 4, 6, 8] {
        assert!(!shaded.is_valid(&grid, 0, 0, value));
    }
}

#[test]
fn shaded_test_unconstrained_cell() {
    let grid = SudokuGrid::empty();
    let shaded = Shaded::new((0, 0), Shape::Square);
    assert!(shaded.is_valid(&grid, 1, 1, 1));
}

#[test]
fn shaded_test_valid_solution() {
    let mut grid = SudokuGrid::empty();
    let shaded = Shaded::new((0, 0), Shape::Circle);
    for value in [1, 3, 5, 7, 9] {
        set(&mut grid, 0, 0, value);
        assert!(shaded.validate_solution(&grid));
        set(&mut grid, 0, 0, 0);
    }
}

#[test]
fn test_invalid_solution() {
    let mut grid = SudokuGrid::empty();
    let shaded = Shaded::new((0, 0), Shape::Square);
    for value in [1, 3, 5, 7, 9] {
        set(&mut grid, 0, 0, value);
        assert!(!shaded.validate_solution(&grid));
        set(&mut grid, 0, 0, 0);
    }
}

#[test]
fn test_square() {
    let mut grid = SudokuGrid::empty();
    let square = Shaded::new((0, 0), Shape::Square);
    set(&mut grid, 0, 0, 6);
    let result = square.get_possibilities(&grid);
    assert!(result.is_ok());
    let result = result.unwrap();
    assert_eq!(result.count_entries(), 1);
    assert_eq!(result.get_list(0, 0), Some(vec![6]));
}

#[test]
fn test_circle() {
    let mut grid = SudokuGrid::empty();
    let circle = Shaded::new((0, 0), Shape::Circle);
    set(&mut grid, 0, 0, 5);
    let result = circle.get_possibilities(&grid);
    assert!(result.is_ok());
    let result = result.unwrap();
    assert_eq!(result.count_entries(), 1);
    assert_eq!(result.get_list(0, 0), Some(vec![5]));
}

#[test]
fn shaded_candidates_unconstrained_cell() {
    let mut grid = SudokuGrid::empty();
    let shaded = Shaded::new((0, 0), Shape::Circle);
    set(&mut grid, 1, 1, 5);
    let result = shaded.get_possibilities(&grid);
    assert!(result.is_ok());
    let result = result.unwrap();
    assert_eq!(result.count_entries(), 1);
    assert_eq!(result.get_list(0, 0), Some(vec![1, 3, 5, 7, 9]));
}

#[test]
fn test_cell_set_success() {
    let mut grid = SudokuGrid::empty();
    let shaded = Shaded::new((0, 0), Shape::Circle);
    set(&mut grid, 0, 0, 3);
    let result = shaded.get_possibilities(&grid);
    assert!(result.is_ok());
    let result = result.unwrap();
    assert_eq!(result.count_entries(), 1);
    assert_eq!(result.get_list(0, 0).unwrap(), vec![3]);
}

#[test]
fn test_cell_set_fail() {
    let mut grid = SudokuGrid::empty();
    let shaded = Shaded::new((0, 0), Shape::Circle);
    set(&mut grid, 0, 0, 2);
    let result = shaded.get_possibilities(&grid);
    assert!(matches!(
        result,
        Err(sudoku_solver::VariantContradiction::NoPossibilities { cell: (0, 0), .. })
    ));
}

#[test]
fn nabner_test_valid_proposal() {
    let nabner = Nabner::new(vec![(0, 0), (0, 1), (0, 2)]);
    let mut grid = SudokuGrid::empty();
    set(&mut grid, 0, 1, 4);
    set(&mut grid, 0, 2, 6);
    assert!(nabner.is_valid(&grid, 0, 0, 8));
    assert!(nabner.is_valid(&grid, 0, 0, 9));
    assert!(nabner.is_valid(&grid, 0, 0, 1));
    assert!(nabner.is_valid(&grid, 0, 0, 2));
}

#[test]
fn nabner_test_invalid_proposal_duplicate() {
    let nabner = Nabner::new(vec![(0, 0), (0, 1), (0, 2)]);
    let mut grid = SudokuGrid::empty();
    set(&mut grid, 0, 1, 4);
    set(&mut grid, 0, 2, 6);
    assert!(!nabner.is_valid(&grid, 0, 0, 4));
    assert!(!nabner.is_valid(&grid, 0, 0, 6));
}

#[test]
fn test_invalid_proposal_sequence() {
    let nabner = Nabner::new(vec![(0, 0), (0, 1), (0, 2)]);
    let mut grid = SudokuGrid::empty();
    set(&mut grid, 0, 1, 4);
    set(&mut grid, 0, 2, 6);
    assert!(!nabner.is_valid(&grid, 0, 0, 3));
    assert!(!nabner.is_valid(&grid, 0, 0, 5));
    assert!(!nabner.is_valid(&grid, 0, 0, 7));
}

#[test]
fn nabner_test_valid_proposal_incomplete() {
    let nabner = Nabner::new(vec![(0, 0), (0, 1), (0, 2), (0, 3)]);
    let mut grid = SudokuGrid::empty();
    set(&mut grid, 0, 1, 4);
    set(&mut grid, 0, 2, 6);
    assert!(nabner.is_valid(&grid, 0, 0, 8), "Should be valid proposal");
    assert!(nabner.is_valid(&grid, 0, 0, 9), "Should be valid proposal");
    assert!(nabner.is_valid(&grid, 0, 0, 1), "Should be valid proposal");
    assert!(nabner.is_valid(&grid, 0, 0, 2), "Should be valid proposal");
    assert!(nabner.is_valid(&grid, 0, 3, 8), "Should be valid proposal");
    assert!(nabner.is_valid(&grid, 0, 3, 9), "Should be valid proposal");
    assert!(nabner.is_valid(&grid, 0, 3, 1), "Should be valid proposal");
    assert!(nabner.is_valid(&grid, 0, 3, 2), "Should be valid proposal");
}

#[test]
fn nabner_test_invalid_proposal_incomplete() {
    let nabner = Nabner::new(vec![(0, 0), (0, 1), (0, 2), (0, 3)]);
    let mut grid = SudokuGrid::empty();
    set(&mut grid, 0, 1, 4);
    set(&mut grid, 0, 2, 6);
    for val in 3..=7 {
        assert!(!nabner.is_valid(&grid, 0, 0, val), "Should be invalid proposal");
        assert!(!nabner.is_valid(&grid, 0, 3, val), "Should be invalid proposal");
    }
}

#[test]
fn test_valid_not_on_line() {
    let nabner = Nabner::new(vec![(0, 0), (0, 1), (0, 2)]);
    let grid = SudokuGrid::empty();
    assert!(nabner.is_valid(&grid, 1, 1, 5));
}

#[test]
fn nabner_test_single_cell_valid() {
    let nabner = Nabner::new(vec![(4, 4)]);
    let mut grid = SudokuGrid::empty();
    set(&mut grid, 4, 4, 5);
    assert!(nabner.validate_solution(&grid));
}

#[test]
fn test_max_length_line_success() {
    let nabner = Nabner::new(vec![(0, 0), (0, 1), (0, 2), (0, 3), (0, 4)]);
    let mut grid = SudokuGrid::empty();
    set(&mut grid, 0, 0, 5);
    set(&mut grid, 0, 1, 9);
    set(&mut grid, 0, 2, 3);
    set(&mut grid, 0, 3, 1);
    set(&mut grid, 0, 4, 7);
    assert!(nabner.validate_solution(&grid));

    let nabner = Nabner::new(vec![(0, 0), (0, 1), (0, 2), (0, 3)]);
    let mut grid = SudokuGrid::empty();
    set(&mut grid, 0, 0, 4);
    set(&mut grid, 0, 1, 2);
    set(&mut grid, 0, 2, 6);
    set(&mut grid, 0, 3, 8);
    assert!(nabner.validate_solution(&grid));
}

#[test]
fn test_line_incomplete() {
    let nabner = Nabner::new(vec![(0, 0), (0, 1)]);
    let mut grid = SudokuGrid::empty();
    set(&mut grid, 0, 1, 3);
    assert!(!nabner.validate_solution(&grid));
}

#[test]
fn test_line_with_duplicates() {
    let nabner = Nabner::new(vec![(0, 0), (0, 1)]);
    let mut grid = SudokuGrid::empty();
    set(&mut grid, 0, 1, 3);
    set(&mut grid, 0, 0, 3);
    assert!(!nabner.validate_solution(&grid));
}

#[test]
fn test_line_with_consecutive() {
    let nabner = Nabner::new(vec![(0, 0), (0, 1)]);
    let mut grid = SudokuGrid::empty();
    set(&mut grid, 0, 1, 3);
    set(&mut grid, 0, 0, 4);
    assert!(!nabner.validate_solution(&grid));
    set(&mut grid, 0, 0, 2);
    assert!(!nabner.validate_solution(&grid));
}

#[test]
fn test_single_option_remaining() {
    let nabner = Nabner::new(vec![(0, 0), (0, 1), (0, 2), (0, 3)]);
    let mut grid = SudokuGrid::empty();
    set(&mut grid, 0, 0, 4);
    set(&mut grid, 0, 1, 2);
    set(&mut grid, 0, 2, 7);
    let result = nabner.get_possibilities(&grid).unwrap();
    assert_eq!(result.get_list(0, 3), Some(vec![9]));
}

#[test]
fn test_many_possibilities() {
    let nabner = Nabner::new(vec![(0, 0), (0, 1), (0, 2), (0, 3)]);
    let mut grid = SudokuGrid::empty();
    set(&mut grid, 0, 0, 4);
    let expected = vec![1, 2, 6, 7, 8, 9];
    let result = nabner.get_possibilities(&grid).unwrap();
    for cell in [(0, 1), (0, 2), (0, 3)] {
        assert_eq!(result.get_list(cell.0, cell.1).unwrap(), expected);
    }
}
