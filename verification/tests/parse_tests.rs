use sudoku_solver::{parse_positions, parse_puzzle, KropkiDot, SudokuVariant};

#[test]
fn test_parse_positions_valid_input() {
    let input = "((0, 1), (0, 2))";
    let expected = vec![(0, 1), (0, 2)];
    let result = parse_positions(input).unwrap();
    assert_eq!(result, expected);
}

#[test]
fn test_parse_positions_empty() {
    let input = "()";
    let result = parse_positions(input);
    assert!(result.is_none());
}

#[test]
fn test_parse_positions_malformed() {
    let input = "(a, 1)";
    let result = parse_positions(input);
    assert!(result.is_none());
}

#[test]
fn test_parse_positions_out_of_range() {
    // Cell coordinates beyond the grid are an input error.
    let result = parse_positions("((10, 2))");
    assert!(result.is_none());
}

#[test]
fn test_parse_variant_lines() {
    let kropki = SudokuVariant::parse("kropki : (0, 0), (0, 1) : black");
    assert!(matches!(kropki, Some(SudokuVariant::Kropki(_))));
    let diagonal = SudokuVariant::parse("Diagonal: negative");
    assert!(matches!(diagonal, Some(SudokuVariant::Diagonal(_))));
    let killer = SudokuVariant::parse("KILLER : ((0, 1), (0, 2)): 11");
    assert!(matches!(killer, Some(SudokuVariant::Killer(_))));
    let thermo = SudokuVariant::parse("thermometer : (8, 4), (7, 3)");
    assert!(matches!(thermo, Some(SudokuVariant::Thermometer(_))));
    let unknown = SudokuVariant::parse("sandwich : (0, 0)");
    assert!(unknown.is_none());
    let whisper = SudokuVariant::parse("german whisper : (0, 0), (0, 1) : circular");
    assert!(matches!(whisper, Some(SudokuVariant::GermanWhisper(_))));
    let king = SudokuVariant::parse("king :");
    assert!(matches!(king, Some(SudokuVariant::King(_))));
    let nabner = SudokuVariant::parse("nabner : (0, 0), (0, 1)");
    assert!(matches!(nabner, Some(SudokuVariant::Nabner(_))));
}

#[test]
fn test_parse_kropki_colour() {
    if let Some(SudokuVariant::Kropki(dot)) = KropkiDot::parse("(0, 0), (0, 1) : white") {
        let white = KropkiDot::new(vec![(0, 0), (0, 1)], "white");
        assert_eq!(dot, white);
    } else {
        panic!("Failed to parse a white dot");
    }
    assert!(KropkiDot::parse("(0, 0), (0, 1) : purple").is_none());
}

#[test]
fn test_parse_puzzle_grid_only() {
    let text = "..9.....4\n.24.9....\n...4..392\n1726.89.3\n453971..8\n.9.2.37..\n...7..5.9\n.3..8....\n..1.....6\n";
    let grid = parse_puzzle(text).unwrap();
    assert_eq!(grid.get_cell(0, 2), 9);
    assert_eq!(grid.get_cell(0, 8), 4);
    assert_eq!(grid.get_cell(3, 0), 1);
    assert_eq!(grid.get_cell(8, 8), 6);
    assert_eq!(grid.get_cell(0, 0), 0);
    assert_eq!(grid.variants().len(), 0);
}

#[test]
fn test_parse_puzzle_with_variants() {
    let mut text = String::from(".........\n");
    for _ in 0..8 {
        text.push_str(".........\n");
    }
    text.push_str("killer : ((0, 1), (0, 2)): 11\n");
    text.push_str("diagonal: negative\n");
    text.push_str("solution:\n");
    text.push_str("this line is ignored after the stop marker is wrong anyway\n");
    let grid = parse_puzzle(text.as_str()).unwrap();
    assert_eq!(grid.variants().len(), 2);
}

#[test]
fn test_parse_puzzle_rejects_bad_row() {
    let text = "..x......\n.........\n.........\n.........\n.........\n.........\n.........\n.........\n.........\n";
    assert!(parse_puzzle(text).is_none());
}

#[test]
fn test_parse_puzzle_rejects_bad_variant_line() {
    let mut text = String::new();
    for _ in 0..9 {
        text.push_str(".........\n");
    }
    text.push_str("killer : nonsense\n");
    assert!(parse_puzzle(text.as_str()).is_none());
}
