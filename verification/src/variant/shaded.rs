use vstd::prelude::*;

use crate::digits::is_digit;
use crate::errors::VariantContradiction;
use crate::grid::{cell_at, SudokuGrid};
use crate::possmap::{in_bounds, PossibilityMap};
use crate::variant::util::pos_wf;

verus! {

/// The shape drawn on a shaded cell: a circle asks for an odd digit, a
/// square for an even one.
#[derive(Clone, Copy, Debug, PartialEq, Eq)]
pub enum Shape {
    Circle,
    Square,
}

/// The digits the shape admits.
pub open spec fn shape_admits(shape: Shape, d: u8) -> bool {
    match shape {
        Shape::Circle => is_digit(d) && d % 2 == 1,
        Shape::Square => is_digit(d) && d % 2 == 0,
    }
}

/// The shape's digits as an ascending list.
pub open spec fn shape_digits(shape: Shape) -> Seq<u8> {
    match shape {
        Shape::Circle => seq![1u8, 3u8, 5u8, 7u8, 9u8],
        Shape::Square => seq![2u8, 4u8, 6u8, 8u8],
    }
}

/// A single cell restricted to odd or even digits.
#[derive(Clone, Copy, Debug, PartialEq, Eq)]
pub struct Shaded {
    pub cell: (usize, usize),
    pub shape: Shape,
}

impl Shaded {
    /// The cell is in range.
    pub open spec fn wf(self) -> bool {
        pos_wf(self.cell)
    }

    /// Placing `value` elsewhere is always fine; on the shaded cell the shape
    /// must admit it.
    pub open spec fn is_valid_spec(self, row: usize, col: usize, value: u8) -> bool {
        if self.cell != (row, col) {
            true
        } else {
            shape_admits(self.shape, value)
        }
    }

    /// The shaded cell holds a digit the shape admits.
    pub open spec fn solution_ok(self, g: Seq<u8>) -> bool {
        shape_admits(self.shape, cell_at(g, self.cell.0 as int, self.cell.1 as int))
    }

    /// A shaded cell of the given shape.
    pub fn new(cell: (usize, usize), shape: Shape) -> (s: Shaded)
        requires
            pos_wf(cell),
        ensures
            s.wf(),
            s.cell == cell,
            s.shape == shape,
    {
        Shaded { cell, shape }
    }

    /// Whether placing `value` at `(row, col)` respects the shading.
    pub fn is_valid(&self, _grid: &SudokuGrid, row: usize, col: usize, value: u8) -> (b: bool)
        requires
            self.wf(),
        ensures
            b == self.is_valid_spec(row, col, value),
    {
        if self.cell.0 != row || self.cell.1 != col {
            return true;
        }
        match self.shape {
            Shape::Circle => value == 1 || value == 3 || value == 5 || value == 7 || value == 9,
            Shape::Square => value == 2 || value == 4 || value == 6 || value == 8,
        }
    }

    /// Whether the shaded cell of the grid holds an admitted digit.
    pub fn validate_solution(&self, grid: &SudokuGrid) -> (b: bool)
        requires
            self.wf(),
            grid.wf(),
        ensures
            b == self.solution_ok(grid.cells_view()),
    {
        let v = grid.get_cell(self.cell.0, self.cell.1);
        match self.shape {
            Shape::Circle => v == 1 || v == 3 || v == 5 || v == 7 || v == 9,
            Shape::Square => v == 2 || v == 4 || v == 6 || v == 8,
        }
    }

    /// The one cell this variant constrains.
    pub fn constrained_cells(&self) -> (r: Vec<(usize, usize)>)
        ensures
            r@ =~= seq![self.cell],
    {
        let mut out: Vec<(usize, usize)> = Vec::new();
        out.push(self.cell);
        out
    }

    /// The digits this variant alone admits at its cell: the shape's digits
    /// when the cell is empty, the singleton of its value when it is filled
    /// and admitted, and a contradiction otherwise.
    pub fn get_possibilities(&self, grid: &SudokuGrid) -> (result: Result<
        PossibilityMap,
        VariantContradiction,
    >)
        requires
            self.wf(),
            grid.wf(),
        ensures
            ({
                let v = cell_at(grid.cells_view(), self.cell.0 as int, self.cell.1 as int);
                match result {
                    Ok(m) => {
                        &&& m.wf()
                        &&& forall|r2: int, c2: int|
                            in_bounds(r2, c2) ==> ((#[trigger] m.entry(r2, c2)) is Some <==> (
                            r2,
                            c2,
                        ) == (self.cell.0 as int, self.cell.1 as int))
                        &&& (v == 0 ==> m.entry(self.cell.0 as int, self.cell.1 as int) == Some(
                            shape_digits(self.shape),
                        ))
                        &&& (v != 0 ==> shape_admits(self.shape, v) && m.entry(
                            self.cell.0 as int,
                            self.cell.1 as int,
                        ) == Some(seq![v]))
                    },
                    Err(_) => v != 0 && !shape_admits(self.shape, v),
                }
            }),
    {
        let v = grid.get_cell(self.cell.0, self.cell.1);
        let mut m = PossibilityMap::new_blank();
        if v == 0 {
            let mut digits: Vec<u8> = Vec::new();
            match self.shape {
                Shape::Circle => {
                    digits.push(1);
                    digits.push(3);
                    digits.push(5);
                    digits.push(7);
                    digits.push(9);
                },
                Shape::Square => {
                    digits.push(2);
                    digits.push(4);
                    digits.push(6);
                    digits.push(8);
                },
            }
            proof {
                assert(digits@ =~= shape_digits(self.shape));
            }
            m.set_list(self.cell.0, self.cell.1, digits);
            Ok(m)
        } else {
            let admitted = match self.shape {
                Shape::Circle => v == 1 || v == 3 || v == 5 || v == 7 || v == 9,
                Shape::Square => v == 2 || v == 4 || v == 6 || v == 8,
            };
            if admitted {
                let mut s: Vec<u8> = Vec::new();
                s.push(v);
                proof {
                    assert(s@ =~= seq![v]);
                }
                m.set_list(self.cell.0, self.cell.1, s);
                Ok(m)
            } else {
                Err(VariantContradiction::NoPossibilities {
                    cell: self.cell,
                    variant: "ShadedCell",
                    reason: "the placed digit has the wrong parity for the shading".to_owned(),
                })
            }
        }
    }
}

} // verus!
