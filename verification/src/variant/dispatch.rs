use vstd::prelude::*;

use crate::errors::VariantContradiction;
use crate::grid::SudokuGrid;
use crate::possmap::{cell_idx, in_bounds, PossibilityMap};
use crate::variant::arrow::Arrow;
use crate::variant::diagonal::Diagonal;
use crate::variant::entropic::Entropic;
use crate::variant::german_whisper::GermanWhisper;
use crate::variant::killer::KillerCage;
use crate::variant::king::King;
use crate::variant::knight::Knight;
use crate::variant::kropki::KropkiDot;
use crate::variant::nabner::Nabner;
use crate::variant::quadruple::QuadrupleCircle;
use crate::variant::region_sum::RegionSum;
use crate::variant::renban::Renban;
use crate::variant::shaded::Shaded;
use crate::variant::thermometer::Thermometer;
use crate::variant::util::{all_cells_seq, values_at};
use crate::variant::xv::XVDot;

verus! {

/// One extra constraint of the puzzle, of one of the supported kinds.
#[derive(Clone, Debug, PartialEq, Eq)]
pub enum SudokuVariant {
    Arrow(Arrow),
    Diagonal(Diagonal),
    Entropic(Entropic),
    GermanWhisper(GermanWhisper),
    Killer(KillerCage),
    King(King),
    Knight(Knight),
    Kropki(KropkiDot),
    Nabner(Nabner),
    QuadrupleCircles(QuadrupleCircle),
    RegionSum(RegionSum),
    Renban(Renban),
    Shaded(Shaded),
    Thermometer(Thermometer),
    XVDot(XVDot),
}

impl SudokuVariant {
    /// The inner kind's well-formedness.
    pub open spec fn wf(self) -> bool {
        match self {
            SudokuVariant::Arrow(v) => v.wf(),
            SudokuVariant::Diagonal(v) => v.wf(),
            SudokuVariant::Entropic(v) => v.wf(),
            SudokuVariant::GermanWhisper(v) => v.wf(),
            SudokuVariant::Killer(v) => v.wf(),
            SudokuVariant::King(_) => true,
            SudokuVariant::Knight(_) => true,
            SudokuVariant::Kropki(v) => v.wf(),
            SudokuVariant::Nabner(v) => v.wf(),
            SudokuVariant::QuadrupleCircles(v) => v.wf(),
            SudokuVariant::RegionSum(v) => v.wf(),
            SudokuVariant::Renban(v) => v.wf(),
            SudokuVariant::Shaded(v) => v.wf(),
            SudokuVariant::Thermometer(v) => v.wf(),
            SudokuVariant::XVDot(v) => v.wf(),
        }
    }

    /// Whether the fully assigned cells satisfy this variant's rule.
    pub open spec fn solution_ok(self, g: Seq<u8>) -> bool {
        match self {
            SudokuVariant::Arrow(v) => v.solution_ok(g),
            SudokuVariant::Diagonal(v) => v.solution_ok(g),
            SudokuVariant::Entropic(v) => v.solution_ok(g),
            SudokuVariant::GermanWhisper(v) => v.solution_ok(g),
            SudokuVariant::Killer(v) => v.solution_ok(g),
            SudokuVariant::King(_) => King::solution_ok(g),
            SudokuVariant::Knight(_) => Knight::solution_ok(g),
            SudokuVariant::Kropki(v) => v.solution_ok(g),
            SudokuVariant::Nabner(v) => v.solution_ok(g),
            SudokuVariant::QuadrupleCircles(v) => v.solution_ok(g),
            SudokuVariant::RegionSum(v) => v.solution_ok(g),
            SudokuVariant::Renban(v) => v.solution_ok(g),
            SudokuVariant::Shaded(v) => v.solution_ok(g),
            SudokuVariant::Thermometer(v) => v.solution_ok(g),
            SudokuVariant::XVDot(v) => v.solution_ok(g),
        }
    }

    /// Whether placing `value` at `(row, col)` observably keeps this
    /// variant's rule satisfiable.
    pub open spec fn is_valid_spec(self, g: Seq<u8>, row: usize, col: usize, value: u8) -> bool {
        match self {
            SudokuVariant::Arrow(v) => v.is_valid_spec(g, row, col, value),
            SudokuVariant::Diagonal(v) => v.is_valid_spec(g, row, col, value),
            SudokuVariant::Entropic(v) => v.is_valid_spec(g, row, col, value),
            SudokuVariant::GermanWhisper(v) => v.is_valid_spec(g, row, col, value),
            SudokuVariant::Killer(v) => v.is_valid_spec(g, row, col, value),
            SudokuVariant::King(_) => King::is_valid_spec(g, row, col, value),
            SudokuVariant::Knight(_) => Knight::is_valid_spec(g, row, col, value),
            SudokuVariant::Kropki(v) => v.is_valid_spec(g, row, col, value),
            SudokuVariant::Nabner(v) => v.is_valid_spec(g, row, col, value),
            SudokuVariant::QuadrupleCircles(v) => v.is_valid_spec(g, row, col, value),
            SudokuVariant::RegionSum(v) => v.is_valid_spec(g, row, col, value),
            SudokuVariant::Renban(v) => v.is_valid_spec(g, row, col, value),
            SudokuVariant::Shaded(v) => v.is_valid_spec(row, col, value),
            SudokuVariant::Thermometer(v) => v.is_valid_spec(g, row, col, value),
            SudokuVariant::XVDot(v) => v.is_valid_spec(g, row, col, value),
        }
    }

    /// The cells whose digits this variant can forbid.
    pub open spec fn constrained_spec(self) -> Seq<(usize, usize)> {
        match self {
            SudokuVariant::Arrow(v) => v.cells@,
            SudokuVariant::Diagonal(v) => v.cells@,
            SudokuVariant::Entropic(v) => v.cells@,
            SudokuVariant::GermanWhisper(v) => v.cells@,
            SudokuVariant::Killer(v) => v.cells@,
            SudokuVariant::King(_) => all_cells_seq(),
            SudokuVariant::Knight(_) => all_cells_seq(),
            SudokuVariant::Kropki(v) => v.cells@,
            SudokuVariant::Nabner(v) => v.cells@,
            SudokuVariant::QuadrupleCircles(v) => v.cells@,
            SudokuVariant::RegionSum(v) => v.cells@,
            SudokuVariant::Renban(v) => v.cells@,
            SudokuVariant::Shaded(v) => seq![v.cell],
            SudokuVariant::Thermometer(v) => v.cells@,
            SudokuVariant::XVDot(v) => v.cells@,
        }
    }

    /// Whether placing `value` at `(row, col)` leaves this variant
    /// observably satisfiable on the current grid.
    pub fn is_valid(&self, grid: &SudokuGrid, row: usize, col: usize, value: u8) -> (b: bool)
        requires
            self.wf(),
            grid.wf(),
            row < 9,
            col < 9,
        ensures
            b == self.is_valid_spec(grid.cells_view(), row, col, value),
    {
        match self {
            SudokuVariant::Arrow(v) => v.is_valid(grid, row, col, value),
            SudokuVariant::Diagonal(v) => v.is_valid(grid, row, col, value),
            SudokuVariant::Entropic(v) => v.is_valid(grid, row, col, value),
            SudokuVariant::GermanWhisper(v) => v.is_valid(grid, row, col, value),
            SudokuVariant::Killer(v) => v.is_valid(grid, row, col, value),
            SudokuVariant::King(v) => v.is_valid(grid, row, col, value),
            SudokuVariant::Knight(v) => v.is_valid(grid, row, col, value),
            SudokuVariant::Kropki(v) => v.is_valid(grid, row, col, value),
            SudokuVariant::Nabner(v) => v.is_valid(grid, row, col, value),
            SudokuVariant::QuadrupleCircles(v) => v.is_valid(grid, row, col, value),
            SudokuVariant::RegionSum(v) => v.is_valid(grid, row, col, value),
            SudokuVariant::Renban(v) => v.is_valid(grid, row, col, value),
            SudokuVariant::Shaded(v) => v.is_valid(grid, row, col, value),
            SudokuVariant::Thermometer(v) => v.is_valid(grid, row, col, value),
            SudokuVariant::XVDot(v) => v.is_valid(grid, row, col, value),
        }
    }

    /// Whether the fully assigned grid satisfies this variant's rule.
    pub fn validate_solution(&self, grid: &SudokuGrid) -> (b: bool)
        requires
            self.wf(),
            grid.wf(),
        ensures
            b == self.solution_ok(grid.cells_view()),
    {
        match self {
            SudokuVariant::Arrow(v) => v.validate_solution(grid),
            SudokuVariant::Diagonal(v) => v.validate_solution(grid),
            SudokuVariant::Entropic(v) => v.validate_solution(grid),
            SudokuVariant::GermanWhisper(v) => v.validate_solution(grid),
            SudokuVariant::Killer(v) => v.validate_solution(grid),
            SudokuVariant::King(v) => v.validate_solution(grid),
            SudokuVariant::Knight(v) => v.validate_solution(grid),
            SudokuVariant::Kropki(v) => v.validate_solution(grid),
            SudokuVariant::Nabner(v) => v.validate_solution(grid),
            SudokuVariant::QuadrupleCircles(v) => v.validate_solution(grid),
            SudokuVariant::RegionSum(v) => v.validate_solution(grid),
            SudokuVariant::Renban(v) => v.validate_solution(grid),
            SudokuVariant::Shaded(v) => v.validate_solution(grid),
            SudokuVariant::Thermometer(v) => v.validate_solution(grid),
            SudokuVariant::XVDot(v) => v.validate_solution(grid),
        }
    }

    /// The cells this variant constrains.
    pub fn constrained_cells(&self) -> (r: Vec<(usize, usize)>)
        ensures
            r@ == self.constrained_spec(),
    {
        match self {
            SudokuVariant::Arrow(v) => v.constrained_cells(),
            SudokuVariant::Diagonal(v) => v.constrained_cells(),
            SudokuVariant::Entropic(v) => v.constrained_cells(),
            SudokuVariant::GermanWhisper(v) => v.constrained_cells(),
            SudokuVariant::Killer(v) => v.constrained_cells(),
            SudokuVariant::King(v) => v.constrained_cells(),
            SudokuVariant::Knight(v) => v.constrained_cells(),
            SudokuVariant::Kropki(v) => v.constrained_cells(),
            SudokuVariant::Nabner(v) => v.constrained_cells(),
            SudokuVariant::QuadrupleCircles(v) => v.constrained_cells(),
            SudokuVariant::RegionSum(v) => v.constrained_cells(),
            SudokuVariant::Renban(v) => v.constrained_cells(),
            SudokuVariant::Shaded(v) => v.constrained_cells(),
            SudokuVariant::Thermometer(v) => v.constrained_cells(),
            SudokuVariant::XVDot(v) => v.constrained_cells(),
        }
    }

    /// The digits this variant alone admits at each cell it constrains, or a
    /// contradiction. Entries exist only for constrained cells, and a filled
    /// constrained cell always maps to the singleton of its value; the exact
    /// candidate sets are specified kind by kind.
    pub fn get_possibilities(&self, grid: &SudokuGrid) -> (result: Result<
        PossibilityMap,
        VariantContradiction,
    >)
        requires
            self.wf(),
            grid.wf(),
        ensures
            (result matches Ok(m) ==> m.wf()),
            (result matches Ok(m) ==> (forall|r2: int, c2: int|
                in_bounds(r2, c2) ==> ((#[trigger] m.entry(r2, c2)) is Some
                    ==> self.constrained_spec().contains(((r2 as usize), (c2 as usize)))))),
            (result matches Ok(m) ==> (forall|k: int|
                0 <= k < self.constrained_spec().len() ==> (#[trigger] values_at(
                    self.constrained_spec(),
                    grid.cells_view(),
                )[k] != 0 ==> m.entry(
                    self.constrained_spec()[k].0 as int,
                    self.constrained_spec()[k].1 as int,
                ) == Some(seq![values_at(self.constrained_spec(), grid.cells_view())[k]])))),
    {
        let result = match self {
            SudokuVariant::Arrow(v) => v.get_possibilities(grid),
            SudokuVariant::Diagonal(v) => v.get_possibilities(grid),
            SudokuVariant::Entropic(v) => v.get_possibilities(grid),
            SudokuVariant::GermanWhisper(v) => v.get_possibilities(grid),
            SudokuVariant::Killer(v) => v.get_possibilities(grid),
            SudokuVariant::King(v) => v.get_possibilities(grid),
            SudokuVariant::Knight(v) => v.get_possibilities(grid),
            SudokuVariant::Kropki(v) => v.get_possibilities(grid),
            SudokuVariant::Nabner(v) => v.get_possibilities(grid),
            SudokuVariant::QuadrupleCircles(v) => v.get_possibilities(grid),
            SudokuVariant::RegionSum(v) => v.get_possibilities(grid),
            SudokuVariant::Renban(v) => v.get_possibilities(grid),
            SudokuVariant::Shaded(v) => v.get_possibilities(grid),
            SudokuVariant::Thermometer(v) => v.get_possibilities(grid),
            SudokuVariant::XVDot(v) => v.get_possibilities(grid),
        };
        proof {
            if let SudokuVariant::Kropki(v) = self {
                if let Ok(m) = &result {
                    assert forall|r2: int, c2: int|
                        in_bounds(r2, c2) && (#[trigger] m.entry(r2, c2))
                            is Some implies self.constrained_spec().contains(
                        ((r2 as usize), (c2 as usize)),
                    ) by {
                        assert(v.cells@[0] == ((r2 as usize), (c2 as usize)) || v.cells@[1] == ((
                        r2 as usize), (c2 as usize)));
                    }
                }
            }
            if let SudokuVariant::XVDot(v) = self {
                if let Ok(m) = &result {
                    assert forall|r2: int, c2: int|
                        in_bounds(r2, c2) && (#[trigger] m.entry(r2, c2))
                            is Some implies self.constrained_spec().contains(
                        ((r2 as usize), (c2 as usize)),
                    ) by {
                        assert(v.cells@[0] == ((r2 as usize), (c2 as usize)) || v.cells@[1] == ((
                        r2 as usize), (c2 as usize)));
                    }
                }
            }
            if let SudokuVariant::Shaded(v) = self {
                if let Ok(m) = &result {
                    assert forall|r2: int, c2: int|
                        in_bounds(r2, c2) && (#[trigger] m.entry(r2, c2))
                            is Some implies self.constrained_spec().contains(
                        ((r2 as usize), (c2 as usize)),
                    ) by {
                        assert(seq![v.cell][0] == ((r2 as usize), (c2 as usize)));
                    }
                }
            }
            if self matches SudokuVariant::King(_) || self matches SudokuVariant::Knight(_) {
                if let Ok(m) = &result {
                    assert forall|r2: int, c2: int|
                        in_bounds(r2, c2) && (#[trigger] m.entry(r2, c2))
                            is Some implies self.constrained_spec().contains(
                        ((r2 as usize), (c2 as usize)),
                    ) by {
                        let k = cell_idx(r2, c2);
                        assert((r2 * 9 + c2) / 9 == r2 && (r2 * 9 + c2) % 9 == c2) by (
                        nonlinear_arith)
                            requires
                                0 <= r2 < 9 && 0 <= c2 < 9,
                        ;
                        assert(all_cells_seq()[k] == ((r2 as usize), (c2 as usize)));
                    }
                }
            }
            if let Ok(m) = &result {
                let cs = self.constrained_spec();
                let g = grid.cells_view();
                let vs = values_at(cs, g);
                assert forall|k: int|
                    0 <= k < cs.len() && #[trigger] vs[k] != 0 implies m.entry(
                    cs[k].0 as int,
                    cs[k].1 as int,
                ) == Some(seq![vs[k]]) by {
                    match self {
                        SudokuVariant::Kropki(v) => {
                            assert(k == 0 || k == 1);
                        },
                        SudokuVariant::XVDot(v) => {
                            assert(k == 0 || k == 1);
                        },
                        SudokuVariant::Shaded(v) => {
                            assert(cs[0] == v.cell);
                        },
                        SudokuVariant::King(_) => {
                            let r2 = k / 9;
                            let c2 = k % 9;
                            vstd::arithmetic::div_mod::lemma_fundamental_div_mod(k, 9);
                            vstd::arithmetic::div_mod::lemma_mod_bound(k, 9);
                            assert(0 <= r2 < 9 && 0 <= c2 < 9);
                            assert(cs[k] == (((k / 9) as usize), ((k % 9) as usize)));
                            assert(vs[k] == crate::grid::cell_at(g, r2, c2));
                        },
                        SudokuVariant::Knight(_) => {
                            let r2 = k / 9;
                            let c2 = k % 9;
                            vstd::arithmetic::div_mod::lemma_fundamental_div_mod(k, 9);
                            vstd::arithmetic::div_mod::lemma_mod_bound(k, 9);
                            assert(0 <= r2 < 9 && 0 <= c2 < 9);
                            assert(cs[k] == (((k / 9) as usize), ((k % 9) as usize)));
                            assert(vs[k] == crate::grid::cell_at(g, r2, c2));
                        },
                        _ => {},
                    }
                }
            }
        }
        result
    }
}

} // verus!
