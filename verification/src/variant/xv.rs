use vstd::prelude::*;
use vstd::string::StringSliceAdditionalSpecFns;


use crate::digits::is_digit;
use crate::errors::VariantContradiction;
use crate::grid::{cell_at, SudokuGrid};
use crate::possmap::{full_digits, in_bounds, PossibilityMap};
use crate::variant::util::{contains_pos, copy_positions, pos_list_wf};

verus! {

/// The flavour of an XV dot: X asks the two digits to sum to 10, V to 5.
#[derive(Clone, Copy, Debug, PartialEq, Eq)]
pub enum XVFlavour {
    X,
    V,
}

/// The target sum of the flavour.
pub open spec fn xv_target(flavour: XVFlavour) -> int {
    match flavour {
        XVFlavour::X => 10,
        XVFlavour::V => 5,
    }
}

/// The relation an XV dot imposes on the two digits it joins.
pub open spec fn xv_rel(flavour: XVFlavour, a: int, b: int) -> bool {
    a + b == xv_target(flavour)
}

/// A dot joining two adjacent cells whose digits must sum to 10 (X) or 5 (V).
#[derive(Clone, Debug, PartialEq, Eq)]
pub struct XVDot {
    pub cells: Vec<(usize, usize)>,
    pub flavour: XVFlavour,
}

impl XVDot {
    /// Exactly two in-range cells.
    pub open spec fn wf(self) -> bool {
        self.cells@.len() == 2 && pos_list_wf(self.cells@)
    }

    /// Whether placing `value` at `(row, col)` observably breaks the dot.
    pub open spec fn is_valid_spec(self, g: Seq<u8>, row: usize, col: usize, value: u8) -> bool {
        let cs = self.cells@;
        if !cs.contains((row, col)) {
            true
        } else {
            let other = if (row, col) == cs[0] {
                cs[1]
            } else {
                cs[0]
            };
            let ov = cell_at(g, other.0 as int, other.1 as int);
            if ov == 0 {
                true
            } else {
                xv_rel(self.flavour, value as int, ov as int)
            }
        }
    }

    /// Both cells are filled and their digits reach the flavour's sum.
    pub open spec fn solution_ok(self, g: Seq<u8>) -> bool {
        let v1 = cell_at(g, self.cells@[0].0 as int, self.cells@[0].1 as int);
        let v2 = cell_at(g, self.cells@[1].0 as int, self.cells@[1].1 as int);
        v1 != 0 && v2 != 0 && xv_rel(self.flavour, v1 as int, v2 as int)
    }

    /// A dot on the given pair of cells; the word "x" (in any letter case)
    /// makes an X dot and any other word a V one.
    pub fn new(cells: Vec<(usize, usize)>, xv_flavour: &str) -> (dot: XVDot)
        requires
            cells@.len() == 2,
            pos_list_wf(cells@),
        ensures
            dot.wf(),
            dot.cells@ == cells@,
            dot.flavour == (if crate::strings::lower_bytes(xv_flavour.spec_bytes())
                == crate::strings::lower_bytes("x".spec_bytes()) {
                XVFlavour::X
            } else {
                XVFlavour::V
            }),
    {
        let flavour = if crate::strings::eq_ignore_case(xv_flavour, "x") {
            XVFlavour::X
        } else {
            XVFlavour::V
        };
        XVDot { cells, flavour }
    }

    /// Whether placing `value` at `(row, col)` leaves this dot observably satisfiable.
    pub fn is_valid(&self, grid: &SudokuGrid, row: usize, col: usize, value: u8) -> (b: bool)
        requires
            self.wf(),
            grid.wf(),
            row < 9,
            col < 9,
        ensures
            b == self.is_valid_spec(grid.cells_view(), row, col, value),
    {
        if !contains_pos(&self.cells, row, col) {
            return true;
        }
        assert(crate::variant::util::pos_wf(self.cells@[0]));
        assert(crate::variant::util::pos_wf(self.cells@[1]));
        let p0 = self.cells[0];
        let p1 = self.cells[1];
        let other = if row == p0.0 && col == p0.1 {
            p1
        } else {
            p0
        };
        proof {
            if row == p0.0 && col == p0.1 {
                assert((row, col) == self.cells@[0]);
            } else {
                assert((row, col) != self.cells@[0]);
            }
        }
        let other_val = grid.get_cell(other.0, other.1);
        if other_val == 0 {
            return true;
        }
        let v = value as u32;
        let ov = other_val as u32;
        match self.flavour {
            XVFlavour::X => v + ov == 10,
            XVFlavour::V => v + ov == 5,
        }
    }

    /// Whether the fully assigned grid satisfies the dot.
    pub fn validate_solution(&self, grid: &SudokuGrid) -> (b: bool)
        requires
            self.wf(),
            grid.wf(),
        ensures
            b == self.solution_ok(grid.cells_view()),
    {
        assert(crate::variant::util::pos_wf(self.cells@[0]));
        assert(crate::variant::util::pos_wf(self.cells@[1]));
        let p0 = self.cells[0];
        let p1 = self.cells[1];
        let val1 = grid.get_cell(p0.0, p0.1) as u32;
        let val2 = grid.get_cell(p1.0, p1.1) as u32;
        if val1 == 0 || val2 == 0 {
            return false;
        }
        match self.flavour {
            XVFlavour::X => val1 + val2 == 10,
            XVFlavour::V => val1 + val2 == 5,
        }
    }

    /// The two cells the dot constrains.
    pub fn constrained_cells(&self) -> (r: Vec<(usize, usize)>)
        ensures
            r@ == self.cells@,
    {
        copy_positions(&self.cells)
    }

    /// The digits this dot alone admits at each of its two cells. When one
    /// cell is filled the other must hold exactly the complement to the
    /// flavour's sum; when that complement is no digit, a contradiction is
    /// reported. When both are empty, an X admits every digit and a V admits
    /// 1 through 4.
    pub fn get_possibilities(&self, grid: &SudokuGrid) -> (result: Result<
        PossibilityMap,
        VariantContradiction,
    >)
        requires
            self.wf(),
            grid.wf(),
        ensures
            ({
                let a = self.cells@[0];
                let b = self.cells@[1];
                let va = cell_at(grid.cells_view(), a.0 as int, a.1 as int);
                let vb = cell_at(grid.cells_view(), b.0 as int, b.1 as int);
                let t = xv_target(self.flavour);
                match result {
                    Ok(m) => {
                        &&& m.wf()
                        &&& forall|r2: int, c2: int|
                            in_bounds(r2, c2) ==> ((#[trigger] m.entry(r2, c2)) is Some <==> (
                            (r2, c2) == (a.0 as int, a.1 as int) || (r2, c2) == (
                                b.0 as int,
                                b.1 as int,
                            )))
                        &&& (va == 0 && vb == 0 ==> m.entry(a.0 as int, a.1 as int) == Some(
                            if self.flavour is X {
                                full_digits()
                            } else {
                                seq![1u8, 2u8, 3u8, 4u8]
                            },
                        ) && m.entry(b.0 as int, b.1 as int) == Some(
                            if self.flavour is X {
                                full_digits()
                            } else {
                                seq![1u8, 2u8, 3u8, 4u8]
                            },
                        ))
                        &&& (va != 0 ==> m.entry(a.0 as int, a.1 as int) == Some(seq![va]))
                        &&& (vb != 0 ==> m.entry(b.0 as int, b.1 as int) == Some(seq![vb]))
                        &&& (va == 0 && vb != 0 ==> 1 <= t - vb <= 9 && m.entry(
                            a.0 as int,
                            a.1 as int,
                        ) == Some(seq![(t - vb) as u8]))
                        &&& (vb == 0 && va != 0 ==> 1 <= t - va <= 9 && m.entry(
                            b.0 as int,
                            b.1 as int,
                        ) == Some(seq![(t - va) as u8]))
                    },
                    Err(_) => true,
                }
            }),
            ({
                let a = self.cells@[0];
                let b = self.cells@[1];
                let va = cell_at(grid.cells_view(), a.0 as int, a.1 as int);
                let vb = cell_at(grid.cells_view(), b.0 as int, b.1 as int);
                let t = xv_target(self.flavour);
                result is Err <==> ((va == 0 && vb != 0 && !(1 <= t - vb <= 9)) || (vb == 0 && va
                    != 0 && !(1 <= t - va <= 9)))
            }),
    {
        assert(crate::variant::util::pos_wf(self.cells@[0]));
        assert(crate::variant::util::pos_wf(self.cells@[1]));
        let p0 = self.cells[0];
        let p1 = self.cells[1];
        let val1 = grid.get_cell(p0.0, p0.1);
        let val2 = grid.get_cell(p1.0, p1.1);
        let mut m = PossibilityMap::new_blank();
        if val1 == 0 && val2 == 0 {
            let opts1 = match self.flavour {
                XVFlavour::X => crate::digits::all_possibilities(),
                XVFlavour::V => crate::digits::range_digits(1, 4),
            };
            let opts2 = match self.flavour {
                XVFlavour::X => crate::digits::all_possibilities(),
                XVFlavour::V => crate::digits::range_digits(1, 4),
            };
            proof {
                if self.flavour is X {
                    assert(opts1@ =~= full_digits());
                    assert(opts2@ =~= full_digits());
                } else {
                    assert(opts1@ =~= seq![1u8, 2u8, 3u8, 4u8]);
                    assert(opts2@ =~= seq![1u8, 2u8, 3u8, 4u8]);
                }
            }
            m.set_list(p0.0, p0.1, opts1);
            m.set_list(p1.0, p1.1, opts2);
            Ok(m)
        } else if val1 != 0 && val2 != 0 {
            let mut s1: Vec<u8> = Vec::new();
            s1.push(val1);
            let mut s2: Vec<u8> = Vec::new();
            s2.push(val2);
            proof {
                assert(s1@ =~= seq![val1]);
                assert(s2@ =~= seq![val2]);
                assert(is_digit(val1) && is_digit(val2));
            }
            m.set_list(p0.0, p0.1, s1);
            m.set_list(p1.0, p1.1, s2);
            Ok(m)
        } else {
            let known_value = if val1 == 0 {
                val2
            } else {
                val1
            };
            let known_pos = if val1 == 0 {
                p1
            } else {
                p0
            };
            let open_pos = if val1 == 0 {
                p0
            } else {
                p1
            };
            proof {
                assert(is_digit(known_value));
            }
            let target: u8 = match self.flavour {
                XVFlavour::X => 10,
                XVFlavour::V => 5,
            };
            if known_value >= target || target - known_value > 9 {
                let variant_name: &'static str = match self.flavour {
                    XVFlavour::X => "XVDot:X",
                    XVFlavour::V => "XVDot:V",
                };
                return Err(VariantContradiction::NoPossibilities {
                    cell: open_pos,
                    variant: variant_name,
                    reason: "no digit can face the filled partner cell".to_owned(),
                });
            }
            let complement = target - known_value;
            let mut s: Vec<u8> = Vec::new();
            s.push(known_value);
            let mut o: Vec<u8> = Vec::new();
            o.push(complement);
            proof {
                assert(s@ =~= seq![known_value]);
                assert(o@ =~= seq![complement]);
            }
            m.set_list(known_pos.0, known_pos.1, s);
            m.set_list(open_pos.0, open_pos.1, o);
            Ok(m)
        }
    }
}

} // verus!
