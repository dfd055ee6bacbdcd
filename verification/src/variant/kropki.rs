use vstd::prelude::*;
use vstd::string::StringSliceAdditionalSpecFns;


use crate::digits::is_digit;
use crate::errors::VariantContradiction;
use crate::grid::{cell_at, SudokuGrid};
use crate::possmap::{full_digits, in_bounds, PossibilityMap};
use crate::variant::util::{contains_pos, copy_positions, pos_list_wf};

verus! {

/// The colour of a Kropki dot: white asks for consecutive digits, black for
/// one digit being twice the other.
#[derive(Clone, Copy, Debug, PartialEq, Eq)]
pub enum KropkiColour {
    White,
    Black,
}

/// The relation a Kropki dot imposes on the two digits it joins.
pub open spec fn kropki_rel(colour: KropkiColour, a: int, b: int) -> bool {
    match colour {
        KropkiColour::White => a == b + 1 || b == a + 1,
        KropkiColour::Black => a == 2 * b || b == 2 * a,
    }
}

/// The digits a cell may hold when its dot partner holds digit `k`.
pub open spec fn kropki_partner_opts(colour: KropkiColour, k: u8) -> Seq<u8> {
    match colour {
        KropkiColour::White => {
            let lo: Seq<u8> = if k > 1 {
                seq![(k - 1) as u8]
            } else {
                Seq::empty()
            };
            let hi: Seq<u8> = if k < 9 {
                seq![(k + 1) as u8]
            } else {
                Seq::empty()
            };
            lo + hi
        },
        KropkiColour::Black => {
            let lo: Seq<u8> = if k % 2 == 0 {
                seq![(k / 2) as u8]
            } else {
                Seq::empty()
            };
            let hi: Seq<u8> = if 2 * k < 9 {
                seq![(2 * k) as u8]
            } else {
                Seq::empty()
            };
            lo + hi
        },
    }
}

/// A Kropki dot joining two adjacent cells.
#[derive(Clone, Debug, PartialEq, Eq)]
pub struct KropkiDot {
    pub cells: Vec<(usize, usize)>,
    pub colour: KropkiColour,
}

impl KropkiDot {
    /// Exactly two in-range cells.
    pub open spec fn wf(self) -> bool {
        self.cells@.len() == 2 && pos_list_wf(self.cells@)
    }

    /// Whether placing `value` at `(row, col)` observably breaks the dot:
    /// false exactly when the other cell is filled and the relation fails.
    pub open spec fn is_valid_spec(self, g: Seq<u8>, row: usize, col: usize, value: u8) -> bool {
        let cs = self.cells@;
        if !cs.contains((row, col)) {
            true
        } else {
            let other = if (row, col) == cs[0] {
                cs[1]
            } else {
                cs[0]
            };
            let ov = cell_at(g, other.0 as int, other.1 as int);
            if ov == 0 {
                true
            } else {
                kropki_rel(self.colour, value as int, ov as int)
            }
        }
    }

    /// Both cells are filled and their digits satisfy the dot's relation.
    pub open spec fn solution_ok(self, g: Seq<u8>) -> bool {
        let v1 = cell_at(g, self.cells@[0].0 as int, self.cells@[0].1 as int);
        let v2 = cell_at(g, self.cells@[1].0 as int, self.cells@[1].1 as int);
        v1 != 0 && v2 != 0 && kropki_rel(self.colour, v1 as int, v2 as int)
    }

    /// A dot on the given pair of cells; the word "black" (in any letter
    /// case) makes a black dot and any other word a white one.
    pub fn new(cells: Vec<(usize, usize)>, colour: &str) -> (dot: KropkiDot)
        requires
            cells@.len() == 2,
            pos_list_wf(cells@),
        ensures
            dot.wf(),
            dot.cells@ == cells@,
            dot.colour == (if crate::strings::lower_bytes(colour.spec_bytes())
                == crate::strings::lower_bytes("black".spec_bytes()) {
                KropkiColour::Black
            } else {
                KropkiColour::White
            }),
    {
        let kropki_colour = if crate::strings::eq_ignore_case(colour, "black") {
            KropkiColour::Black
        } else {
            KropkiColour::White
        };
        KropkiDot { cells, colour: kropki_colour }
    }

    /// Whether placing `value` at `(row, col)` leaves this dot observably satisfiable.
    pub fn is_valid(&self, grid: &SudokuGrid, row: usize, col: usize, value: u8) -> (b: bool)
        requires
            self.wf(),
            grid.wf(),
            row < 9,
            col < 9,
        ensures
            b == self.is_valid_spec(grid.cells_view(), row, col, value),
    {
        if !contains_pos(&self.cells, row, col) {
            return true;
        }
        let p0 = self.cells[0];
        let p1 = self.cells[1];
        let other = if row == p0.0 && col == p0.1 {
            p1
        } else {
            p0
        };
        proof {
            if row == p0.0 && col == p0.1 {
                assert((row, col) == self.cells@[0]);
            } else {
                assert((row, col) != self.cells@[0]);
            }
        }
        assert(pos_list_wf(self.cells@));
        assert(crate::variant::util::pos_wf(self.cells@[0]));
        assert(crate::variant::util::pos_wf(self.cells@[1]));
        let other_val = grid.get_cell(other.0, other.1);
        if other_val == 0 {
            return true;
        }
        let v = value as u32;
        let ov = other_val as u32;
        match self.colour {
            KropkiColour::Black => v * 2 == ov || ov * 2 == v,
            KropkiColour::White => v + 1 == ov || ov + 1 == v,
        }
    }

    /// Whether the fully assigned grid satisfies the dot.
    pub fn validate_solution(&self, grid: &SudokuGrid) -> (b: bool)
        requires
            self.wf(),
            grid.wf(),
        ensures
            b == self.solution_ok(grid.cells_view()),
    {
        assert(crate::variant::util::pos_wf(self.cells@[0]));
        assert(crate::variant::util::pos_wf(self.cells@[1]));
        let p0 = self.cells[0];
        let p1 = self.cells[1];
        let val1 = grid.get_cell(p0.0, p0.1) as u32;
        let val2 = grid.get_cell(p1.0, p1.1) as u32;
        if val1 == 0 || val2 == 0 {
            return false;
        }
        match self.colour {
            KropkiColour::Black => val1 * 2 == val2 || val2 * 2 == val1,
            KropkiColour::White => val1 + 1 == val2 || val2 + 1 == val1,
        }
    }

    /// The two cells the dot constrains.
    pub fn constrained_cells(&self) -> (r: Vec<(usize, usize)>)
        ensures
            r@ == self.cells@,
    {
        copy_positions(&self.cells)
    }

    /// The digits this dot alone admits at each of its two cells: singletons
    /// for filled cells, the partner options when exactly one is filled, and
    /// every digit when both are empty. A contradiction is reported when the
    /// filled partner leaves the empty cell without options.
    pub fn get_possibilities(&self, grid: &SudokuGrid) -> (result: Result<
        PossibilityMap,
        VariantContradiction,
    >)
        requires
            self.wf(),
            grid.wf(),
        ensures
            ({
                let a = self.cells@[0];
                let b = self.cells@[1];
                let va = cell_at(grid.cells_view(), a.0 as int, a.1 as int);
                let vb = cell_at(grid.cells_view(), b.0 as int, b.1 as int);
                match result {
                    Ok(m) => {
                        &&& m.wf()
                        &&& forall|r2: int, c2: int|
                            in_bounds(r2, c2) ==> ((#[trigger] m.entry(r2, c2)) is Some <==> (
                            (r2, c2) == (a.0 as int, a.1 as int) || (r2, c2) == (
                                b.0 as int,
                                b.1 as int,
                            )))
                        &&& (va == 0 && vb == 0 ==> m.entry(a.0 as int, a.1 as int) == Some(
                            full_digits(),
                        ) && m.entry(b.0 as int, b.1 as int) == Some(full_digits()))
                        &&& (va != 0 ==> m.entry(a.0 as int, a.1 as int) == Some(seq![va]))
                        &&& (vb != 0 ==> m.entry(b.0 as int, b.1 as int) == Some(seq![vb]))
                        &&& (va == 0 && vb != 0 ==> m.entry(a.0 as int, a.1 as int) == Some(
                            kropki_partner_opts(self.colour, vb),
                        ))
                        &&& (vb == 0 && va != 0 ==> m.entry(b.0 as int, b.1 as int) == Some(
                            kropki_partner_opts(self.colour, va),
                        ))
                    },
                    Err(_) => true,
                }
            }),
            ({
                let a = self.cells@[0];
                let b = self.cells@[1];
                let va = cell_at(grid.cells_view(), a.0 as int, a.1 as int);
                let vb = cell_at(grid.cells_view(), b.0 as int, b.1 as int);
                result is Err <==> ((va == 0 && vb != 0 && kropki_partner_opts(self.colour, vb).len()
                    == 0) || (vb == 0 && va != 0 && kropki_partner_opts(self.colour, va).len()
                    == 0))
            }),
    {
        assert(crate::variant::util::pos_wf(self.cells@[0]));
        assert(crate::variant::util::pos_wf(self.cells@[1]));
        let p0 = self.cells[0];
        let p1 = self.cells[1];
        let val1 = grid.get_cell(p0.0, p0.1);
        let val2 = grid.get_cell(p1.0, p1.1);
        let mut m = PossibilityMap::new_blank();
        if val1 == 0 && val2 == 0 {
            let full1 = crate::digits::all_possibilities();
            let full2 = crate::digits::all_possibilities();
            proof {
                assert(full1@ =~= full_digits());
                assert(full2@ =~= full_digits());
            }
            m.set_list(p0.0, p0.1, full1);
            m.set_list(p1.0, p1.1, full2);
            Ok(m)
        } else if val1 != 0 && val2 != 0 {
            let mut s1: Vec<u8> = Vec::new();
            s1.push(val1);
            let mut s2: Vec<u8> = Vec::new();
            s2.push(val2);
            proof {
                assert(s1@ =~= seq![val1]);
                assert(s2@ =~= seq![val2]);
                assert(is_digit(val1) && is_digit(val2));
            }
            m.set_list(p0.0, p0.1, s1);
            m.set_list(p1.0, p1.1, s2);
            Ok(m)
        } else {
            let known_value = if val1 == 0 {
                val2
            } else {
                val1
            };
            let known_pos = if val1 == 0 {
                p1
            } else {
                p0
            };
            let open_pos = if val1 == 0 {
                p0
            } else {
                p1
            };
            proof {
                assert(is_digit(known_value));
            }
            let mut poss: Vec<u8> = Vec::new();
            match self.colour {
                KropkiColour::White => {
                    if known_value > 1 {
                        poss.push(known_value - 1);
                    }
                    if known_value < 9 {
                        poss.push(known_value + 1);
                    }
                },
                KropkiColour::Black => {
                    if known_value % 2 == 0 {
                        poss.push(known_value / 2);
                    }
                    if known_value * 2 < 9 {
                        poss.push(known_value * 2);
                    }
                },
            }
            proof {
                assert(poss@ =~= kropki_partner_opts(self.colour, known_value));
            }
            if poss.len() == 0 {
                return Err(VariantContradiction::NoPossibilities {
                    cell: open_pos,
                    variant: "KropkiDot",
                    reason: "no digit can face the filled partner cell".to_owned(),
                });
            }
            let mut s: Vec<u8> = Vec::new();
            s.push(known_value);
            proof {
                assert(s@ =~= seq![known_value]);
                assert(crate::digits::wf_digits(poss@));
            }
            m.set_list(known_pos.0, known_pos.1, s);
            m.set_list(open_pos.0, open_pos.1, poss);
            Ok(m)
        }
    }
}

} // verus!
