use vstd::prelude::*;

use crate::digits::{all_possibilities, copy_digits, is_digit, wf_digits};
use crate::errors::VariantContradiction;
use crate::grid::SudokuGrid;
use crate::possmap::{in_bounds, PossibilityMap};
use crate::variant::util::{contains_pos, copy_positions, grid_values, pos_list_wf, values_at};

verus! {

/// One of the two main diagonals; its nine cells must hold each digit once.
#[derive(Clone, Debug, PartialEq, Eq)]
pub struct Diagonal {
    pub cells: Vec<(usize, usize)>,
}

impl Diagonal {
    /// Nine in-range cells.
    pub open spec fn wf(self) -> bool {
        self.cells@.len() == 9 && pos_list_wf(self.cells@)
    }

    /// Whether digit `d` already appears on the diagonal.
    pub open spec fn uses(self, g: Seq<u8>, d: u8) -> bool {
        values_at(self.cells@, g).contains(d)
    }

    /// Placing `value` on a diagonal cell is rejected exactly when the digit
    /// already appears somewhere on the diagonal.
    pub open spec fn is_valid_spec(self, g: Seq<u8>, row: usize, col: usize, value: u8) -> bool {
        if !self.cells@.contains((row, col)) {
            true
        } else {
            !self.uses(g, value)
        }
    }

    /// All nine diagonal cells are filled with pairwise distinct digits.
    pub open spec fn solution_ok(self, g: Seq<u8>) -> bool {
        let vs = values_at(self.cells@, g);
        &&& forall|k: int| 0 <= k < vs.len() ==> #[trigger] vs[k] != 0
        &&& forall|i: int, j: int| 0 <= i < j < vs.len() ==> vs[i] != vs[j]
    }

    /// The positive (bottom-left to top-right) or negative (top-left to
    /// bottom-right) main diagonal.
    pub fn new(is_positive_diagonal: bool) -> (d: Diagonal)
        ensures
            d.wf(),
            d.cells@.len() == 9,
            forall|k: int|
                0 <= k < 9 ==> #[trigger] d.cells@[k] == if is_positive_diagonal {
                    (((8 - k) as usize), (k as usize))
                } else {
                    ((k as usize), (k as usize))
                },
    {
        let mut cells: Vec<(usize, usize)> = Vec::new();
        let mut i: usize = 0;
        while i < 9
            invariant
                0 <= i <= 9,
                cells@.len() == i,
                forall|k: int|
                    0 <= k < i ==> #[trigger] cells@[k] == if is_positive_diagonal {
                        (((8 - k) as usize), (k as usize))
                    } else {
                        ((k as usize), (k as usize))
                    },
            decreases 9 - i,
        {
            if is_positive_diagonal {
                cells.push((8 - i, i));
            } else {
                cells.push((i, i));
            }
            i += 1;
        }
        Diagonal { cells }
    }

    /// Whether placing `value` at `(row, col)` leaves the diagonal observably satisfiable.
    pub fn is_valid(&self, grid: &SudokuGrid, row: usize, col: usize, value: u8) -> (b: bool)
        requires
            self.wf(),
            grid.wf(),
            row < 9,
            col < 9,
        ensures
            b == self.is_valid_spec(grid.cells_view(), row, col, value),
    {
        if !contains_pos(&self.cells, row, col) {
            return true;
        }
        let vals = grid_values(&self.cells, grid);
        !crate::digits::contains_digit(&vals, value)
    }

    /// Whether the fully assigned grid satisfies the diagonal.
    pub fn validate_solution(&self, grid: &SudokuGrid) -> (b: bool)
        requires
            self.wf(),
            grid.wf(),
        ensures
            b == self.solution_ok(grid.cells_view()),
    {
        let vals = grid_values(&self.cells, grid);
        let mut i: usize = 0;
        while i < vals.len()
            invariant
                0 <= i <= vals@.len(),
                vals@ == values_at(self.cells@, grid.cells_view()),
                forall|k: int| 0 <= k < i ==> #[trigger] vals@[k] != 0,
                forall|k: int, j: int| 0 <= k < j < i ==> vals@[k] != vals@[j],
            decreases vals@.len() - i,
        {
            let v = vals[i];
            if v == 0 {
                proof {
                    assert(values_at(self.cells@, grid.cells_view())[i as int] == 0);
                }
                return false;
            }
            let mut j: usize = 0;
            while j < i
                invariant
                    0 <= j <= i,
                    i < vals@.len(),
                    vals@ == values_at(self.cells@, grid.cells_view()),
                    v == vals@[i as int],
                    forall|k: int| 0 <= k < j ==> vals@[k] != vals@[i as int],
                decreases i - j,
            {
                if vals[j] == v {
                    proof {
                        assert(values_at(self.cells@, grid.cells_view())[j as int] == values_at(
                            self.cells@,
                            grid.cells_view(),
                        )[i as int]);
                    }
                    return false;
                }
                j += 1;
            }
            i += 1;
        }
        true
    }

    /// The nine diagonal cells.
    pub fn constrained_cells(&self) -> (r: Vec<(usize, usize)>)
        ensures
            r@ == self.cells@,
    {
        copy_positions(&self.cells)
    }

    /// The digits this diagonal alone admits at each of its cells: the
    /// singleton of a filled cell's value, and for empty cells every digit
    /// not yet present on the diagonal.
    pub fn get_possibilities(&self, grid: &SudokuGrid) -> (result: Result<
        PossibilityMap,
        VariantContradiction,
    >)
        requires
            self.wf(),
            grid.wf(),
        ensures
            result is Ok,
            ({
                let m = result->Ok_0;
                let g = grid.cells_view();
                &&& m.wf()
                &&& forall|r2: int, c2: int|
                    in_bounds(r2, c2) ==> ((#[trigger] m.entry(r2, c2)) is Some
                        <==> self.cells@.contains(((r2 as usize), (c2 as usize))))
                &&& forall|k: int|
                    0 <= k < 9 ==> (#[trigger] values_at(self.cells@, g)[k] != 0 ==> m.entry(
                        self.cells@[k].0 as int,
                        self.cells@[k].1 as int,
                    ) == Some(seq![values_at(self.cells@, g)[k]]))
                &&& forall|k: int|
                    0 <= k < 9 ==> (#[trigger] values_at(self.cells@, g)[k] == 0 ==> (m.entry(
                        self.cells@[k].0 as int,
                        self.cells@[k].1 as int,
                    ) matches Some(l) && wf_digits(l) && (forall|d: u8|
                        l.contains(d) <==> (is_digit(d) && !self.uses(g, d)))))
            }),
    {
        let vals = grid_values(&self.cells, grid);
        // The digits not yet present anywhere on the diagonal.
        let full = all_possibilities();
        let mut open_digits: Vec<u8> = Vec::new();
        let mut di: usize = 0;
        while di < full.len()
            invariant
                0 <= di <= full@.len(),
                wf_digits(full@),
                full@.len() == 9,
                forall|k: int| 0 <= k < 9 ==> #[trigger] full@[k] == 1 + k,
                vals@ == values_at(self.cells@, grid.cells_view()),
                forall|i2: int, j2: int|
                    0 <= i2 < j2 < open_digits@.len() ==> open_digits@[i2] < open_digits@[j2],
                forall|i2: int|
                    0 <= i2 < open_digits@.len() ==> 1 <= #[trigger] open_digits@[i2] <= di,
                forall|d: u8|
                    open_digits@.contains(d) <==> (1 <= d <= di && !vals@.contains(d)),
            decreases full@.len() - di,
        {
            let d = full[di];
            let ghost prev = open_digits@;
            if !crate::digits::contains_digit(&vals, d) {
                open_digits.push(d);
                proof {
                    crate::digits::lemma_push_contains(prev, d);
                }
            }
            proof {
                assert forall|x: u8|
                    open_digits@.contains(x) implies (1 <= x <= di + 1 && !vals@.contains(x)) by {
                    if !prev.contains(x) {
                        assert(open_digits@ == prev.push(x));
                    }
                }
                assert forall|x: u8|
                    (1 <= x <= di + 1 && !vals@.contains(x)) implies open_digits@.contains(x) by {
                    if x == di + 1 {
                        assert(open_digits@ == prev.push(x));
                        crate::digits::lemma_push_contains(prev, x);
                    } else {
                        assert(prev.contains(x));
                        if open_digits@ != prev {
                            crate::digits::lemma_push_contains(prev, (di + 1) as u8);
                        }
                    }
                }
            }
            di += 1;
        }
        let mut m = PossibilityMap::new_blank();
        let mut k: usize = 0;
        while k < self.cells.len()
            invariant
                self.wf(),
                grid.wf(),
                m.wf(),
                0 <= k <= 9,
                self.cells@.len() == 9,
                vals@ == values_at(self.cells@, grid.cells_view()),
                vals@.len() == 9,
                forall|k2: int| 0 <= k2 < 9 ==> #[trigger] vals@[k2] <= 9,
                wf_digits(open_digits@),
                forall|d: u8|
                    open_digits@.contains(d) <==> (is_digit(d) && !vals@.contains(d)),
                forall|r2: int, c2: int|
                    in_bounds(r2, c2) ==> ((#[trigger] m.entry(r2, c2)) is Some <==> exists|k2: int|
                        0 <= k2 < k && self.cells@[k2] == ((r2 as usize), (c2 as usize))),
                forall|k2: int|
                    0 <= k2 < k ==> (#[trigger] vals@[k2] != 0 ==> m.entry(
                        self.cells@[k2].0 as int,
                        self.cells@[k2].1 as int,
                    ) == Some(seq![vals@[k2]])),
                forall|k2: int|
                    0 <= k2 < k ==> (#[trigger] vals@[k2] == 0 ==> (m.entry(
                        self.cells@[k2].0 as int,
                        self.cells@[k2].1 as int,
                    ) matches Some(l) && (forall|d: u8|
                        l.contains(d) <==> (is_digit(d) && !vals@.contains(d))))),
            decreases 9 - k,
        {
            assert(crate::variant::util::pos_wf(self.cells@[k as int]));
            let p = self.cells[k];
            let v = vals[k];
            if v != 0 {
                let mut s: Vec<u8> = Vec::new();
                s.push(v);
                proof {
                    assert(s@ =~= seq![vals@[k as int]]);
                    assert(grid.cell(p.0 as int, p.1 as int) == vals@[k as int]);
                    assert(is_digit(v));
                }
                m.set_list(p.0, p.1, s);
            } else {
                let l = copy_digits(&open_digits);
                m.set_list(p.0, p.1, l);
            }
            proof {
                assert forall|r2: int, c2: int|
                    in_bounds(r2, c2) implies ((#[trigger] m.entry(r2, c2)) is Some <==> exists|
                    k2: int,
                |
                    0 <= k2 < k + 1 && self.cells@[k2] == ((r2 as usize), (c2 as usize))) by {
                    if (r2, c2) == (p.0 as int, p.1 as int) {
                        assert(self.cells@[k as int] == ((r2 as usize), (c2 as usize)));
                    }
                }
            }
            k += 1;
        }
        proof {
            m.lemma_entries_wf();
            assert forall|r2: int, c2: int|
                in_bounds(r2, c2) implies ((#[trigger] m.entry(r2, c2)) is Some
                <==> self.cells@.contains(((r2 as usize), (c2 as usize)))) by {
                if self.cells@.contains(((r2 as usize), (c2 as usize))) {
                    let k2 = choose|k2: int|
                        0 <= k2 < 9 && self.cells@[k2] == ((r2 as usize), (c2 as usize));
                    assert(0 <= k2 < 9 && self.cells@[k2] == ((r2 as usize), (c2 as usize)));
                }
            }
            assert forall|k: int|
                0 <= k < 9 implies (#[trigger] values_at(self.cells@, grid.cells_view())[k] == 0
                ==> (m.entry(self.cells@[k].0 as int, self.cells@[k].1 as int) matches Some(l)
                    && wf_digits(l) && (forall|d: u8|
                    l.contains(d) <==> (is_digit(d) && !self.uses(grid.cells_view(), d))))) by {
                assert(crate::variant::util::pos_wf(self.cells@[k]));
                assert(in_bounds(self.cells@[k].0 as int, self.cells@[k].1 as int));
            }
        }
        Ok(m)
    }
}

} // verus!
