use vstd::prelude::*;

use crate::digits::is_digit;
use crate::errors::VariantContradiction;
use crate::grid::SudokuGrid;
use crate::possmap::{in_bounds, PossibilityMap};
use crate::variant::util::{king_sees, king_sees_exec};

verus! {

/// No two cells a king's move apart may share a digit.
#[derive(Clone, Copy, Debug, PartialEq, Eq)]
pub struct King {}

impl King {
    /// Whether digit `d` appears in a cell a king's move from `(r, c)`.
    pub open spec fn neighbour_has(g: Seq<u8>, r: int, c: int, d: u8) -> bool {
        exists|r2: int, c2: int|
            in_bounds(r2, c2) && king_sees(r, c, r2, c2) && #[trigger] crate::grid::cell_at(
                g,
                r2,
                c2,
            ) == d
    }

    /// Placing `value` at `(row, col)` is rejected exactly when a king-move
    /// neighbour already holds it; a `value` of 0 is never rejected.
    pub open spec fn is_valid_spec(g: Seq<u8>, row: usize, col: usize, value: u8) -> bool {
        value == 0 || !Self::neighbour_has(g, row as int, col as int, value)
    }

    /// No two filled cells a king's move apart share a digit.
    pub open spec fn solution_ok(g: Seq<u8>) -> bool {
        forall|r: int, c: int|
            in_bounds(r, c) ==> (#[trigger] crate::grid::cell_at(g, r, c) == 0
                || !Self::neighbour_has(g, r, c, crate::grid::cell_at(g, r, c)))
    }

    /// The king's-move constraint.
    pub fn new() -> (k: King) {
        King {  }
    }

    /// Whether placing `value` at `(row, col)` respects the king constraint.
    pub fn is_valid(&self, grid: &SudokuGrid, row: usize, col: usize, value: u8) -> (b: bool)
        requires
            grid.wf(),
            row < 9,
            col < 9,
        ensures
            b == King::is_valid_spec(grid.cells_view(), row, col, value),
    {
        if value == 0 {
            return true;
        }
        let mut r2: usize = 0;
        while r2 < 9
            invariant
                grid.wf(),
                row < 9,
                col < 9,
                value != 0,
                0 <= r2 <= 9,
                forall|i: int, j: int|
                    0 <= i < r2 && 0 <= j < 9 && king_sees(row as int, col as int, i, j)
                        ==> #[trigger] crate::grid::cell_at(grid.cells_view(), i, j) != value,
            decreases 9 - r2,
        {
            let mut c2: usize = 0;
            while c2 < 9
                invariant
                    grid.wf(),
                    row < 9,
                    col < 9,
                    value != 0,
                    r2 < 9,
                    0 <= c2 <= 9,
                    forall|i: int, j: int|
                        0 <= i < r2 && 0 <= j < 9 && king_sees(row as int, col as int, i, j)
                            ==> #[trigger] crate::grid::cell_at(grid.cells_view(), i, j) != value,
                    forall|j: int|
                        0 <= j < c2 && king_sees(row as int, col as int, r2 as int, j)
                            ==> #[trigger] crate::grid::cell_at(grid.cells_view(), r2 as int, j)
                            != value,
                decreases 9 - c2,
            {
                if king_sees_exec(row, col, r2, c2) && grid.get_cell(r2, c2) == value {
                    proof {
                        assert(crate::grid::cell_at(grid.cells_view(), r2 as int, c2 as int)
                            == value);
                        assert(King::neighbour_has(
                            grid.cells_view(),
                            row as int,
                            col as int,
                            value,
                        ));
                    }
                    return false;
                }
                c2 += 1;
            }
            r2 += 1;
        }
        true
    }

    /// Whether the grid respects the king constraint on its filled cells.
    pub fn validate_solution(&self, grid: &SudokuGrid) -> (b: bool)
        requires
            grid.wf(),
        ensures
            b == King::solution_ok(grid.cells_view()),
    {
        let mut r: usize = 0;
        while r < 9
            invariant
                grid.wf(),
                0 <= r <= 9,
                forall|i: int, j: int|
                    0 <= i < r && 0 <= j < 9 ==> (#[trigger] crate::grid::cell_at(
                        grid.cells_view(),
                        i,
                        j,
                    ) == 0 || !King::neighbour_has(
                        grid.cells_view(),
                        i,
                        j,
                        crate::grid::cell_at(grid.cells_view(), i, j),
                    )),
            decreases 9 - r,
        {
            let mut c: usize = 0;
            while c < 9
                invariant
                    grid.wf(),
                    r < 9,
                    0 <= c <= 9,
                    forall|i: int, j: int|
                        0 <= i < r && 0 <= j < 9 ==> (#[trigger] crate::grid::cell_at(
                            grid.cells_view(),
                            i,
                            j,
                        ) == 0 || !King::neighbour_has(
                            grid.cells_view(),
                            i,
                            j,
                            crate::grid::cell_at(grid.cells_view(), i, j),
                        )),
                    forall|j: int|
                        0 <= j < c ==> (#[trigger] crate::grid::cell_at(
                            grid.cells_view(),
                            r as int,
                            j,
                        ) == 0 || !King::neighbour_has(
                            grid.cells_view(),
                            r as int,
                            j,
                            crate::grid::cell_at(grid.cells_view(), r as int, j),
                        )),
                decreases 9 - c,
            {
                let v = grid.get_cell(r, c);
                if v != 0 {
                    if !self.is_valid(grid, r, c, v) {
                        return false;
                    }
                }
                c += 1;
            }
            r += 1;
        }
        true
    }

    /// Every cell of the grid is constrained.
    pub fn constrained_cells(&self) -> (r: Vec<(usize, usize)>)
        ensures
            r@.len() == 81,
            forall|k: int| 0 <= k < 81 ==> #[trigger] r@[k] == (((k / 9) as usize), ((k % 9) as usize)),
    {
        crate::variant::util::all_cells()
    }

    /// The digits this constraint alone admits at each cell: the singleton of
    /// a filled cell's value, and for an empty cell every digit not held by a
    /// king-move neighbour.
    pub fn get_possibilities(&self, grid: &SudokuGrid) -> (result: Result<
        PossibilityMap,
        VariantContradiction,
    >)
        requires
            grid.wf(),
        ensures
            result is Ok,
            ({
                let m = result->Ok_0;
                let g = grid.cells_view();
                &&& m.wf()
                &&& forall|r2: int, c2: int|
                    in_bounds(r2, c2) ==> (#[trigger] m.entry(r2, c2)) is Some
                &&& forall|r2: int, c2: int|
                    in_bounds(r2, c2) && crate::grid::cell_at(g, r2, c2) != 0 ==> #[trigger] m.entry(
                        r2,
                        c2,
                    ) == Some(seq![crate::grid::cell_at(g, r2, c2)])
                &&& forall|r2: int, c2: int|
                    in_bounds(r2, c2) && crate::grid::cell_at(g, r2, c2) == 0 ==> ((
                    #[trigger] m.entry(r2, c2)) matches Some(l) && (forall|d: u8|
                        l.contains(d) <==> (is_digit(d) && !King::neighbour_has(g, r2, c2, d))))
            }),
    {
        let mut m = PossibilityMap::new_blank();
        let mut r: usize = 0;
        while r < 9
            invariant
                grid.wf(),
                m.wf(),
                0 <= r <= 9,
                forall|r2: int, c2: int|
                    in_bounds(r2, c2) ==> ((#[trigger] m.entry(r2, c2)) is Some <==> r2 < r),
                forall|r2: int, c2: int|
                    0 <= r2 < r && 0 <= c2 < 9 && crate::grid::cell_at(grid.cells_view(), r2, c2)
                        != 0 ==> #[trigger] m.entry(r2, c2) == Some(
                        seq![crate::grid::cell_at(grid.cells_view(), r2, c2)],
                    ),
                forall|r2: int, c2: int|
                    0 <= r2 < r && 0 <= c2 < 9 && crate::grid::cell_at(grid.cells_view(), r2, c2)
                        == 0 ==> ((#[trigger] m.entry(r2, c2)) matches Some(l) && (forall|d: u8|
                        l.contains(d) <==> (is_digit(d) && !King::neighbour_has(
                            grid.cells_view(),
                            r2,
                            c2,
                            d,
                        )))),
            decreases 9 - r,
        {
            let mut c: usize = 0;
            while c < 9
                invariant
                    grid.wf(),
                    m.wf(),
                    r < 9,
                    0 <= c <= 9,
                    forall|r2: int, c2: int|
                        in_bounds(r2, c2) ==> ((#[trigger] m.entry(r2, c2)) is Some <==> (r2 < r
                            || (r2 == r && c2 < c))),
                    forall|r2: int, c2: int|
                        0 <= r2 < 9 && 0 <= c2 < 9 && (r2 < r || (r2 == r && c2 < c))
                            && crate::grid::cell_at(grid.cells_view(), r2, c2) != 0
                            ==> #[trigger] m.entry(r2, c2) == Some(
                            seq![crate::grid::cell_at(grid.cells_view(), r2, c2)],
                        ),
                    forall|r2: int, c2: int|
                        0 <= r2 < 9 && 0 <= c2 < 9 && (r2 < r || (r2 == r && c2 < c))
                            && crate::grid::cell_at(grid.cells_view(), r2, c2) == 0 ==> ((
                        #[trigger] m.entry(r2, c2)) matches Some(l) && (forall|d: u8|
                            l.contains(d) <==> (is_digit(d) && !King::neighbour_has(
                                grid.cells_view(),
                                r2,
                                c2,
                                d,
                            )))),
                decreases 9 - c,
            {
                let v = grid.get_cell(r, c);
                if v != 0 {
                    let mut s: Vec<u8> = Vec::new();
                    s.push(v);
                    proof {
                        assert(s@ =~= seq![v]);
                        assert(is_digit(v));
                    }
                    m.set_list(r, c, s);
                } else {
                    let mut l: Vec<u8> = Vec::new();
                    let mut d: u8 = 1;
                    while d <= 9
                        invariant
                            grid.wf(),
                            r < 9,
                            c < 9,
                            1 <= d <= 10,
                            forall|i2: int, j2: int| 0 <= i2 < j2 < l@.len() ==> l@[i2] < l@[j2],
                            forall|i2: int| 0 <= i2 < l@.len() ==> 1 <= #[trigger] l@[i2] < d,
                            forall|x: u8|
                                l@.contains(x) <==> (1 <= x < d && !King::neighbour_has(
                                    grid.cells_view(),
                                    r as int,
                                    c as int,
                                    x,
                                )),
                        decreases 10 - d,
                    {
                        let ghost prev = l@;
                        let admits = self.is_valid(grid, r, c, d);
                        if admits {
                            l.push(d);
                        }
                        proof {
                            crate::digits::lemma_push_contains(prev, d);
                            assert forall|x: u8|
                                l@.contains(x) implies (1 <= x < d + 1 && !King::neighbour_has(
                                grid.cells_view(),
                                r as int,
                                c as int,
                                x,
                            )) by {
                                if !prev.contains(x) {
                                    assert(l@ == prev.push(x));
                                }
                            }
                            assert forall|x: u8|
                                (1 <= x < d + 1 && !King::neighbour_has(
                                    grid.cells_view(),
                                    r as int,
                                    c as int,
                                    x,
                                )) implies l@.contains(x) by {
                                if x == d {
                                    assert(admits);
                                    assert(l@ == prev.push(d));
                                    assert(prev.push(d).contains(d));
                                } else {
                                    assert(1 <= x < d);
                                    assert(prev.contains(x));
                                    if l@ != prev {
                                        assert(l@ == prev.push(d));
                                        assert(prev.push(d).contains(x));
                                    }
                                }
                            }
                        }
                        d += 1;
                    }
                    m.set_list(r, c, l);
                }
                c += 1;
            }
            r += 1;
        }
        Ok(m)
    }
}

} // verus!
