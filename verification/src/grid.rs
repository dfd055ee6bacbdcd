use vstd::prelude::*;

use crate::digits::{all_possibilities, is_digit, kept, removed, wf_digits};
use crate::errors::VariantContradiction;
use crate::possmap::{cell_idx, full_digits, in_bounds, lemma_cell_idx_injective, PossibilityMap};
use crate::variant::dispatch::SudokuVariant;

verus! {

/// The 81 cell values of a grid, row-major; 0 stands for an empty cell.
pub open spec fn cells_wf(cells: Seq<u8>) -> bool {
    &&& cells.len() == 81
    &&& forall|k: int| 0 <= k < 81 ==> #[trigger] cells[k] <= 9
}

/// The value of cell `(r, c)`.
pub open spec fn cell_at(cells: Seq<u8>, r: int, c: int) -> u8 {
    cells[cell_idx(r, c)]
}

/// Whether digit `d` appears somewhere in row `r`.
pub open spec fn used_in_row(cells: Seq<u8>, r: int, d: u8) -> bool {
    exists|c: int| 0 <= c < 9 && cell_at(cells, r, c) == d
}

/// Whether digit `d` appears somewhere in column `c`.
pub open spec fn used_in_col(cells: Seq<u8>, c: int, d: u8) -> bool {
    exists|r: int| 0 <= r < 9 && cell_at(cells, r, c) == d
}

/// The top row of the box holding row `r` (0, 3 or 6).
pub open spec fn box_base(r: int) -> int {
    3 * (r / 3)
}

/// Whether digit `d` appears in the 3x3 box with top-left corner `(br, bc)`.
pub open spec fn used_in_box(cells: Seq<u8>, br: int, bc: int, d: u8) -> bool {
    exists|i: int, j: int| 0 <= i < 3 && 0 <= j < 3 && #[trigger] cell_at(cells, br + i, bc + j)
        == d
}

/// Whether placing `d` at `(r, c)` leaves the classic row, column and box
/// uniqueness rules observably intact on the current cells.
pub open spec fn classic_ok(cells: Seq<u8>, r: int, c: int, d: u8) -> bool {
    &&& !used_in_row(cells, r, d)
    &&& !used_in_col(cells, c, d)
    &&& !used_in_box(cells, box_base(r), box_base(c), d)
}

/// Whether `(r1, c1)` and `(r2, c2)` share a row, column or box.
pub open spec fn same_unit(r1: int, c1: int, r2: int, c2: int) -> bool {
    r1 == r2 || c1 == c2 || (box_base(r1) == box_base(r2) && box_base(c1) == box_base(c2))
}

/// A group of nine cells (a row, column or box) holds each digit 1..=9 once.
pub open spec fn group_ok(g: Seq<u8>) -> bool {
    &&& forall|i: int| 0 <= i < 9 ==> is_digit(#[trigger] g[i])
    &&& forall|i: int, j: int| 0 <= i < j < 9 ==> g[i] != g[j]
}

/// The row `r` of the grid, as a sequence of nine values.
pub open spec fn row_seq(cells: Seq<u8>, r: int) -> Seq<u8> {
    Seq::new(9, |c: int| cell_at(cells, r, c))
}

/// The column `c` of the grid, as a sequence of nine values.
pub open spec fn col_seq(cells: Seq<u8>, c: int) -> Seq<u8> {
    Seq::new(9, |r: int| cell_at(cells, r, c))
}

/// The box with top-left corner `(3*bi, 3*bj)`, row by row.
pub open spec fn box_seq(cells: Seq<u8>, bi: int, bj: int) -> Seq<u8> {
    Seq::new(9, |k: int| cell_at(cells, 3 * bi + k / 3, 3 * bj + k % 3))
}

/// Every row, column and box holds each digit 1..=9 exactly once.
pub open spec fn board_valid(cells: Seq<u8>) -> bool {
    &&& forall|r: int| 0 <= r < 9 ==> group_ok(#[trigger] row_seq(cells, r))
    &&& forall|c: int| 0 <= c < 9 ==> group_ok(#[trigger] col_seq(cells, c))
    &&& forall|bi: int, bj: int| 0 <= bi < 3 && 0 <= bj < 3 ==> group_ok(
        #[trigger] box_seq(cells, bi, bj),
    )
}

/// A 9x9 Sudoku grid: 81 cells, a candidate map with one entry per empty
/// cell, and the list of extra variant constraints.
#[derive(Debug)]
pub struct SudokuGrid {
    cells: Vec<u8>,
    possibilities: PossibilityMap,
    variants: Vec<SudokuVariant>,
}

impl SudokuGrid {
    /// Cells and candidate map are consistent: 81 cell values 0..=9, and the
    /// map holds a well-formed entry exactly for each empty cell.
    pub closed spec fn wf(self) -> bool {
        &&& cells_wf(self.cells@)
        &&& self.possibilities.wf()
        &&& forall|r: int, c: int|
            in_bounds(r, c) ==> ((#[trigger] self.possibilities.entry(r, c)) is Some <==> cell_at(
                self.cells@,
                r,
                c,
            ) == 0)
        &&& forall|i: int| 0 <= i < self.variants@.len() ==> (#[trigger] self.variants@[i]).wf()
    }

    /// The configured variant constraints, in insertion order.
    pub closed spec fn variants_view(self) -> Seq<SudokuVariant> {
        self.variants@
    }

    /// Every configured variant accepts the current cells as a solution.
    pub open spec fn all_variants_ok(self) -> bool {
        forall|i: int|
            0 <= i < self.variants_view().len() ==> (#[trigger] self.variants_view()[i]).solution_ok(
                self.cells_view(),
            )
    }

    /// The 81 cell values, row-major.
    pub closed spec fn cells_view(self) -> Seq<u8> {
        self.cells@
    }

    /// The value of cell `(r, c)`.
    pub open spec fn cell(self, r: int, c: int) -> u8 {
        cell_at(self.cells_view(), r, c)
    }

    /// The candidate-map entry of cell `(r, c)`.
    pub closed spec fn poss(self, r: int, c: int) -> Option<Seq<u8>> {
        self.possibilities.entry(r, c)
    }

    /// An empty grid: every cell 0, every candidate list full, no variants.
    pub fn empty() -> (g: SudokuGrid)
        ensures
            g.wf(),
            forall|r: int, c: int| in_bounds(r, c) ==> #[trigger] g.cell(r, c) == 0,
            forall|r: int, c: int| in_bounds(r, c) ==> #[trigger] g.poss(r, c) == Some(
                full_digits(),
            ),
            g.variants_view().len() == 0,
    {
        let mut cells: Vec<u8> = Vec::new();
        let mut k: usize = 0;
        while k < 81
            invariant
                0 <= k <= 81,
                cells@.len() == k,
                forall|j: int| 0 <= j < k ==> #[trigger] cells@[j] == 0,
            decreases 81 - k,
        {
            cells.push(0);
            k += 1;
        }
        let g = SudokuGrid {
            cells,
            possibilities: PossibilityMap::new_full(),
            variants: Vec::new(),
        };
        proof {
            assert forall|r: int, c: int| in_bounds(r, c) implies #[trigger] g.cell(r, c) == 0 by {
                assert(0 <= cell_idx(r, c) < 81);
            }
        }
        g
    }

    /// Attach one more variant constraint.
    pub fn add_variant(&mut self, variant: SudokuVariant)
        requires
            old(self).wf(),
            variant.wf(),
        ensures
            final(self).wf(),
            final(self).cells_view() == old(self).cells_view(),
            forall|r: int, c: int|
                in_bounds(r, c) ==> #[trigger] final(self).poss(r, c) == old(self).poss(r, c),
            final(self).variants_view() == old(self).variants_view().push(variant),
    {
        self.variants.push(variant);
    }

    /// The configured variants, in insertion order.
    pub fn variants(&self) -> (r: &Vec<SudokuVariant>)
        ensures
            r@ == self.variants_view(),
    {
        &self.variants
    }

    /// How many variants are configured.
    pub fn variants_len(&self) -> (n: usize)
        ensures
            n == self.variants_view().len(),
    {
        self.variants.len()
    }

    /// Whether every configured variant accepts the current cells.
    pub fn variants_all_valid(&self) -> (b: bool)
        requires
            self.wf(),
        ensures
            b == self.all_variants_ok(),
    {
        let n = self.variants.len();
        let mut i: usize = 0;
        while i < n
            invariant
                self.wf(),
                n == self.variants_view().len(),
                0 <= i <= n,
                forall|j: int|
                    0 <= j < i ==> (#[trigger] self.variants_view()[j]).solution_ok(
                        self.cells_view(),
                    ),
            decreases n - i,
        {
            let ok = self.variants[i].validate_solution(self);
            if !ok {
                return false;
            }
            i += 1;
        }
        true
    }

    /// The candidate map a variant alone derives from the current grid.
    pub fn variant_possibilities(&self, i: usize) -> (result: Result<
        PossibilityMap,
        VariantContradiction,
    >)
        requires
            self.wf(),
            i < self.variants_view().len(),
        ensures
            (result matches Ok(m) ==> m.wf()),
    {
        self.variants[i].get_possibilities(self)
    }

    /// A well-formed grid keeps a candidate entry exactly for its empty cells.
    pub proof fn lemma_poss_presence(self)
        requires
            self.wf(),
        ensures
            self.cells_view().len() == 81,
            forall|r: int, c: int|
                in_bounds(r, c) ==> ((#[trigger] self.poss(r, c)) is Some <==> self.cell(r, c)
                    == 0),
    {
    }

    /// A copy of the whole candidate map.
    pub fn possibilities_snapshot(&self) -> (m: PossibilityMap)
        requires
            self.wf(),
        ensures
            m.wf(),
            forall|r: int, c: int| in_bounds(r, c) ==> #[trigger] m.entry(r, c) == self.poss(r, c),
    {
        self.possibilities.snapshot()
    }

    /// Pick the cell to branch on: the first empty cell with the fewest
    /// candidates, a report that no cell is empty, or a dead end when some
    /// empty cell has no candidate left.
    pub(crate) fn most_constrained(&self) -> (res: NextCell)
        requires
            self.wf(),
        ensures
            match res {
                NextCell::Cell(row, col, cands) => in_bounds(row as int, col as int) && self.poss(
                    row as int,
                    col as int,
                ) == Some(cands@) && cands@.len() >= 1 && wf_digits(cands@) && self.cell(
                    row as int,
                    col as int,
                ) == 0,
                NextCell::NoEmptyCells => forall|r: int, c: int|
                    in_bounds(r, c) ==> #[trigger] self.cell(r, c) != 0,
                NextCell::DeadEnd => exists|r: int, c: int|
                    in_bounds(r, c) && ((#[trigger] self.poss(r, c)) matches Some(l) && l.len()
                        == 0),
            },
    {
        let mut best: Option<(usize, usize, Vec<u8>)> = None;
        let mut min_options: usize = 10;
        let mut r: usize = 0;
        while r < 9
            invariant
                self.wf(),
                0 <= r <= 9,
                match best {
                    Some(rc) => in_bounds(rc.0 as int, rc.1 as int) && self.poss(
                        rc.0 as int,
                        rc.1 as int,
                    ) == Some(rc.2@) && rc.2@.len() >= 1 && wf_digits(rc.2@) && self.cell(
                        rc.0 as int,
                        rc.1 as int,
                    ) == 0 && min_options == rc.2@.len(),
                    None => min_options == 10 && forall|a: int, b: int|
                        0 <= a < r && 0 <= b < 9 ==> #[trigger] self.cell(a, b) != 0,
                },
            decreases 9 - r,
        {
            let mut c: usize = 0;
            while c < 9
                invariant
                    self.wf(),
                    r < 9,
                    0 <= c <= 9,
                    match best {
                        Some(rc) => in_bounds(rc.0 as int, rc.1 as int) && self.poss(
                            rc.0 as int,
                            rc.1 as int,
                        ) == Some(rc.2@) && rc.2@.len() >= 1 && wf_digits(rc.2@) && self.cell(
                            rc.0 as int,
                            rc.1 as int,
                        ) == 0 && min_options == rc.2@.len(),
                        None => min_options == 10 && (forall|a: int, b: int|
                            0 <= a < r && 0 <= b < 9 ==> #[trigger] self.cell(a, b) != 0) && (
                        forall|b: int| 0 <= b < c ==> #[trigger] self.cell(r as int, b) != 0),
                    },
                decreases 9 - c,
            {
                match self.possibilities.get_list(r, c) {
                    Some(l) => {
                        proof {
                            crate::digits::lemma_wf_digits_len(l@);
                        }
                        if l.len() == 0 {
                            proof {
                                assert(self.poss(r as int, c as int) matches Some(l2) && l2.len()
                                    == 0);
                            }
                            return NextCell::DeadEnd;
                        }
                        if l.len() < min_options {
                            min_options = l.len();
                            best = Some((r, c, l));
                        }
                    },
                    None => {},
                }
                c += 1;
            }
            r += 1;
        }
        match best {
            Some(rc) => NextCell::Cell(rc.0, rc.1, rc.2),
            None => {
                proof {
                    assert forall|a: int, b: int| in_bounds(a, b) implies #[trigger] self.cell(
                        a,
                        b,
                    ) != 0 by {}
                }
                NextCell::NoEmptyCells
            },
        }
    }

    /// Strike one digit from the candidate list of `(row, col)`, if the cell
    /// has one.
    pub(crate) fn remove_candidate(&mut self, row: usize, col: usize, d: u8)
        requires
            old(self).wf(),
            row < 9,
            col < 9,
        ensures
            final(self).wf(),
            final(self).cells_view() == old(self).cells_view(),
            final(self).variants_view() == old(self).variants_view(),
            final(self).poss(row as int, col as int) == (match old(self).poss(
                row as int,
                col as int,
            ) {
                Some(l) => Some(removed(l, d)),
                None => None::<Seq<u8>>,
            }),
            forall|r2: int, c2: int|
                in_bounds(r2, c2) && (r2 != row || c2 != col) ==> #[trigger] final(self).poss(
                    r2,
                    c2,
                ) == old(self).poss(r2, c2),
            map_shrinks(*old(self), *final(self)),
    {
        proof {
            if let Some(l) = self.possibilities.entry(row as int, col as int) {
                crate::digits::lemma_removed_props(l, d);
            }
        }
        self.possibilities.remove_from_entry(row, col, d);
        proof {
            assert forall|r: int, c: int|
                in_bounds(r, c) implies ((#[trigger] self.possibilities.entry(r, c)) is Some
                <==> cell_at(self.cells@, r, c) == 0) by {
                if r != row || c != col {
                } else {
                    assert(old(self).possibilities.entry(r, c) is Some <==> cell_at(
                        self.cells@,
                        r,
                        c,
                    ) == 0);
                }
            }
            assert forall|r: int, c: int|
                in_bounds(r, c) implies ((#[trigger] self.poss(r, c)) matches Some(l2) ==> (old(
                self,
            ).poss(r, c) matches Some(l1) && (forall|d2: u8|
                #[trigger] l2.contains(d2) ==> l1.contains(d2)))) by {}
        }
    }

    /// Overwrite the candidate list of `(row, col)` with a subset of it.
    pub(crate) fn restrict_candidates(&mut self, row: usize, col: usize, list: Vec<u8>)
        requires
            old(self).wf(),
            row < 9,
            col < 9,
            wf_digits(list@),
            old(self).poss(row as int, col as int) is Some,
            forall|d: u8|
                #[trigger] list@.contains(d) ==> old(self).poss(
                    row as int,
                    col as int,
                )->Some_0.contains(d),
        ensures
            final(self).wf(),
            final(self).cells_view() == old(self).cells_view(),
            final(self).variants_view() == old(self).variants_view(),
            final(self).poss(row as int, col as int) == Some(list@),
            forall|r2: int, c2: int|
                in_bounds(r2, c2) && (r2 != row || c2 != col) ==> #[trigger] final(self).poss(
                    r2,
                    c2,
                ) == old(self).poss(r2, c2),
            map_shrinks(*old(self), *final(self)),
    {
        self.possibilities.set_list(row, col, list);
        proof {
            assert forall|r: int, c: int|
                in_bounds(r, c) implies ((#[trigger] self.possibilities.entry(r, c)) is Some
                <==> cell_at(self.cells@, r, c) == 0) by {
                if r != row || c != col {
                } else {
                    assert(old(self).possibilities.entry(r, c) is Some <==> cell_at(
                        self.cells@,
                        r,
                        c,
                    ) == 0);
                }
            }
            assert forall|r: int, c: int|
                in_bounds(r, c) implies ((#[trigger] self.poss(r, c)) matches Some(l2) ==> (old(
                self,
            ).poss(r, c) matches Some(l1) && (forall|d2: u8|
                #[trigger] l2.contains(d2) ==> l1.contains(d2)))) by {}
        }
    }

    /// Replace the whole candidate map; the new map must keep an entry
    /// exactly for each empty cell.
    pub(crate) fn replace_possibilities(&mut self, m: PossibilityMap)
        requires
            old(self).wf(),
            m.wf(),
            forall|r: int, c: int|
                in_bounds(r, c) ==> ((#[trigger] m.entry(r, c)) is Some <==> cell_at(
                    old(self).cells_view(),
                    r,
                    c,
                ) == 0),
        ensures
            final(self).wf(),
            final(self).cells_view() == old(self).cells_view(),
            final(self).variants_view() == old(self).variants_view(),
            forall|r: int, c: int|
                in_bounds(r, c) ==> #[trigger] final(self).poss(r, c) == m.entry(r, c),
    {
        self.possibilities = m;
    }

    /// Whether placing `num` at `(row, col)` passes the classic rules and
    /// every variant's local check.
    pub fn is_valid_move(&self, row: usize, col: usize, num: u8) -> (b: bool)
        requires
            self.wf(),
            row < 9,
            col < 9,
        ensures
            b == (classic_ok(self.cells_view(), row as int, col as int, num) && (forall|i: int|
                0 <= i < self.variants_view().len()
                    ==> (#[trigger] self.variants_view()[i]).is_valid_spec(
                    self.cells_view(),
                    row,
                    col,
                    num,
                ))),
    {
        if !self.is_classic_valid(row, col, num) {
            return false;
        }
        let n = self.variants.len();
        let mut i: usize = 0;
        while i < n
            invariant
                self.wf(),
                row < 9,
                col < 9,
                n == self.variants_view().len(),
                0 <= i <= n,
                forall|j: int|
                    0 <= j < i ==> (#[trigger] self.variants_view()[j]).is_valid_spec(
                        self.cells_view(),
                        row,
                        col,
                        num,
                    ),
            decreases n - i,
        {
            let ok = self.variants[i].is_valid(self, row, col, num);
            if !ok {
                return false;
            }
            i += 1;
        }
        true
    }

    /// Write `value` into `(row, col)`. Clearing (value 0) resets the cell's
    /// candidate list to all nine digits and touches nothing else. Placing a
    /// digit removes the cell's candidate entry, strikes the digit from every
    /// peer in the same row, column and box, and intersects each affected
    /// variant's candidate sets into the map; a variant may report a
    /// contradiction instead. Candidate lists never grow, and with no
    /// variants configured the new map is given exactly.
    pub fn set_cell(&mut self, row: usize, col: usize, value: u8) -> (res: Result<
        (),
        VariantContradiction,
    >)
        requires
            old(self).wf(),
            row < 9,
            col < 9,
            value <= 9,
        ensures
            final(self).wf(),
            final(self).variants_view() == old(self).variants_view(),
            final(self).cells_view() == old(self).cells_view().update(
                cell_idx(row as int, col as int),
                value,
            ),
            value == 0 ==> res is Ok && final(self).poss(row as int, col as int) == Some(
                full_digits(),
            ) && (forall|r2: int, c2: int|
                in_bounds(r2, c2) && (r2 != row || c2 != col) ==> #[trigger] final(self).poss(
                    r2,
                    c2,
                ) == old(self).poss(r2, c2)),
            res is Err ==> value != 0 && old(self).variants_view().len() > 0,
            value != 0 ==> final(self).poss(row as int, col as int) is None,
            value != 0 ==> (forall|r2: int, c2: int|
                in_bounds(r2, c2) && (r2 != row || c2 != col) ==> ((#[trigger] final(self).poss(
                    r2,
                    c2,
                )) is Some <==> old(self).poss(r2, c2) is Some)),
            value != 0 ==> (forall|r2: int, c2: int|
                in_bounds(r2, c2) && (r2 != row || c2 != col) ==> ((#[trigger] final(self).poss(
                    r2,
                    c2,
                )) matches Some(l2) ==> (forall|d: u8|
                    #[trigger] l2.contains(d) ==> (old(self).poss(r2, c2) matches Some(l1)
                        && l1.contains(d))))),
            value != 0 ==> (forall|r2: int, c2: int|
                in_bounds(r2, c2) && (r2 != row || c2 != col) && same_unit(
                    row as int,
                    col as int,
                    r2,
                    c2,
                ) ==> ((#[trigger] final(self).poss(r2, c2)) matches Some(l2) ==> !l2.contains(
                    value,
                ))),
            value != 0 && old(self).variants_view().len() == 0 ==> res is Ok && (forall|
                r2: int,
                c2: int,
            |
                in_bounds(r2, c2) && (r2 != row || c2 != col) ==> #[trigger] final(self).poss(
                    r2,
                    c2,
                ) == (match old(self).poss(r2, c2) {
                    Some(l1) => Some(
                        if same_unit(row as int, col as int, r2, c2) {
                            removed(l1, value)
                        } else {
                            l1
                        },
                    ),
                    None => None::<Seq<u8>>,
                })),
    {
        let idx = row * 9 + col;
        self.cells[idx] = value;
        proof {
            assert forall|r2: int, c2: int|
                in_bounds(r2, c2) && (r2 != row || c2 != col) implies #[trigger] cell_at(
                self.cells@,
                r2,
                c2,
            ) == cell_at(old(self).cells_view(), r2, c2) by {
                if cell_idx(r2, c2) == cell_idx(row as int, col as int) {
                    lemma_cell_idx_injective(row as int, col as int, r2, c2);
                }
            }
        }
        if value == 0 {
            self.possibilities.set_list(row, col, all_possibilities());
            proof {
                assert(self.possibilities.entry(row as int, col as int) == Some(full_digits()));
                assert(self.cells@ =~= old(self).cells_view().update(
                    cell_idx(row as int, col as int),
                    value,
                ));
            }
            return Ok(());
        }
        self.possibilities.clear_entry(row, col);
        proof {
            assert(self.cells@ =~= old(self).cells_view().update(
                cell_idx(row as int, col as int),
                value,
            ));
        }
        // Strike the digit from every other candidate list in the same row,
        // column and box.
        let mut r2: usize = 0;
        while r2 < 9
            invariant
                old(self).wf(),
                row < 9,
                col < 9,
                1 <= value <= 9,
                self.possibilities.wf(),
                self.cells@ == old(self).cells_view().update(
                    cell_idx(row as int, col as int),
                    value,
                ),
                self.variants@ == old(self).variants_view(),
                self.possibilities.entry(row as int, col as int) is None,
                0 <= r2 <= 9,
                forall|a: int, b: int|
                    in_bounds(a, b) && (a != row || b != col) ==> #[trigger] self.possibilities.entry(
                        a,
                        b,
                    ) == (match old(self).poss(a, b) {
                        Some(l1) => Some(
                            if same_unit(row as int, col as int, a, b) && (a < r2 || (a == r2 && b
                                < 0)) {
                                removed(l1, value)
                            } else {
                                l1
                            },
                        ),
                        None => None::<Seq<u8>>,
                    }),
            decreases 9 - r2,
        {
            let mut c2: usize = 0;
            while c2 < 9
                invariant
                    old(self).wf(),
                    row < 9,
                    col < 9,
                    1 <= value <= 9,
                    r2 < 9,
                    self.possibilities.wf(),
                    self.cells@ == old(self).cells_view().update(
                        cell_idx(row as int, col as int),
                        value,
                    ),
                    self.variants@ == old(self).variants_view(),
                    self.possibilities.entry(row as int, col as int) is None,
                    0 <= c2 <= 9,
                    forall|a: int, b: int|
                        in_bounds(a, b) && (a != row || b != col)
                            ==> #[trigger] self.possibilities.entry(a, b) == (match old(self).poss(
                            a,
                            b,
                        ) {
                            Some(l1) => Some(
                                if same_unit(row as int, col as int, a, b) && (a < r2 || (a == r2
                                    && b < c2)) {
                                    removed(l1, value)
                                } else {
                                    l1
                                },
                            ),
                            None => None::<Seq<u8>>,
                        }),
                decreases 9 - c2,
            {
                let su = r2 == row || c2 == col || (r2 / 3 == row / 3 && c2 / 3 == col / 3);
                proof {
                    assert(su == same_unit(row as int, col as int, r2 as int, c2 as int));
                }
                if su && (r2 != row || c2 != col) {
                    self.possibilities.remove_from_entry(r2, c2, value);
                }
                proof {
                    assert forall|a: int, b: int|
                        in_bounds(a, b) && (a != row || b != col)
                            implies #[trigger] self.possibilities.entry(a, b) == (match old(
                        self,
                    ).poss(a, b) {
                        Some(l1) => Some(
                            if same_unit(row as int, col as int, a, b) && (a < r2 || (a == r2 && b
                                < c2 + 1)) {
                                removed(l1, value)
                            } else {
                                l1
                            },
                        ),
                        None => None::<Seq<u8>>,
                    }) by {}
                }
                c2 += 1;
            }
            r2 += 1;
        }
        proof {
            // After the sweep every peer list has the digit struck exactly once.
            assert forall|a: int, b: int|
                in_bounds(a, b) && (a != row || b != col) implies #[trigger] self.possibilities.entry(
                a,
                b,
            ) == (match old(self).poss(a, b) {
                Some(l1) => Some(
                    if same_unit(row as int, col as int, a, b) {
                        removed(l1, value)
                    } else {
                        l1
                    },
                ),
                None => None::<Seq<u8>>,
            }) by {}
        }
        proof {
            assert forall|a: int, b: int|
                in_bounds(a, b) && (a != row || b != col) implies ((
            #[trigger] self.possibilities.entry(a, b)) matches Some(l2) ==> (forall|d: u8|
                #[trigger] l2.contains(d) ==> (old(self).poss(a, b) matches Some(l1) && l1.contains(
                    d,
                ) && (same_unit(row as int, col as int, a, b) ==> d != value)))) by {
                if let Some(l2) = self.possibilities.entry(a, b) {
                    if let Some(l1) = old(self).poss(a, b) {
                        if same_unit(row as int, col as int, a, b) {
                            assert(l2 == removed(l1, value));
                            crate::digits::lemma_removed_props(l1, value);
                        } else {
                            assert(l2 == l1);
                        }
                        assert forall|d: u8| #[trigger] l2.contains(d) implies (old(self).poss(
                            a,
                            b,
                        ) matches Some(l1b) && l1b.contains(d) && (same_unit(
                            row as int,
                            col as int,
                            a,
                            b,
                        ) ==> d != value)) by {}
                    }
                }
            }
        }
        let ghost classic_map = self.possibilities;
        // Let each variant that constrains the placed cell narrow the map.
        let n = self.variants.len();
        let mut vi: usize = 0;
        while vi < n
            invariant
                old(self).wf(),
                row < 9,
                col < 9,
                1 <= value <= 9,
                n == self.variants@.len(),
                self.possibilities.wf(),
                self.cells@ == old(self).cells_view().update(
                    cell_idx(row as int, col as int),
                    value,
                ),
                self.variants@ == old(self).variants_view(),
                self.possibilities.entry(row as int, col as int) is None,
                0 <= vi <= n,
                n == 0 ==> self.possibilities == classic_map,
                forall|a: int, b: int|
                    in_bounds(a, b) && (a != row || b != col) ==> ((
                    #[trigger] self.possibilities.entry(a, b)) is Some <==> old(self).poss(a, b)
                        is Some),
                forall|a: int, b: int|
                    in_bounds(a, b) && (a != row || b != col) ==> ((
                    #[trigger] self.possibilities.entry(a, b)) matches Some(l2) ==> (forall|d: u8|
                        #[trigger] l2.contains(d) ==> (old(self).poss(a, b) matches Some(l1)
                            && l1.contains(d) && (same_unit(row as int, col as int, a, b) ==> d
                            != value)))),
            decreases n - vi,
        {
            let constrained = self.variants[vi].constrained_cells();
            if crate::variant::util::contains_pos(&constrained, row, col) {
                let result = self.variants[vi].get_possibilities(&*self);
                match result {
                    Err(e) => {
                        proof {
                            lemma_wf_after_set(*old(self), *self, row, col, value);
                        }
                        return Err(e);
                    },
                    Ok(vm) => {
                        let mut a: usize = 0;
                        while a < 9
                            invariant
                                old(self).wf(),
                                row < 9,
                                col < 9,
                                1 <= value <= 9,
                                vm.wf(),
                                self.possibilities.wf(),
                                self.cells@ == old(self).cells_view().update(
                                    cell_idx(row as int, col as int),
                                    value,
                                ),
                                self.variants@ == old(self).variants_view(),
                                self.possibilities.entry(row as int, col as int) is None,
                                0 <= a <= 9,
                                forall|a2: int, b2: int|
                                    in_bounds(a2, b2) && (a2 != row || b2 != col) ==> ((
                                    #[trigger] self.possibilities.entry(a2, b2)) is Some <==> old(
                                        self,
                                    ).poss(a2, b2) is Some),
                                forall|a2: int, b2: int|
                                    in_bounds(a2, b2) && (a2 != row || b2 != col) ==> ((
                                    #[trigger] self.possibilities.entry(a2, b2)) matches Some(l2)
                                        ==> (forall|d: u8|
                                        #[trigger] l2.contains(d) ==> (old(self).poss(a2, b2)
                                            matches Some(l1) && l1.contains(d) && (same_unit(
                                            row as int,
                                            col as int,
                                            a2,
                                            b2,
                                        ) ==> d != value)))),
                            decreases 9 - a,
                        {
                            let mut b: usize = 0;
                            while b < 9
                                invariant
                                    old(self).wf(),
                                    row < 9,
                                    col < 9,
                                    1 <= value <= 9,
                                    a < 9,
                                    vm.wf(),
                                    self.possibilities.wf(),
                                    self.cells@ == old(self).cells_view().update(
                                        cell_idx(row as int, col as int),
                                        value,
                                    ),
                                    self.variants@ == old(self).variants_view(),
                                    self.possibilities.entry(row as int, col as int) is None,
                                    0 <= b <= 9,
                                    forall|a2: int, b2: int|
                                        in_bounds(a2, b2) && (a2 != row || b2 != col) ==> ((
                                        #[trigger] self.possibilities.entry(a2, b2)) is Some
                                            <==> old(self).poss(a2, b2) is Some),
                                    forall|a2: int, b2: int|
                                        in_bounds(a2, b2) && (a2 != row || b2 != col) ==> ((
                                        #[trigger] self.possibilities.entry(a2, b2)) matches Some(
                                            l2,
                                        ) ==> (forall|d: u8|
                                            #[trigger] l2.contains(d) ==> (old(self).poss(a2, b2)
                                                matches Some(l1) && l1.contains(d) && (same_unit(
                                                row as int,
                                                col as int,
                                                a2,
                                                b2,
                                            ) ==> d != value)))),
                                decreases 9 - b,
                            {
                                match vm.get_list(a, b) {
                                    Some(allowed) => {
                                        proof {
                                            if let Some(l) = self.possibilities.entry(
                                                a as int,
                                                b as int,
                                            ) {
                                                crate::digits::lemma_kept_props(l, allowed@);
                                            }
                                        }
                                        let ghost before = self.possibilities;
                                        self.possibilities.intersect_entry(a, b, &allowed);
                                        proof {
                                            assert forall|a2: int, b2: int|
                                                in_bounds(a2, b2) && (a2 != row || b2 != col)
                                                    implies ((
                                            #[trigger] self.possibilities.entry(a2, b2))
                                                matches Some(l2) ==> (forall|d: u8|
                                                #[trigger] l2.contains(d) ==> (old(self).poss(
                                                    a2,
                                                    b2,
                                                ) matches Some(l1) && l1.contains(d) && (same_unit(
                                                    row as int,
                                                    col as int,
                                                    a2,
                                                    b2,
                                                ) ==> d != value)))) by {
                                                if a2 == a as int && b2 == b as int {
                                                    if let Some(lb) = before.entry(a2, b2) {
                                                        assert(self.possibilities.entry(a2, b2)
                                                            == Some(kept(lb, allowed@)));
                                                        assert forall|d: u8| #[trigger] kept(
                                                            lb,
                                                            allowed@,
                                                        ).contains(d) implies (old(self).poss(
                                                            a2,
                                                            b2,
                                                        ) matches Some(l1) && l1.contains(d) && (
                                                        same_unit(
                                                            row as int,
                                                            col as int,
                                                            a2,
                                                            b2,
                                                        ) ==> d != value)) by {
                                                            assert(lb.contains(d));
                                                        }
                                                    } else {
                                                        assert(self.possibilities.entry(a2, b2)
                                                            is None);
                                                    }
                                                } else {
                                                    assert(self.possibilities.entry(a2, b2)
                                                        == before.entry(a2, b2));
                                                }
                                            }
                                        }
                                    },
                                    None => {},
                                }
                                b += 1;
                            }
                            a += 1;
                        }
                    },
                }
            }
            vi += 1;
        }
        proof {
            lemma_wf_after_set(*old(self), *self, row, col, value);
            if old(self).variants_view().len() == 0 {
                assert(self.possibilities == classic_map);
            }
        }
        Ok(())
    }

    /// The value of cell `(row, col)`; 0 when the cell is empty.
    pub fn get_cell(&self, row: usize, col: usize) -> (v: u8)
        requires
            self.wf(),
            row < 9,
            col < 9,
        ensures
            v == self.cell(row as int, col as int),
            v <= 9,
    {
        self.cells[row * 9 + col]
    }

    /// The current candidate list of `(row, col)`: the map entry for an empty
    /// cell, the singleton of its value for an assigned one.
    pub fn get_possibilities(&self, row: usize, col: usize) -> (l: Vec<u8>)
        requires
            self.wf(),
            row < 9,
            col < 9,
        ensures
            match self.poss(row as int, col as int) {
                Some(s) => l@ == s,
                None => l@ =~= seq![self.cell(row as int, col as int)],
            },
    {
        match self.possibilities.get_list(row, col) {
            Some(l) => l,
            None => {
                let mut out: Vec<u8> = Vec::new();
                out.push(self.get_cell(row, col));
                out
            },
        }
    }

    /// The candidate-map entry of `(row, col)`, if the cell is empty.
    pub fn possibilities_entry(&self, row: usize, col: usize) -> (o: Option<Vec<u8>>)
        requires
            self.wf(),
            row < 9,
            col < 9,
        ensures
            match o {
                Some(l) => self.poss(row as int, col as int) == Some(l@) && wf_digits(l@),
                None => self.poss(row as int, col as int) is None,
            },
    {
        self.possibilities.get_list(row, col)
    }

    /// Overwrite the candidate list of the empty cell `(row, col)`.
    pub fn set_possibilities_entry(&mut self, row: usize, col: usize, list: Vec<u8>)
        requires
            old(self).wf(),
            row < 9,
            col < 9,
            wf_digits(list@),
            old(self).cell(row as int, col as int) == 0,
        ensures
            final(self).wf(),
            final(self).cells_view() == old(self).cells_view(),
            final(self).poss(row as int, col as int) == Some(list@),
            forall|r2: int, c2: int|
                in_bounds(r2, c2) && (r2 != row || c2 != col) ==> #[trigger] final(self).poss(
                    r2,
                    c2,
                ) == old(self).poss(r2, c2),
    {
        self.possibilities.set_list(row, col, list);
    }

    /// The 81 cell values as nine rows of nine values.
    pub fn get_cells(&self) -> (rows: Vec<Vec<u8>>)
        requires
            self.wf(),
        ensures
            rows@.len() == 9,
            forall|r: int| 0 <= r < 9 ==> (#[trigger] rows@[r])@.len() == 9,
            forall|r: int, c: int| in_bounds(r, c) ==> (#[trigger] rows@[r]@[c]) == self.cell(r, c),
    {
        let mut rows: Vec<Vec<u8>> = Vec::new();
        let mut r: usize = 0;
        while r < 9
            invariant
                self.wf(),
                0 <= r <= 9,
                rows@.len() == r,
                forall|i: int| 0 <= i < r ==> (#[trigger] rows@[i])@.len() == 9,
                forall|i: int, j: int|
                    0 <= i < r && 0 <= j < 9 ==> (#[trigger] rows@[i]@[j]) == self.cell(i, j),
            decreases 9 - r,
        {
            let mut row: Vec<u8> = Vec::new();
            let mut c: usize = 0;
            while c < 9
                invariant
                    self.wf(),
                    r < 9,
                    0 <= c <= 9,
                    row@.len() == c,
                    forall|j: int| 0 <= j < c ==> (#[trigger] row@[j]) == self.cell(r as int, j),
                decreases 9 - c,
            {
                row.push(self.get_cell(r, c));
                c += 1;
            }
            rows.push(row);
            r += 1;
        }
        rows
    }

    /// The first empty cell in row-major order, if any.
    pub fn find_empty_cell(&self) -> (o: Option<(usize, usize)>)
        requires
            self.wf(),
        ensures
            match o {
                Some(rc) => in_bounds(rc.0 as int, rc.1 as int) && self.cell(
                    rc.0 as int,
                    rc.1 as int,
                ) == 0 && (forall|r: int, c: int|
                    in_bounds(r, c) && (r < rc.0 || (r == rc.0 && c < rc.1))
                        ==> #[trigger] self.cell(r, c) != 0),
                None => forall|r: int, c: int|
                    in_bounds(r, c) ==> #[trigger] self.cell(r, c) != 0,
            },
    {
        let mut r: usize = 0;
        while r < 9
            invariant
                self.wf(),
                0 <= r <= 9,
                forall|i: int, j: int| 0 <= i < r && 0 <= j < 9 ==> #[trigger] self.cell(i, j) != 0,
            decreases 9 - r,
        {
            let mut c: usize = 0;
            while c < 9
                invariant
                    self.wf(),
                    r < 9,
                    0 <= c <= 9,
                    forall|i: int, j: int|
                        0 <= i < r && 0 <= j < 9 ==> #[trigger] self.cell(i, j) != 0,
                    forall|j: int| 0 <= j < c ==> #[trigger] self.cell(r as int, j) != 0,
                decreases 9 - c,
            {
                if self.get_cell(r, c) == 0 {
                    return Some((r, c));
                }
                c += 1;
            }
            r += 1;
        }
        None
    }

    /// Whether digit `num` appears somewhere in column `col`.
    pub(crate) fn used_in_col_exec(&self, col: usize, num: u8) -> (b: bool)
        requires
            self.wf(),
            col < 9,
        ensures
            b == used_in_col(self.cells_view(), col as int, num),
    {
        let mut row: usize = 0;
        while row < 9
            invariant
                self.wf(),
                col < 9,
                0 <= row <= 9,
                forall|i: int| 0 <= i < row ==> #[trigger] self.cell(i, col as int) != num,
            decreases 9 - row,
        {
            if self.get_cell(row, col) == num {
                return true;
            }
            row += 1;
        }
        proof {
            assert forall|i: int| 0 <= i < 9 implies #[trigger] cell_at(
                self.cells_view(),
                i,
                col as int,
            ) != num by {
                assert(self.cell(i, col as int) != num);
            }
        }
        false
    }

    /// Whether digit `num` appears somewhere in row `row`.
    pub(crate) fn used_in_row_exec(&self, row: usize, num: u8) -> (b: bool)
        requires
            self.wf(),
            row < 9,
        ensures
            b == used_in_row(self.cells_view(), row as int, num),
    {
        let mut col: usize = 0;
        while col < 9
            invariant
                self.wf(),
                row < 9,
                0 <= col <= 9,
                forall|j: int| 0 <= j < col ==> #[trigger] self.cell(row as int, j) != num,
            decreases 9 - col,
        {
            if self.get_cell(row, col) == num {
                return true;
            }
            col += 1;
        }
        proof {
            assert forall|j: int| 0 <= j < 9 implies #[trigger] cell_at(
                self.cells_view(),
                row as int,
                j,
            ) != num by {
                assert(self.cell(row as int, j) != num);
            }
        }
        false
    }

    /// Whether digit `num` appears in the box with top-left `(start_row, start_col)`.
    pub(crate) fn used_in_subgrid_exec(&self, start_row: usize, start_col: usize, num: u8) -> (b:
        bool)
        requires
            self.wf(),
            start_row <= 6,
            start_col <= 6,
        ensures
            b == used_in_box(self.cells_view(), start_row as int, start_col as int, num),
    {
        let mut i: usize = 0;
        while i < 3
            invariant
                self.wf(),
                start_row <= 6,
                start_col <= 6,
                0 <= i <= 3,
                forall|a: int, b0: int|
                    0 <= a < i && 0 <= b0 < 3 ==> #[trigger] self.cell(
                        start_row + a,
                        start_col + b0,
                    ) != num,
            decreases 3 - i,
        {
            let mut j: usize = 0;
            while j < 3
                invariant
                    self.wf(),
                    start_row <= 6,
                    start_col <= 6,
                    i < 3,
                    0 <= j <= 3,
                    forall|a: int, b0: int|
                        0 <= a < i && 0 <= b0 < 3 ==> #[trigger] self.cell(
                            start_row + a,
                            start_col + b0,
                        ) != num,
                    forall|b0: int|
                        0 <= b0 < j ==> #[trigger] self.cell(start_row + i, start_col + b0) != num,
                decreases 3 - j,
            {
                if self.get_cell(start_row + i, start_col + j) == num {
                    return true;
                }
                j += 1;
            }
            i += 1;
        }
        proof {
            assert forall|a: int, b0: int| 0 <= a < 3 && 0 <= b0 < 3 implies #[trigger] cell_at(
                self.cells_view(),
                start_row + a,
                start_col + b0,
            ) != num by {
                assert(self.cell(start_row + a, start_col + b0) != num);
            }
        }
        false
    }

    /// Whether placing `num` at `(row, col)` keeps the classic rules intact.
    pub(crate) fn is_classic_valid(&self, row: usize, col: usize, num: u8) -> (b: bool)
        requires
            self.wf(),
            row < 9,
            col < 9,
        ensures
            b == classic_ok(self.cells_view(), row as int, col as int, num),
    {
        proof {
            assert(box_base(row as int) == 3 * ((row / 3) as int));
            assert(box_base(col as int) == 3 * ((col / 3) as int));
        }
        !self.used_in_row_exec(row, num) && !self.used_in_col_exec(col, num)
            && !self.used_in_subgrid_exec(row / 3 * 3, col / 3 * 3, num)
    }

    /// Whether every row, column and box holds each digit 1..=9 exactly once.
    pub fn is_board_valid(&self) -> (b: bool)
        requires
            self.wf(),
        ensures
            b == board_valid(self.cells_view()),
    {
        // Rows
        let mut r: usize = 0;
        while r < 9
            invariant
                self.wf(),
                0 <= r <= 9,
                forall|i: int| 0 <= i < r ==> group_ok(#[trigger] row_seq(self.cells_view(), i)),
            decreases 9 - r,
        {
            let mut group: Vec<u8> = Vec::new();
            let mut c: usize = 0;
            while c < 9
                invariant
                    self.wf(),
                    r < 9,
                    0 <= c <= 9,
                    group@.len() == c,
                    forall|j: int| 0 <= j < c ==> #[trigger] group@[j] == self.cell(r as int, j),
                decreases 9 - c,
            {
                group.push(self.get_cell(r, c));
                c += 1;
            }
            proof {
                assert(group@ =~= row_seq(self.cells_view(), r as int));
            }
            if !Self::is_valid_group(&group) {
                return false;
            }
            r += 1;
        }
        // Columns
        let mut c: usize = 0;
        while c < 9
            invariant
                self.wf(),
                0 <= c <= 9,
                forall|i: int| 0 <= i < 9 ==> group_ok(#[trigger] row_seq(self.cells_view(), i)),
                forall|j: int| 0 <= j < c ==> group_ok(#[trigger] col_seq(self.cells_view(), j)),
            decreases 9 - c,
        {
            let mut group: Vec<u8> = Vec::new();
            let mut r2: usize = 0;
            while r2 < 9
                invariant
                    self.wf(),
                    c < 9,
                    0 <= r2 <= 9,
                    group@.len() == r2,
                    forall|j: int| 0 <= j < r2 ==> #[trigger] group@[j] == self.cell(j, c as int),
                decreases 9 - r2,
            {
                group.push(self.get_cell(r2, c));
                r2 += 1;
            }
            proof {
                assert(group@ =~= col_seq(self.cells_view(), c as int));
            }
            if !Self::is_valid_group(&group) {
                return false;
            }
            c += 1;
        }
        // Boxes
        let mut bi: usize = 0;
        while bi < 3
            invariant
                self.wf(),
                0 <= bi <= 3,
                forall|i: int| 0 <= i < 9 ==> group_ok(#[trigger] row_seq(self.cells_view(), i)),
                forall|j: int| 0 <= j < 9 ==> group_ok(#[trigger] col_seq(self.cells_view(), j)),
                forall|i: int, j: int|
                    0 <= i < bi && 0 <= j < 3 ==> group_ok(
                        #[trigger] box_seq(self.cells_view(), i, j),
                    ),
            decreases 3 - bi,
        {
            let mut bj: usize = 0;
            while bj < 3
                invariant
                    self.wf(),
                    bi < 3,
                    0 <= bj <= 3,
                    forall|i: int, j: int|
                        0 <= i < bi && 0 <= j < 3 ==> group_ok(
                            #[trigger] box_seq(self.cells_view(), i, j),
                        ),
                    forall|j: int|
                        0 <= j < bj ==> group_ok(#[trigger] box_seq(self.cells_view(), bi as int, j)),
                decreases 3 - bj,
            {
                let mut group: Vec<u8> = Vec::new();
                let mut k: usize = 0;
                while k < 9
                    invariant
                        self.wf(),
                        bi < 3,
                        bj < 3,
                        0 <= k <= 9,
                        group@.len() == k,
                        forall|j: int|
                            0 <= j < k ==> #[trigger] group@[j] == self.cell(
                                3 * bi + j / 3,
                                3 * bj + j % 3,
                            ),
                    decreases 9 - k,
                {
                    group.push(self.get_cell(bi * 3 + k / 3, bj * 3 + k % 3));
                    k += 1;
                }
                proof {
                    assert(group@ =~= box_seq(self.cells_view(), bi as int, bj as int));
                }
                if !Self::is_valid_group(&group) {
                    return false;
                }
                bj += 1;
            }
            bi += 1;
        }
        true
    }

    /// Whether the nine values are each a digit and pairwise distinct.
    fn is_valid_group(group: &Vec<u8>) -> (b: bool)
        requires
            group@.len() == 9,
        ensures
            b == group_ok(group@),
    {
        let mut i: usize = 0;
        while i < 9
            invariant
                group@.len() == 9,
                0 <= i <= 9,
                forall|k: int| 0 <= k < i ==> is_digit(#[trigger] group@[k]),
                forall|k: int, j: int| 0 <= k < j < i ==> group@[k] != group@[j],
            decreases 9 - i,
        {
            let v = group[i];
            if v < 1 || v > 9 {
                return false;
            }
            let mut j: usize = 0;
            while j < i
                invariant
                    group@.len() == 9,
                    i < 9,
                    0 <= j <= i,
                    v == group@[i as int],
                    forall|k: int| 0 <= k < j ==> group@[k] != group@[i as int],
                decreases i - j,
            {
                if group[j] == v {
                    proof {
                        assert(group@[j as int] == group@[i as int]);
                        assert(!group_ok(group@));
                    }
                    return false;
                }
                proof {
                    assert(group@[j as int] != group@[i as int]);
                }
                j += 1;
            }
            i += 1;
        }
        true
    }

    /// The digits the classic rules alone still admit at `(row, col)`.
    pub(crate) fn get_standard_possibilities_for_cell(&self, row: usize, col: usize) -> (l: Vec<
        u8,
    >)
        requires
            self.wf(),
            row < 9,
            col < 9,
        ensures
            wf_digits(l@),
            forall|d: u8|
                l@.contains(d) <==> (is_digit(d) && classic_ok(
                    self.cells_view(),
                    row as int,
                    col as int,
                    d,
                )),
    {
        let mut out: Vec<u8> = Vec::new();
        let mut d: u8 = 1;
        while d <= 9
            invariant
                self.wf(),
                row < 9,
                col < 9,
                1 <= d <= 10,
                forall|i: int, j: int| 0 <= i < j < out@.len() ==> out@[i] < out@[j],
                forall|i: int| 0 <= i < out@.len() ==> 1 <= #[trigger] out@[i] < d,
                forall|x: u8|
                    out@.contains(x) <==> (1 <= x < d && classic_ok(
                        self.cells_view(),
                        row as int,
                        col as int,
                        x,
                    )),
            decreases 10 - d,
        {
            let ghost prev = out@;
            if self.is_classic_valid(row, col, d) {
                out.push(d);
                proof {
                    crate::digits::lemma_push_contains(prev, d);
                    assert(out@ == prev.push(d));
                    assert forall|x: u8|
                        #[trigger] out@.contains(x) implies (1 <= x < d + 1 && classic_ok(
                        self.cells_view(),
                        row as int,
                        col as int,
                        x,
                    )) by {
                        assert(prev.contains(x) || x == d);
                    }
                    assert forall|x: u8|
                        (1 <= x < d + 1 && classic_ok(
                            self.cells_view(),
                            row as int,
                            col as int,
                            x,
                        )) implies #[trigger] out@.contains(x) by {
                        if x < d {
                            assert(prev.contains(x));
                        } else {
                            assert(x == d);
                        }
                        assert(prev.contains(x) || x == d);
                    }
                }
            } else {
                proof {
                    assert forall|x: u8|
                        (1 <= x < d + 1 && classic_ok(
                            self.cells_view(),
                            row as int,
                            col as int,
                            x,
                        )) implies #[trigger] out@.contains(x) by {
                        assert(x != d);
                        assert(1 <= x < d);
                    }
                }
            }
            d += 1;
        }
        out
    }
}

/// Candidate lists only ever lose digits going from `g0` to `g1`: whatever
/// entry `g1` still has existed in `g0` and holds a subset of its digits.
pub open spec fn map_shrinks(g0: SudokuGrid, g1: SudokuGrid) -> bool {
    forall|r: int, c: int|
        in_bounds(r, c) ==> ((#[trigger] g1.poss(r, c)) matches Some(l2) ==> (g0.poss(r, c)
            matches Some(l1) && (forall|d: u8| #[trigger] l2.contains(d) ==> l1.contains(d))))
}

/// Shrinking is reflexive.
pub proof fn lemma_shrinks_refl(g: SudokuGrid)
    ensures
        map_shrinks(g, g),
{
    assert forall|r: int, c: int|
        in_bounds(r, c) implies ((#[trigger] g.poss(r, c)) matches Some(l2) ==> (g.poss(r, c)
        matches Some(l1) && (forall|d: u8| #[trigger] l2.contains(d) ==> l1.contains(d)))) by {}
}

/// Shrinking composes.
pub proof fn lemma_shrinks_trans(g0: SudokuGrid, g1: SudokuGrid, g2: SudokuGrid)
    requires
        map_shrinks(g0, g1),
        map_shrinks(g1, g2),
    ensures
        map_shrinks(g0, g2),
{
    assert forall|r: int, c: int|
        in_bounds(r, c) implies ((#[trigger] g2.poss(r, c)) matches Some(l2) ==> (g0.poss(r, c)
        matches Some(l1) && (forall|d: u8| #[trigger] l2.contains(d) ==> l1.contains(d)))) by {
        if let Some(l2) = g2.poss(r, c) {
            assert(g1.poss(r, c) is Some);
            if let Some(lm) = g1.poss(r, c) {
                assert(g0.poss(r, c) is Some);
                if let Some(l1) = g0.poss(r, c) {
                    assert forall|d: u8| #[trigger] l2.contains(d) implies l1.contains(d) by {
                        assert(lm.contains(d));
                    }
                }
            }
        }
    }
}

/// The solver's view of the next branching point.
pub(crate) enum NextCell {
    Cell(usize, usize, Vec<u8>),
    NoEmptyCells,
    DeadEnd,
}

/// A grid whose cells changed only at the placed cell, and whose map keeps an
/// entry exactly for the still-empty cells, is well formed again.
proof fn lemma_wf_after_set(g0: SudokuGrid, g1: SudokuGrid, row: usize, col: usize, value: u8)
    requires
        g0.wf(),
        row < 9,
        col < 9,
        value <= 9,
        g1.cells@ == g0.cells@.update(cell_idx(row as int, col as int), value),
        g1.possibilities.wf(),
        g1.variants@ == g0.variants@,
        value != 0 ==> g1.possibilities.entry(row as int, col as int) is None,
        value != 0 ==> (forall|a: int, b: int|
            in_bounds(a, b) && (a != row || b != col) ==> ((#[trigger] g1.possibilities.entry(
                a,
                b,
            )) is Some <==> g0.possibilities.entry(a, b) is Some)),
    ensures
        value != 0 ==> g1.wf(),
{
    if value != 0 {
        assert(cells_wf(g1.cells@));
        assert forall|r: int, c: int|
            in_bounds(r, c) implies ((#[trigger] g1.possibilities.entry(r, c)) is Some <==> cell_at(
            g1.cells@,
            r,
            c,
        ) == 0) by {
            if r == row && c == col {
                assert(cell_at(g1.cells@, r, c) == value);
            } else {
                if cell_idx(r, c) == cell_idx(row as int, col as int) {
                    lemma_cell_idx_injective(row as int, col as int, r, c);
                }
                assert(cell_at(g1.cells@, r, c) == cell_at(g0.cells@, r, c));
            }
        }
    }
}

} // verus!
