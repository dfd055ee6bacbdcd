use vstd::prelude::*;
use vstd::string::StringExecFns;


use crate::digits::{contains_digit, is_digit, strictly_sorted, wf_digits};
use crate::errors::VariantContradiction;
use crate::grid::{
    board_valid, cell_at, classic_ok, lemma_shrinks_refl, lemma_shrinks_trans, map_shrinks,
    NextCell, SudokuGrid,
};
use crate::possmap::{in_bounds, PossibilityMap};
use crate::variant::util::{pos_list_wf, pos_wf};

verus! {

/// The hard bound on recursive search steps.
pub const MAX_STEPS: usize = 1000000;

/// The box (0..=8) that holds cell `(r, c)`.
pub open spec fn box_index(r: int, c: int) -> int {
    3 * (r / 3) + c / 3
}

/// Cell `(r2, c2)` lies in box `b` and its candidate list in `g` names `d`.
pub open spec fn cand_in_box(g: SudokuGrid, b: int, d: u8, r2: int, c2: int) -> bool {
    &&& in_bounds(r2, c2)
    &&& box_index(r2, c2) == b
    &&& ((g.poss(r2, c2)) matches Some(l) && l.contains(d))
}

/// Some cell of box `b` still admits `d`.
pub open spec fn box_has_cand(g: SudokuGrid, b: int, d: u8) -> bool {
    exists|r2: int, c2: int| #[trigger] cand_in_box(g, b, d, r2, c2)
}

/// Every cell of box `b` that still admits `d` lies in row `r`.
pub open spec fn box_row_confined(g: SudokuGrid, b: int, d: u8, r: int) -> bool {
    forall|r2: int, c2: int| #[trigger] cand_in_box(g, b, d, r2, c2) ==> r2 == r
}

/// Every cell of box `b` that still admits `d` lies in column `c`.
pub open spec fn box_col_confined(g: SudokuGrid, b: int, d: u8, c: int) -> bool {
    forall|r2: int, c2: int| #[trigger] cand_in_box(g, b, d, r2, c2) ==> c2 == c
}

/// Some cell of box `b` in row `r` still admits `d`.
pub open spec fn box_row_cand(g: SudokuGrid, b: int, d: u8, r: int) -> bool {
    exists|c2: int| #[trigger] cand_in_box(g, b, d, r, c2)
}

/// Some cell of box `b` in column `c` still admits `d`.
pub open spec fn box_col_cand(g: SudokuGrid, b: int, d: u8, c: int) -> bool {
    exists|r2: int| #[trigger] cand_in_box(g, b, d, r2, c)
}

/// The cell's candidate list, if it has one, does not name `d`.
pub open spec fn lacks(g: SudokuGrid, r: int, c: int, d: u8) -> bool {
    (g.poss(r, c)) matches Some(l) ==> !l.contains(d)
}

/// What a pointing pair or triple on a row owes. Where the candidates of `d`
/// in box `b` were confined to one row in `g0`, either `d` has been struck
/// from that row's cells outside the box's candidate columns, or `d` has
/// since lost its last place in the box.
pub open spec fn pointed_row_done(g0: SudokuGrid, g: SudokuGrid, b: int, d: u8) -> bool {
    forall|r: int|
        0 <= r < 9 && box_row_confined(g0, b, d, r) && #[trigger] box_row_cand(g0, b, d, r) ==> ((
        forall|c: int| 0 <= c < 9 && !(#[trigger] box_col_cand(g0, b, d, c)) ==> lacks(g, r, c, d))
            || !box_has_cand(g, b, d))
}

/// The column counterpart of `pointed_row_done`.
pub open spec fn pointed_col_done(g0: SudokuGrid, g: SudokuGrid, b: int, d: u8) -> bool {
    forall|c: int|
        0 <= c < 9 && box_col_confined(g0, b, d, c) && #[trigger] box_col_cand(g0, b, d, c) ==> ((
        forall|r: int| 0 <= r < 9 && !(#[trigger] box_row_cand(g0, b, d, r)) ==> lacks(g, r, c, d))
            || !box_has_cand(g, b, d))
}

/// A cell that still admits a digit after shrinking admitted it before.
proof fn lemma_cand_shrinks(g1: SudokuGrid, g2: SudokuGrid, b: int, d: u8, r2: int, c2: int)
    requires
        map_shrinks(g1, g2),
        cand_in_box(g2, b, d, r2, c2),
    ensures
        cand_in_box(g1, b, d, r2, c2),
{
    assert(g2.poss(r2, c2) matches Some(l) && l.contains(d));
}

/// What a pointing pass has already done stays done while candidate lists
/// only shrink: struck digits stay struck, and an emptied box stays empty.
proof fn lemma_pointed_preserved(g0: SudokuGrid, g1: SudokuGrid, g2: SudokuGrid, b: int, d: u8)
    requires
        map_shrinks(g1, g2),
        pointed_row_done(g0, g1, b, d),
        pointed_col_done(g0, g1, b, d),
    ensures
        pointed_row_done(g0, g2, b, d),
        pointed_col_done(g0, g2, b, d),
{
    assert forall|r: int|
        0 <= r < 9 && box_row_confined(g0, b, d, r) && #[trigger] box_row_cand(
            g0,
            b,
            d,
            r,
        ) implies ((forall|c: int|
        0 <= c < 9 && !(#[trigger] box_col_cand(g0, b, d, c)) ==> lacks(g2, r, c, d))
        || !box_has_cand(g2, b, d)) by {
        if box_has_cand(g2, b, d) {
            let (r3, c3) = choose|r3: int, c3: int| #[trigger] cand_in_box(g2, b, d, r3, c3);
            lemma_cand_shrinks(g1, g2, b, d, r3, c3);
            assert(box_has_cand(g1, b, d));
            assert forall|c: int|
                0 <= c < 9 && !(#[trigger] box_col_cand(g0, b, d, c)) implies lacks(
                g2,
                r,
                c,
                d,
            ) by {
                assert(lacks(g1, r, c, d));
                if !lacks(g2, r, c, d) {
                    let l2 = g2.poss(r, c)->Some_0;
                    assert(g2.poss(r, c) == Some(l2) && l2.contains(d));
                    assert(g1.poss(r, c) matches Some(l1) && l1.contains(d));
                }
            }
        }
    }
    assert forall|c: int|
        0 <= c < 9 && box_col_confined(g0, b, d, c) && #[trigger] box_col_cand(
            g0,
            b,
            d,
            c,
        ) implies ((forall|r: int|
        0 <= r < 9 && !(#[trigger] box_row_cand(g0, b, d, r)) ==> lacks(g2, r, c, d))
        || !box_has_cand(g2, b, d)) by {
        if box_has_cand(g2, b, d) {
            let (r3, c3) = choose|r3: int, c3: int| #[trigger] cand_in_box(g2, b, d, r3, c3);
            lemma_cand_shrinks(g1, g2, b, d, r3, c3);
            assert(box_has_cand(g1, b, d));
            assert forall|r: int|
                0 <= r < 9 && !(#[trigger] box_row_cand(g0, b, d, r)) implies lacks(
                g2,
                r,
                c,
                d,
            ) by {
                assert(lacks(g1, r, c, d));
                if !lacks(g2, r, c, d) {
                    let l2 = g2.poss(r, c)->Some_0;
                    assert(g2.poss(r, c) == Some(l2) && l2.contains(d));
                    assert(g1.poss(r, c) matches Some(l1) && l1.contains(d));
                }
            }
        }
    }
}

/// Each cell of box `b` stands at index `3 * (r % 3) + c % 3` of the box's
/// row-major cell list, and that list's cell `k` lies in box `b`.
proof fn lemma_box_cell_index(b: int, r2: int, c2: int)
    requires
        0 <= b < 9,
        in_bounds(r2, c2),
        box_index(r2, c2) == b,
    ensures
        ({
            let k = 3 * (r2 % 3) + c2 % 3;
            &&& 0 <= k < 9
            &&& (b / 3) * 3 + k / 3 == r2
            &&& (b % 3) * 3 + k % 3 == c2
        }),
{
    vstd::arithmetic::div_mod::lemma_fundamental_div_mod(r2, 3);
    vstd::arithmetic::div_mod::lemma_mod_bound(r2, 3);
    vstd::arithmetic::div_mod::lemma_fundamental_div_mod(c2, 3);
    vstd::arithmetic::div_mod::lemma_mod_bound(c2, 3);
    vstd::arithmetic::div_mod::lemma_fundamental_div_mod_converse(b, 3, r2 / 3, c2 / 3);
    let k = 3 * (r2 % 3) + c2 % 3;
    vstd::arithmetic::div_mod::lemma_fundamental_div_mod_converse(k, 3, r2 % 3, c2 % 3);
}

/// The cell at index `k` of box `b`'s row-major cell list lies in box `b`.
proof fn lemma_box_index_cell(b: int, k: int)
    requires
        0 <= b < 9,
        0 <= k < 9,
    ensures
        ({
            let r2 = (b / 3) * 3 + k / 3;
            let c2 = (b % 3) * 3 + k % 3;
            &&& in_bounds(r2, c2)
            &&& box_index(r2, c2) == b
        }),
{
    vstd::arithmetic::div_mod::lemma_fundamental_div_mod(b, 3);
    vstd::arithmetic::div_mod::lemma_mod_bound(b, 3);
    vstd::arithmetic::div_mod::lemma_fundamental_div_mod(k, 3);
    vstd::arithmetic::div_mod::lemma_mod_bound(k, 3);
    let r2 = (b / 3) * 3 + k / 3;
    let c2 = (b % 3) * 3 + k % 3;
    vstd::arithmetic::div_mod::lemma_fundamental_div_mod_converse(r2, 3, b / 3, k / 3);
    vstd::arithmetic::div_mod::lemma_fundamental_div_mod_converse(c2, 3, b % 3, k % 3);
}

/// A most-constrained-cell backtracking search over the grid's candidate map,
/// with naked-subset, pointing-pair and hidden-pair narrowing after each
/// placement, under a hard step budget.
pub struct Solver {
    max_steps: usize,
}

impl Solver {
    /// The solver's step budget.
    pub closed spec fn budget(self) -> int {
        self.max_steps as int
    }

    /// A solver with a chosen step budget instead of the default one.
    pub fn with_max_steps(max_steps: usize) -> (s: Solver)
        ensures
            s.budget() == max_steps,
    {
        Solver { max_steps }
    }

    /// A line of text naming the candidate list of `(row, col)`.
    pub fn possibilities_to_string(&self, grid: &SudokuGrid, row: usize, col: usize) -> (s: String)
        requires
            grid.wf(),
            row < 9,
            col < 9,
    {
        let mut out = digit_str(row as u8).to_owned();
        out.append(",");
        out.append(digit_str(col as u8));
        out.append(" -> ");
        match grid.possibilities_entry(row, col) {
            Some(l) => {
                out.append("[");
                let mut i: usize = 0;
                while i < l.len()
                    invariant
                        0 <= i <= l@.len(),
                        crate::digits::wf_digits(l@),
                    decreases l@.len() - i,
                {
                    proof {
                        assert(crate::digits::is_digit(l@[i as int]));
                    }
                    out.append(digit_str(l[i]));
                    if i + 1 < l.len() {
                        out.append(", ");
                    }
                    i += 1;
                }
                out.append("]");
            },
            None => {
                out.append("no candidate entry");
            },
        }
        out
    }

    /// Prepare the grid for search: give every empty cell the digits the
    /// classic rules still allow there, narrowed by every variant's candidate
    /// sets. A cell left without candidates is reported as a contradiction
    /// and the grid is not changed.
    pub fn new(grid: &mut SudokuGrid) -> (result: Result<Solver, VariantContradiction>)
        requires
            old(grid).wf(),
        ensures
            final(grid).wf(),
            final(grid).cells_view() == old(grid).cells_view(),
            final(grid).variants_view() == old(grid).variants_view(),
            result matches Ok(s) ==> s.budget() == MAX_STEPS,
            result is Err ==> (forall|r: int, c: int|
                in_bounds(r, c) ==> #[trigger] final(grid).poss(r, c) == old(grid).poss(r, c)),
            result is Ok ==> (forall|r: int, c: int|
                in_bounds(r, c) ==> ((#[trigger] final(grid).poss(r, c)) matches Some(l) ==> (
                forall|d: u8|
                    #[trigger] l.contains(d) ==> is_digit(d) && classic_ok(
                        final(grid).cells_view(),
                        r,
                        c,
                        d,
                    )))),
            result is Ok && old(grid).variants_view().len() == 0 ==> (forall|r: int, c: int|
                in_bounds(r, c) ==> ((#[trigger] final(grid).poss(r, c)) matches Some(l) ==> (
                forall|d: u8|
                    #[trigger] l.contains(d) <==> is_digit(d) && classic_ok(
                        final(grid).cells_view(),
                        r,
                        c,
                        d,
                    )))),
            result is Err ==> old(grid).variants_view().len() > 0 || (exists|r: int, c: int|
                in_bounds(r, c) && #[trigger] cell_at(old(grid).cells_view(), r, c) == 0 && (
                forall|d: u8| !(is_digit(d) && classic_ok(old(grid).cells_view(), r, c, d)))),
            old(grid).variants_view().len() == 0 ==> (result is Err <==> exists|r: int, c: int|
                in_bounds(r, c) && #[trigger] cell_at(old(grid).cells_view(), r, c) == 0 && (
                forall|d: u8| !(is_digit(d) && classic_ok(old(grid).cells_view(), r, c, d)))),
    {
        let mut m = PossibilityMap::new_blank();
        let mut r: usize = 0;
        while r < 9
            invariant
                grid.wf(),
                *grid == *old(grid),
                m.wf(),
                0 <= r <= 9,
                forall|a: int, b: int|
                    in_bounds(a, b) ==> ((#[trigger] m.entry(a, b)) is Some <==> (a < r
                        && grid.cell(a, b) == 0)),
                forall|a: int, b: int|
                    in_bounds(a, b) ==> ((#[trigger] m.entry(a, b)) matches Some(l) ==> (forall|
                        d: u8,
                    |
                        #[trigger] l.contains(d) <==> is_digit(d) && classic_ok(
                            grid.cells_view(),
                            a,
                            b,
                            d,
                        ))),
            decreases 9 - r,
        {
            let mut c: usize = 0;
            while c < 9
                invariant
                    grid.wf(),
                    *grid == *old(grid),
                    m.wf(),
                    r < 9,
                    0 <= c <= 9,
                    forall|a: int, b: int|
                        in_bounds(a, b) ==> ((#[trigger] m.entry(a, b)) is Some <==> ((a < r || (a
                            == r && b < c)) && grid.cell(a, b) == 0)),
                    forall|a: int, b: int|
                        in_bounds(a, b) ==> ((#[trigger] m.entry(a, b)) matches Some(l) ==> (
                        forall|d: u8|
                            #[trigger] l.contains(d) <==> is_digit(d) && classic_ok(
                                grid.cells_view(),
                                a,
                                b,
                                d,
                            ))),
                decreases 9 - c,
            {
                if grid.get_cell(r, c) == 0 {
                    let l = grid.get_standard_possibilities_for_cell(r, c);
                    m.set_list(r, c, l);
                }
                c += 1;
            }
            r += 1;
        }
        // Narrow by each variant's own candidate sets.
        let ghost classic_exact = m;
        let n = grid.variants_len();
        let mut vi: usize = 0;
        while vi < n
            invariant
                grid.wf(),
                *grid == *old(grid),
                m.wf(),
                n == grid.variants_view().len(),
                n == 0 ==> m == classic_exact,
                0 <= vi <= n,
                forall|a: int, b: int|
                    in_bounds(a, b) ==> ((#[trigger] m.entry(a, b)) is Some <==> grid.cell(a, b)
                        == 0),
                forall|a: int, b: int|
                    in_bounds(a, b) ==> ((#[trigger] m.entry(a, b)) matches Some(l) ==> (forall|
                        d: u8,
                    |
                        #[trigger] l.contains(d) ==> is_digit(d) && classic_ok(
                            grid.cells_view(),
                            a,
                            b,
                            d,
                        ))),
            decreases n - vi,
        {
            let result = grid.variant_possibilities(vi);
            match result {
                Err(e) => {
                    proof {
                        assert(grid.variants_view().len() > 0);
                    }
                    return Err(e);
                },
                Ok(vm) => {
                    let mut a: usize = 0;
                    while a < 9
                        invariant
                            grid.wf(),
                            *grid == *old(grid),
                            m.wf(),
                            vm.wf(),
                            0 <= a <= 9,
                            forall|a2: int, b2: int|
                                in_bounds(a2, b2) ==> ((#[trigger] m.entry(a2, b2)) is Some
                                    <==> grid.cell(a2, b2) == 0),
                            forall|a2: int, b2: int|
                                in_bounds(a2, b2) ==> ((#[trigger] m.entry(a2, b2)) matches Some(l)
                                    ==> (forall|d: u8|
                                    #[trigger] l.contains(d) ==> is_digit(d) && classic_ok(
                                        grid.cells_view(),
                                        a2,
                                        b2,
                                        d,
                                    ))),
                        decreases 9 - a,
                    {
                        let mut b: usize = 0;
                        while b < 9
                            invariant
                                grid.wf(),
                                *grid == *old(grid),
                                m.wf(),
                                vm.wf(),
                                a < 9,
                                0 <= b <= 9,
                                forall|a2: int, b2: int|
                                    in_bounds(a2, b2) ==> ((#[trigger] m.entry(a2, b2)) is Some
                                        <==> grid.cell(a2, b2) == 0),
                                forall|a2: int, b2: int|
                                    in_bounds(a2, b2) ==> ((#[trigger] m.entry(a2, b2))
                                        matches Some(l) ==> (forall|d: u8|
                                        #[trigger] l.contains(d) ==> is_digit(d) && classic_ok(
                                            grid.cells_view(),
                                            a2,
                                            b2,
                                            d,
                                        ))),
                            decreases 9 - b,
                        {
                            match vm.get_list(a, b) {
                                Some(allowed) => {
                                    let ghost mbefore = m;
                                    proof {
                                        if let Some(l) = m.entry(a as int, b as int) {
                                            crate::digits::lemma_kept_props(l, allowed@);
                                        }
                                    }
                                    m.intersect_entry(a, b, &allowed);
                                    proof {
                                        assert forall|a2: int, b2: int|
                                            in_bounds(a2, b2) implies ((#[trigger] m.entry(a2, b2))
                                            matches Some(l) ==> (forall|d: u8|
                                            #[trigger] l.contains(d) ==> is_digit(d) && classic_ok(
                                                grid.cells_view(),
                                                a2,
                                                b2,
                                                d,
                                            ))) by {
                                            if a2 == a as int && b2 == b as int {
                                                if let Some(lb) = mbefore.entry(a2, b2) {
                                                    assert(m.entry(a2, b2) == Some(
                                                        crate::digits::kept(lb, allowed@),
                                                    ));
                                                    assert forall|d: u8|
                                                        #[trigger] crate::digits::kept(
                                                            lb,
                                                            allowed@,
                                                        ).contains(d) implies is_digit(d)
                                                        && classic_ok(
                                                        grid.cells_view(),
                                                        a2,
                                                        b2,
                                                        d,
                                                    ) by {
                                                        assert(lb.contains(d));
                                                    }
                                                }
                                            } else {
                                                assert(m.entry(a2, b2) == mbefore.entry(a2, b2));
                                            }
                                        }
                                    }
                                },
                                None => {},
                            }
                            b += 1;
                        }
                        a += 1;
                    }
                },
            }
            vi += 1;
        }
        // An empty candidate list at this point means the givens admit no digit there.
        let mut bad = false;
        let mut bad_cell: (usize, usize) = (0, 0);
        let mut r2: usize = 0;
        while r2 < 9
            invariant
                grid.wf(),
                *grid == *old(grid),
                m.wf(),
                0 <= r2 <= 9,
                bad ==> in_bounds(bad_cell.0 as int, bad_cell.1 as int) && ((#[trigger] m.entry(
                    bad_cell.0 as int,
                    bad_cell.1 as int,
                )) matches Some(l) && l.len() == 0),
                forall|a: int, b: int|
                    in_bounds(a, b) && a < r2 && !bad ==> ((#[trigger] m.entry(a, b)) matches Some(
                        l,
                    ) ==> l.len() > 0),
            decreases 9 - r2,
        {
            let mut c2: usize = 0;
            while c2 < 9
                invariant
                    grid.wf(),
                    *grid == *old(grid),
                    m.wf(),
                    r2 < 9,
                    0 <= c2 <= 9,
                    bad ==> in_bounds(bad_cell.0 as int, bad_cell.1 as int) && ((
                    #[trigger] m.entry(bad_cell.0 as int, bad_cell.1 as int)) matches Some(l)
                        && l.len() == 0),
                    forall|a: int, b: int|
                        in_bounds(a, b) && (a < r2 || (a == r2 && b < c2)) && !bad ==> ((
                        #[trigger] m.entry(a, b)) matches Some(l) ==> l.len() > 0),
                decreases 9 - c2,
            {
                match m.get_list(r2, c2) {
                    Some(l) => {
                        if l.len() == 0 && !bad {
                            bad = true;
                            bad_cell = (r2, c2);
                        }
                    },
                    None => {},
                }
                c2 += 1;
            }
            r2 += 1;
        }
        if bad {
            proof {
                // The emptied cell names an empty grid cell, and with no
                // variants it admits no classically valid digit at all.
                assert(cell_at(grid.cells_view(), bad_cell.0 as int, bad_cell.1 as int) == 0);
                if grid.variants_view().len() == 0 {
                    assert(m == classic_exact);
                    if let Some(l) = m.entry(bad_cell.0 as int, bad_cell.1 as int) {
                        assert forall|d: u8|
                            !(is_digit(d) && classic_ok(
                                grid.cells_view(),
                                bad_cell.0 as int,
                                bad_cell.1 as int,
                                d,
                            )) by {
                            if is_digit(d) && classic_ok(
                                grid.cells_view(),
                                bad_cell.0 as int,
                                bad_cell.1 as int,
                                d,
                            ) {
                                assert(l.contains(d));
                            }
                        }
                    }
                }
            }
            return Err(VariantContradiction::NoPossibilities {
                cell: bad_cell,
                variant: "Solver",
                reason: "no candidates after intersecting rules".to_owned(),
            });
        }
        proof {
            if grid.variants_view().len() == 0 {
                assert(m == classic_exact);
                // Every empty cell kept at least one digit, so each admits a
                // classically valid digit.
                assert forall|r: int, c: int|
                    in_bounds(r, c) && #[trigger] cell_at(grid.cells_view(), r, c)
                        == 0 implies !(forall|d: u8|
                    !(is_digit(d) && classic_ok(grid.cells_view(), r, c, d))) by {
                    assert(m.entry(r, c) is Some);
                    if let Some(l) = m.entry(r, c) {
                        assert(l.len() > 0);
                        let d0 = l[0];
                        assert(l.contains(d0));
                        assert(is_digit(d0) && classic_ok(grid.cells_view(), r, c, d0));
                    }
                }
            }
        }
        grid.replace_possibilities(m);
        Ok(Solver { max_steps: MAX_STEPS })
    }

    /// Search for a full assignment. On success the grid is fully assigned,
    /// classically valid and accepted by every variant; on failure (the
    /// puzzle is unsatisfiable from here, or the step budget ran out) the
    /// grid's cells and candidate map are exactly as before the call.
    pub fn solve(&self, grid: &mut SudokuGrid, _debug: bool) -> (r: bool)
        requires
            old(grid).wf(),
        ensures
            final(grid).wf(),
            final(grid).variants_view() == old(grid).variants_view(),
            r ==> board_valid(final(grid).cells_view()) && final(grid).all_variants_ok(),
            !r ==> final(grid).cells_view() == old(grid).cells_view() && (forall|r2: int, c2: int|
                in_bounds(r2, c2) ==> #[trigger] final(grid).poss(r2, c2) == old(grid).poss(
                    r2,
                    c2,
                )),
            self.budget() >= 1 && (forall|r2: int, c2: int|
                in_bounds(r2, c2) ==> #[trigger] old(grid).cell(r2, c2) != 0) && board_valid(
                old(grid).cells_view(),
            ) && old(grid).all_variants_ok() ==> r,
    {
        let res = self.solve_recursive(grid, self.max_steps);
        res.0
    }

    /// One search node: pick the most constrained cell, try each of its
    /// candidates with propagation and the inference passes, and backtrack
    /// to the exact entry state when none leads to a solution.
    fn solve_recursive(&self, grid: &mut SudokuGrid, budget: usize) -> (res: (bool, usize))
        requires
            old(grid).wf(),
        ensures
            final(grid).wf(),
            final(grid).variants_view() == old(grid).variants_view(),
            res.0 ==> board_valid(final(grid).cells_view()) && final(grid).all_variants_ok(),
            !res.0 ==> final(grid).cells_view() == old(grid).cells_view() && (forall|
                r2: int,
                c2: int,
            |
                in_bounds(r2, c2) ==> #[trigger] final(grid).poss(r2, c2) == old(grid).poss(
                    r2,
                    c2,
                )),
            res.1 <= budget,
            budget >= 1 && (forall|r2: int, c2: int|
                in_bounds(r2, c2) ==> #[trigger] old(grid).cell(r2, c2) != 0) && board_valid(
                old(grid).cells_view(),
            ) && old(grid).all_variants_ok() ==> res.0,
        decreases budget,
    {
        if budget == 0 {
            return (false, 0);
        }
        let next = grid.most_constrained();
        match next {
            NextCell::NoEmptyCells => {
                let ok = grid.is_board_valid() && grid.variants_all_valid();
                (ok, 1)
            },
            NextCell::DeadEnd => {
                proof {
                    // A dead end names an empty cell, so the grid was not
                    // already fully assigned.
                    grid.lemma_poss_presence();
                }
                (false, 1)
            },
            NextCell::Cell(row, col, cands) => {
                let saved = grid.possibilities_snapshot();
                let ghost entry_grid = *old(grid);
                let mut used: usize = 1;
                let mut ci: usize = 0;
                while ci < cands.len()
                    invariant
                        grid.wf(),
                        entry_grid == *old(grid),
                        entry_grid.wf(),
                        grid.cells_view() == entry_grid.cells_view(),
                        grid.variants_view() == entry_grid.variants_view(),
                        forall|a: int, b: int|
                            in_bounds(a, b) ==> #[trigger] grid.poss(a, b) == entry_grid.poss(
                                a,
                                b,
                            ),
                        row < 9,
                        col < 9,
                        entry_grid.cell(row as int, col as int) == 0,
                        wf_digits(cands@),
                        saved.wf(),
                        forall|a: int, b: int|
                            in_bounds(a, b) ==> #[trigger] saved.entry(a, b) == entry_grid.poss(
                                a,
                                b,
                            ),
                        0 <= ci <= cands@.len(),
                        1 <= used <= budget,
                        budget >= 1,
                    decreases cands@.len() - ci,
                {
                    let d = cands[ci];
                    proof {
                        assert(cands@.contains(cands@[ci as int]));
                        assert(is_digit(d));
                    }
                    let set_res = grid.set_cell(row, col, d);
                    if set_res.is_ok() {
                        self.apply_naked_subsets(grid);
                        self.apply_pointing_pairs(grid);
                        self.apply_hidden_pairs(grid);
                        let child = self.solve_recursive(grid, budget - used);
                        used = used + child.1;
                        if child.0 {
                            return (true, used);
                        }
                    }
                    proof {
                        entry_grid.lemma_poss_presence();
                        assert(grid.cells_view() == entry_grid.cells_view().update(
                            crate::possmap::cell_idx(row as int, col as int),
                            d,
                        ));
                    }
                    // Backtrack: clear the cell and restore the candidate map.
                    let clear_res = grid.set_cell(row, col, 0);
                    proof {
                        assert(grid.cells_view() == entry_grid.cells_view().update(
                            crate::possmap::cell_idx(row as int, col as int),
                            d,
                        ).update(crate::possmap::cell_idx(row as int, col as int), 0u8));
                        assert(entry_grid.cells_view()[crate::possmap::cell_idx(
                            row as int,
                            col as int,
                        )] == 0);
                        assert(grid.cells_view() =~= entry_grid.cells_view());
                        entry_grid.lemma_poss_presence();
                    }
                    let restore = saved.snapshot();
                    grid.replace_possibilities(restore);
                    ci += 1;
                }
                (false, used)
            },
        }
    }

    /// In every row, column and box: a set of 2 to 4 empty cells whose
    /// combined candidates are exactly as many digits claims those digits,
    /// which are struck from the other cells of the unit. Candidate lists
    /// only shrink; cells and variants are untouched.
    pub fn apply_naked_subsets(&self, grid: &mut SudokuGrid)
        requires
            old(grid).wf(),
        ensures
            final(grid).wf(),
            final(grid).cells_view() == old(grid).cells_view(),
            final(grid).variants_view() == old(grid).variants_view(),
            map_shrinks(*old(grid), *final(grid)),
    {
        let units = all_units();
        let mut idxs: Vec<u8> = Vec::new();
        let mut i0: usize = 0;
        while i0 < 9
            invariant
                0 <= i0 <= 9,
                idxs@.len() == i0,
                forall|q: int| 0 <= q < i0 ==> #[trigger] idxs@[q] == q,
            decreases 9 - i0,
        {
            idxs.push(i0 as u8);
            i0 += 1;
        }
        let pair_sel = crate::combos::combinations_u8(&idxs, 2);
        let triple_sel = crate::combos::combinations_u8(&idxs, 3);
        let quad_sel = crate::combos::combinations_u8(&idxs, 4);
        let mut ui: usize = 0;
        proof {
            lemma_shrinks_refl(*grid);
        }
        while ui < units.len()
            invariant
                grid.wf(),
                grid.cells_view() == old(grid).cells_view(),
                grid.variants_view() == old(grid).variants_view(),
                map_shrinks(*old(grid), *grid),
                forall|u: int|
                    0 <= u < units@.len() ==> pos_list_wf((#[trigger] units@[u])@) && (
                units@[u])@.len() == 9,
                sel_ok(pair_sel@),
                sel_ok(triple_sel@),
                sel_ok(quad_sel@),
                0 <= ui <= units@.len(),
            decreases units@.len() - ui,
        {
            let ghost mid1 = *grid;
            self.naked_subsets_in_unit(grid, &units[ui], &pair_sel);
            proof {
                lemma_shrinks_trans(*old(grid), mid1, *grid);
            }
            let ghost mid2 = *grid;
            self.naked_subsets_in_unit(grid, &units[ui], &triple_sel);
            proof {
                lemma_shrinks_trans(*old(grid), mid2, *grid);
            }
            let ghost mid3 = *grid;
            self.naked_subsets_in_unit(grid, &units[ui], &quad_sel);
            proof {
                lemma_shrinks_trans(*old(grid), mid3, *grid);
            }
            ui += 1;
        }
    }

    /// Apply the naked-subset elimination inside one unit, for the cell
    /// selections of one size.
    fn naked_subsets_in_unit(
        &self,
        grid: &mut SudokuGrid,
        unit: &Vec<(usize, usize)>,
        selections: &Vec<Vec<u8>>,
    )
        requires
            old(grid).wf(),
            pos_list_wf(unit@),
            unit@.len() == 9,
            sel_ok(selections@),
        ensures
            final(grid).wf(),
            final(grid).cells_view() == old(grid).cells_view(),
            final(grid).variants_view() == old(grid).variants_view(),
            map_shrinks(*old(grid), *final(grid)),
    {
        // Snapshot the unit cells that hold 2 to 4 candidates.
        let mut cellpos: Vec<(usize, usize)> = Vec::new();
        let mut lists: Vec<Vec<u8>> = Vec::new();
        let mut k: usize = 0;
        while k < unit.len()
            invariant
                grid.wf(),
                *grid == *old(grid),
                pos_list_wf(unit@),
                unit@.len() == 9,
                0 <= k <= 9,
                cellpos@.len() == lists@.len(),
                cellpos@.len() <= k,
                pos_list_wf(cellpos@),
            decreases 9 - k,
        {
            assert(pos_wf(unit@[k as int]));
            let p = unit[k];
            match grid.possibilities_entry(p.0, p.1) {
                Some(l) => {
                    if l.len() >= 2 && l.len() <= 4 {
                        cellpos.push(p);
                        lists.push(l);
                    }
                },
                None => {},
            }
            k += 1;
        }
        let m = cellpos.len();
        proof {
            lemma_shrinks_refl(*grid);
        }
        let mut t: usize = 0;
        while t < selections.len()
            invariant
                grid.wf(),
                grid.cells_view() == old(grid).cells_view(),
                grid.variants_view() == old(grid).variants_view(),
                map_shrinks(*old(grid), *grid),
                pos_list_wf(unit@),
                unit@.len() == 9,
                pos_list_wf(cellpos@),
                cellpos@.len() == lists@.len(),
                cellpos@.len() == m,
                m <= 9,
                sel_ok(selections@),
                0 <= t <= selections@.len(),
            decreases selections@.len() - t,
        {
            let combo = &selections[t];
            let n = combo.len();
            // Skip selections that reach past the eligible cells.
            let mut in_range = true;
            let mut j0: usize = 0;
            while j0 < n
                invariant
                    n == combo@.len(),
                    cellpos@.len() == m,
                    0 <= j0 <= n,
                    in_range ==> forall|j: int| 0 <= j < j0 ==> #[trigger] combo@[j] < m,
                decreases n - j0,
            {
                if combo[j0] as usize >= m {
                    in_range = false;
                }
                j0 += 1;
            }
            if in_range && n >= 1 {
                proof {
                    assert(forall|j: int| 0 <= j < n ==> #[trigger] combo@[j] < m);
                }
                // Union of the candidates of the chosen cells.
                let mut uni: Vec<u8> = Vec::new();
                let mut d: u8 = 1;
                while d <= 9
                    invariant
                        1 <= d <= 10,
                        m <= 9,
                        cellpos@.len() == lists@.len(),
                        cellpos@.len() == m,
                        n == combo@.len(),
                        forall|j: int| 0 <= j < n ==> #[trigger] combo@[j] < m,
                        forall|i2: int, j2: int| 0 <= i2 < j2 < uni@.len() ==> uni@[i2] < uni@[j2],
                        forall|i2: int| 0 <= i2 < uni@.len() ==> 1 <= #[trigger] uni@[i2] < d,
                    decreases 10 - d,
                {
                    let mut any = false;
                    let mut j: usize = 0;
                    while j < n
                        invariant
                            n == combo@.len(),
                            cellpos@.len() == lists@.len(),
                            cellpos@.len() == m,
                            forall|j2: int| 0 <= j2 < n ==> #[trigger] combo@[j2] < m,
                            0 <= j <= n,
                        decreases n - j,
                    {
                        let ii = combo[j] as usize;
                        if contains_digit(&lists[ii], d) {
                            any = true;
                        }
                        j += 1;
                    }
                    if any {
                        uni.push(d);
                    }
                    d += 1;
                }
                if uni.len() == n {
                    // Strike the union digits from every other cell of the unit.
                    let mut k2: usize = 0;
                    while k2 < unit.len()
                        invariant
                            grid.wf(),
                            grid.cells_view() == old(grid).cells_view(),
                            grid.variants_view() == old(grid).variants_view(),
                            map_shrinks(*old(grid), *grid),
                            pos_list_wf(unit@),
                            unit@.len() == 9,
                            pos_list_wf(cellpos@),
                            cellpos@.len() == lists@.len(),
                            cellpos@.len() == m,
                            m <= 9,
                            n == combo@.len(),
                            forall|j2: int| 0 <= j2 < n ==> #[trigger] combo@[j2] < m,
                            0 <= k2 <= 9,
                        decreases 9 - k2,
                    {
                        assert(pos_wf(unit@[k2 as int]));
                        let p = unit[k2];
                        let mut inc = false;
                        let mut j2: usize = 0;
                        while j2 < n
                            invariant
                                n == combo@.len(),
                                cellpos@.len() == lists@.len(),
                                cellpos@.len() == m,
                                forall|j3: int| 0 <= j3 < n ==> #[trigger] combo@[j3] < m,
                                0 <= j2 <= n,
                            decreases n - j2,
                        {
                            let ii = combo[j2] as usize;
                            let q = cellpos[ii];
                            if q.0 == p.0 && q.1 == p.1 {
                                inc = true;
                            }
                            j2 += 1;
                        }
                        if !inc {
                            let mut u3: usize = 0;
                            while u3 < uni.len()
                                invariant
                                    grid.wf(),
                                    grid.cells_view() == old(grid).cells_view(),
                                    grid.variants_view() == old(grid).variants_view(),
                                    map_shrinks(*old(grid), *grid),
                                    pos_wf((p.0, p.1)),
                                    p == unit@[k2 as int],
                                    0 <= u3 <= uni@.len(),
                                decreases uni@.len() - u3,
                            {
                                let ghost mid = *grid;
                                grid.remove_candidate(p.0, p.1, uni[u3]);
                                proof {
                                    lemma_shrinks_trans(*old(grid), mid, *grid);
                                }
                                u3 += 1;
                            }
                        }
                        k2 += 1;
                    }
                }
            }
            t += 1;
        }
    }

    /// In each box: when every cell that still admits a digit lies in one
    /// row (or column), strike that digit from the rest of that row (or
    /// column). Candidate lists only shrink; cells and variants are
    /// untouched.
    pub fn apply_pointing_pairs(&self, grid: &mut SudokuGrid)
        requires
            old(grid).wf(),
        ensures
            final(grid).wf(),
            final(grid).cells_view() == old(grid).cells_view(),
            final(grid).variants_view() == old(grid).variants_view(),
            map_shrinks(*old(grid), *final(grid)),
            forall|b: int, d: u8|
                0 <= b < 9 && is_digit(d) ==> #[trigger] pointed_row_done(
                    *old(grid),
                    *final(grid),
                    b,
                    d,
                ),
            forall|b: int, d: u8|
                0 <= b < 9 && is_digit(d) ==> #[trigger] pointed_col_done(
                    *old(grid),
                    *final(grid),
                    b,
                    d,
                ),
    {
        proof {
            lemma_shrinks_refl(*grid);
        }
        let boxes = all_boxes();
        let mut value: u8 = 1;
        while value <= 9
            invariant
                grid.wf(),
                grid.cells_view() == old(grid).cells_view(),
                grid.variants_view() == old(grid).variants_view(),
                map_shrinks(*old(grid), *grid),
                1 <= value <= 10,
                boxes@.len() == 9,
                forall|u: int|
                    0 <= u < 9 ==> pos_list_wf((#[trigger] boxes@[u])@) && (boxes@[u])@.len() == 9,
                forall|u: int, k: int|
                    0 <= u < 9 && 0 <= k < 9 ==> #[trigger] (boxes@[u])@[k] == ((((u / 3) * 3
                        + k / 3) as usize), (((u % 3) * 3 + k % 3) as usize)),
                forall|b: int, d: u8|
                    0 <= b < 9 && 1 <= d < value ==> #[trigger] pointed_row_done(
                        *old(grid),
                        *grid,
                        b,
                        d,
                    ),
                forall|b: int, d: u8|
                    0 <= b < 9 && 1 <= d < value ==> #[trigger] pointed_col_done(
                        *old(grid),
                        *grid,
                        b,
                        d,
                    ),
            decreases 10 - value,
        {
            let mut bx: usize = 0;
            while bx < 9
                invariant
                    grid.wf(),
                    grid.cells_view() == old(grid).cells_view(),
                    grid.variants_view() == old(grid).variants_view(),
                    map_shrinks(*old(grid), *grid),
                    1 <= value <= 9,
                    0 <= bx <= 9,
                    boxes@.len() == 9,
                    forall|u: int|
                        0 <= u < 9 ==> pos_list_wf((#[trigger] boxes@[u])@) && (boxes@[u])@.len()
                            == 9,
                    forall|u: int, k: int|
                        0 <= u < 9 && 0 <= k < 9 ==> #[trigger] (boxes@[u])@[k] == ((((u / 3) * 3
                            + k / 3) as usize), (((u % 3) * 3 + k % 3) as usize)),
                    forall|b: int, d: u8|
                        0 <= b < 9 && 1 <= d < value ==> #[trigger] pointed_row_done(
                            *old(grid),
                            *grid,
                            b,
                            d,
                        ),
                    forall|b: int, d: u8|
                        0 <= b < 9 && 1 <= d < value ==> #[trigger] pointed_col_done(
                            *old(grid),
                            *grid,
                            b,
                            d,
                        ),
                    forall|b: int|
                        0 <= b < bx ==> #[trigger] pointed_row_done(*old(grid), *grid, b, value),
                    forall|b: int|
                        0 <= b < bx ==> #[trigger] pointed_col_done(*old(grid), *grid, b, value),
                decreases 9 - bx,
            {
                let ghost gs = *grid;
                let a_box = &boxes[bx];
                // Collect the cells of this box whose candidates include the digit.
                let mut cand: Vec<(usize, usize)> = Vec::new();
                let mut k: usize = 0;
                while k < 9
                    invariant
                        *grid == gs,
                        grid.wf(),
                        bx < 9,
                        1 <= value <= 9,
                        boxes@.len() == 9,
                        a_box@ == boxes@[bx as int]@,
                        pos_list_wf(a_box@),
                        a_box@.len() == 9,
                        forall|k2: int|
                            0 <= k2 < 9 ==> #[trigger] a_box@[k2] == ((((bx as int / 3) * 3
                                + k2 / 3) as usize), (((bx as int % 3) * 3 + k2 % 3) as usize)),
                        0 <= k <= 9,
                        pos_list_wf(cand@),
                        forall|j: int|
                            0 <= j < cand@.len() ==> cand_in_box(
                                gs,
                                bx as int,
                                value,
                                (#[trigger] cand@[j]).0 as int,
                                cand@[j].1 as int,
                            ),
                        forall|k2: int|
                            0 <= k2 < k ==> (cand_in_box(
                                gs,
                                bx as int,
                                value,
                                (#[trigger] a_box@[k2]).0 as int,
                                a_box@[k2].1 as int,
                            ) ==> exists|j: int|
                                0 <= j < cand@.len() && #[trigger] cand@[j] == a_box@[k2]),
                    decreases 9 - k,
                {
                    assert(pos_wf(a_box@[k as int]));
                    let p = a_box[k];
                    let ghost prevc = cand@;
                    let mut took = false;
                    match grid.possibilities_entry(p.0, p.1) {
                        Some(l) => {
                            if contains_digit(&l, value) {
                                cand.push(p);
                                took = true;
                                proof {
                                    lemma_box_index_cell(bx as int, k as int);
                                    assert(cand_in_box(
                                        gs,
                                        bx as int,
                                        value,
                                        p.0 as int,
                                        p.1 as int,
                                    ));
                                }
                            }
                        },
                        None => {},
                    }
                    proof {
                        assert forall|k2: int|
                            0 <= k2 < k + 1 implies (cand_in_box(
                            gs,
                            bx as int,
                            value,
                            (#[trigger] a_box@[k2]).0 as int,
                            a_box@[k2].1 as int,
                        ) ==> exists|j: int|
                            0 <= j < cand@.len() && #[trigger] cand@[j] == a_box@[k2]) by {
                            if cand_in_box(
                                gs,
                                bx as int,
                                value,
                                a_box@[k2].0 as int,
                                a_box@[k2].1 as int,
                            ) {
                                if k2 == k {
                                    assert(took);
                                    assert(cand@[cand@.len() - 1] == a_box@[k2]);
                                } else {
                                    let j = choose|j: int|
                                        0 <= j < prevc.len() && #[trigger] prevc[j] == a_box@[k2];
                                    assert(cand@[j] == a_box@[k2]);
                                }
                            }
                        }
                    }
                    k += 1;
                }
                if cand.len() > 0 {
                    let first = cand[0];
                    let mut all_in_one_row = true;
                    let mut all_in_one_col = true;
                    let mut k2: usize = 1;
                    while k2 < cand.len()
                        invariant
                            *grid == gs,
                            pos_list_wf(cand@),
                            cand@.len() >= 1,
                            first == cand@[0],
                            1 <= k2 <= cand@.len(),
                            all_in_one_row <==> (forall|j: int|
                                0 <= j < k2 ==> (#[trigger] cand@[j]).0 == first.0),
                            all_in_one_col <==> (forall|j: int|
                                0 <= j < k2 ==> (#[trigger] cand@[j]).1 == first.1),
                        decreases cand@.len() - k2,
                    {
                        assert(pos_wf(cand@[k2 as int]));
                        let p = cand[k2];
                        if p.0 != first.0 {
                            all_in_one_row = false;
                        }
                        if p.1 != first.1 {
                            all_in_one_col = false;
                        }
                        k2 += 1;
                    }
                    assert(pos_wf(cand@[0]));
                    proof {
                        lemma_shrinks_refl(*grid);
                    }
                    if all_in_one_row {
                        // The digit is confined to one row of this box.
                        let mut c2: usize = 0;
                        while c2 < 9
                            invariant
                                grid.wf(),
                                grid.cells_view() == old(grid).cells_view(),
                                grid.variants_view() == old(grid).variants_view(),
                                map_shrinks(*old(grid), *grid),
                                map_shrinks(gs, *grid),
                                pos_list_wf(cand@),
                                cand@.len() >= 1,
                                first == cand@[0],
                                first.0 < 9,
                                bx < 9,
                                1 <= value <= 9,
                                0 <= c2 <= 9,
                                forall|j: int|
                                    0 <= j < cand@.len() ==> cand_in_box(
                                        gs,
                                        bx as int,
                                        value,
                                        (#[trigger] cand@[j]).0 as int,
                                        cand@[j].1 as int,
                                    ),
                                forall|c: int|
                                    0 <= c < c2 && !(#[trigger] box_col_cand(
                                        gs,
                                        bx as int,
                                        value,
                                        c,
                                    )) ==> lacks(*grid, first.0 as int, c, value),
                            decreases 9 - c2,
                        {
                            if !column_among(&cand, c2) {
                                let ghost mid = *grid;
                                grid.remove_candidate(first.0, c2, value);
                                proof {
                                    lemma_shrinks_trans(*old(grid), mid, *grid);
                                    lemma_shrinks_trans(gs, mid, *grid);
                                    if grid.poss(first.0 as int, c2 as int) is Some {
                                        let lm = mid.poss(first.0 as int, c2 as int)->Some_0;
                                        crate::digits::lemma_removed_props(lm, value);
                                    }
                                    assert(lacks(*grid, first.0 as int, c2 as int, value));
                                    assert forall|c: int|
                                        0 <= c < c2 + 1 && !(#[trigger] box_col_cand(
                                            gs,
                                            bx as int,
                                            value,
                                            c,
                                        )) implies lacks(*grid, first.0 as int, c, value) by {
                                        if c < c2 {
                                            assert(lacks(mid, first.0 as int, c, value));
                                            if !lacks(*grid, first.0 as int, c, value) {
                                                let l2 = grid.poss(first.0 as int, c)->Some_0;
                                                assert(grid.poss(first.0 as int, c) == Some(l2)
                                                    && l2.contains(value));
                                                assert(mid.poss(first.0 as int, c) matches Some(l1)
                                                    && l1.contains(value));
                                            }
                                        }
                                    }
                                }
                            } else {
                                proof {
                                    let j = choose|j: int|
                                        0 <= j < cand@.len() && (#[trigger] cand@[j]).1
                                            == c2 as usize;
                                    assert(cand_in_box(
                                        gs,
                                        bx as int,
                                        value,
                                        cand@[j].0 as int,
                                        c2 as int,
                                    ));
                                    assert(box_col_cand(gs, bx as int, value, c2 as int));
                                }
                            }
                            c2 += 1;
                        }
                    }
                    if all_in_one_col {
                        // The digit is confined to one column of this box.
                        let mut r2: usize = 0;
                        while r2 < 9
                            invariant
                                grid.wf(),
                                grid.cells_view() == old(grid).cells_view(),
                                grid.variants_view() == old(grid).variants_view(),
                                map_shrinks(*old(grid), *grid),
                                map_shrinks(gs, *grid),
                                pos_list_wf(cand@),
                                cand@.len() >= 1,
                                first == cand@[0],
                                first.0 < 9,
                                first.1 < 9,
                                bx < 9,
                                1 <= value <= 9,
                                0 <= r2 <= 9,
                                forall|j: int|
                                    0 <= j < cand@.len() ==> cand_in_box(
                                        gs,
                                        bx as int,
                                        value,
                                        (#[trigger] cand@[j]).0 as int,
                                        cand@[j].1 as int,
                                    ),
                                all_in_one_row ==> (forall|c: int|
                                    0 <= c < 9 && !(#[trigger] box_col_cand(
                                        gs,
                                        bx as int,
                                        value,
                                        c,
                                    )) ==> lacks(*grid, first.0 as int, c, value)),
                                forall|r: int|
                                    0 <= r < r2 && !(#[trigger] box_row_cand(
                                        gs,
                                        bx as int,
                                        value,
                                        r,
                                    )) ==> lacks(*grid, r, first.1 as int, value),
                            decreases 9 - r2,
                        {
                            if !row_among(&cand, r2) {
                                let ghost mid = *grid;
                                grid.remove_candidate(r2, first.1, value);
                                proof {
                                    lemma_shrinks_trans(*old(grid), mid, *grid);
                                    lemma_shrinks_trans(gs, mid, *grid);
                                    if grid.poss(r2 as int, first.1 as int) is Some {
                                        let lm = mid.poss(r2 as int, first.1 as int)->Some_0;
                                        crate::digits::lemma_removed_props(lm, value);
                                    }
                                    assert(lacks(*grid, r2 as int, first.1 as int, value));
                                    assert forall|c: int|
                                        all_in_one_row && 0 <= c < 9 && !(#[trigger] box_col_cand(
                                            gs,
                                            bx as int,
                                            value,
                                            c,
                                        )) implies lacks(*grid, first.0 as int, c, value) by {
                                        assert(lacks(mid, first.0 as int, c, value));
                                        if !lacks(*grid, first.0 as int, c, value) {
                                            let l2 = grid.poss(first.0 as int, c)->Some_0;
                                            assert(grid.poss(first.0 as int, c) == Some(l2)
                                                && l2.contains(value));
                                            assert(mid.poss(first.0 as int, c) matches Some(l1)
                                                && l1.contains(value));
                                        }
                                    }
                                    assert forall|r: int|
                                        0 <= r < r2 + 1 && !(#[trigger] box_row_cand(
                                            gs,
                                            bx as int,
                                            value,
                                            r,
                                        )) implies lacks(*grid, r, first.1 as int, value) by {
                                        if r < r2 {
                                            assert(lacks(mid, r, first.1 as int, value));
                                            if !lacks(*grid, r, first.1 as int, value) {
                                                let l2 = grid.poss(r, first.1 as int)->Some_0;
                                                assert(grid.poss(r, first.1 as int) == Some(l2)
                                                    && l2.contains(value));
                                                assert(mid.poss(r, first.1 as int) matches Some(l1)
                                                    && l1.contains(value));
                                            }
                                        }
                                    }
                                }
                            } else {
                                proof {
                                    let j = choose|j: int|
                                        0 <= j < cand@.len() && (#[trigger] cand@[j]).0
                                            == r2 as usize;
                                    assert(cand_in_box(
                                        gs,
                                        bx as int,
                                        value,
                                        r2 as int,
                                        cand@[j].1 as int,
                                    ));
                                    assert(box_row_cand(gs, bx as int, value, r2 as int));
                                }
                            }
                            r2 += 1;
                        }
                    }
                    proof {
                        // What this box's pointing step now guarantees.
                        let g0 = *old(grid);
                        let gnow = *grid;
                        assert forall|r: int|
                            0 <= r < 9 && box_row_confined(g0, bx as int, value, r)
                                && #[trigger] box_row_cand(g0, bx as int, value, r) implies ((
                        forall|c: int|
                            0 <= c < 9 && !(#[trigger] box_col_cand(g0, bx as int, value, c))
                                ==> lacks(gnow, r, c, value)) || !box_has_cand(
                            gnow,
                            bx as int,
                            value,
                        )) by {
                            assert(cand_in_box(
                                gs,
                                bx as int,
                                value,
                                cand@[0].0 as int,
                                cand@[0].1 as int,
                            ));
                            lemma_cand_shrinks(
                                g0,
                                gs,
                                bx as int,
                                value,
                                cand@[0].0 as int,
                                cand@[0].1 as int,
                            );
                            assert(first.0 as int == r);
                            assert forall|j: int|
                                0 <= j < cand@.len() implies (#[trigger] cand@[j]).0
                                == first.0 by {
                                lemma_cand_shrinks(
                                    g0,
                                    gs,
                                    bx as int,
                                    value,
                                    cand@[j].0 as int,
                                    cand@[j].1 as int,
                                );
                            }
                            assert(all_in_one_row);
                            assert forall|c: int|
                                0 <= c < 9 && !(#[trigger] box_col_cand(g0, bx as int, value, c))
                                    implies lacks(gnow, r, c, value) by {
                                if box_col_cand(gs, bx as int, value, c) {
                                    let r3 = choose|r3: int|
                                        #[trigger] cand_in_box(gs, bx as int, value, r3, c);
                                    lemma_cand_shrinks(g0, gs, bx as int, value, r3, c);
                                    assert(box_col_cand(g0, bx as int, value, c));
                                }
                            }
                        }
                        assert forall|c: int|
                            0 <= c < 9 && box_col_confined(g0, bx as int, value, c)
                                && #[trigger] box_col_cand(g0, bx as int, value, c) implies ((
                        forall|r: int|
                            0 <= r < 9 && !(#[trigger] box_row_cand(g0, bx as int, value, r))
                                ==> lacks(gnow, r, c, value)) || !box_has_cand(
                            gnow,
                            bx as int,
                            value,
                        )) by {
                            assert(cand_in_box(
                                gs,
                                bx as int,
                                value,
                                cand@[0].0 as int,
                                cand@[0].1 as int,
                            ));
                            lemma_cand_shrinks(
                                g0,
                                gs,
                                bx as int,
                                value,
                                cand@[0].0 as int,
                                cand@[0].1 as int,
                            );
                            assert(first.1 as int == c);
                            assert forall|j: int|
                                0 <= j < cand@.len() implies (#[trigger] cand@[j]).1
                                == first.1 by {
                                lemma_cand_shrinks(
                                    g0,
                                    gs,
                                    bx as int,
                                    value,
                                    cand@[j].0 as int,
                                    cand@[j].1 as int,
                                );
                            }
                            assert(all_in_one_col);
                            assert forall|r: int|
                                0 <= r < 9 && !(#[trigger] box_row_cand(g0, bx as int, value, r))
                                    implies lacks(gnow, r, c, value) by {
                                if box_row_cand(gs, bx as int, value, r) {
                                    let c3 = choose|c3: int|
                                        #[trigger] cand_in_box(gs, bx as int, value, r, c3);
                                    lemma_cand_shrinks(g0, gs, bx as int, value, r, c3);
                                    assert(box_row_cand(g0, bx as int, value, r));
                                }
                            }
                        }
                        assert(pointed_row_done(*old(grid), *grid, bx as int, value));
                        assert(pointed_col_done(*old(grid), *grid, bx as int, value));
                    }
                } else {
                    proof {
                        // The box never admitted the digit here: both clauses
                        // hold through their escape disjunct.
                        assert forall|r3: int, c3: int|
                            !(#[trigger] cand_in_box(*grid, bx as int, value, r3, c3)) by {
                            if cand_in_box(*grid, bx as int, value, r3, c3) {
                                lemma_box_cell_index(bx as int, r3, c3);
                                let kk = 3 * (r3 % 3) + c3 % 3;
                                assert(a_box@[kk].0 as int == r3 && a_box@[kk].1 as int == c3);
                                assert(cand_in_box(
                                    gs,
                                    bx as int,
                                    value,
                                    a_box@[kk].0 as int,
                                    a_box@[kk].1 as int,
                                ));
                            }
                        }
                        assert(!box_has_cand(*grid, bx as int, value));
                        assert(pointed_row_done(*old(grid), *grid, bx as int, value));
                        assert(pointed_col_done(*old(grid), *grid, bx as int, value));
                    }
                }
                proof {
                    // Earlier boxes and digits stay done: lists only shrank.
                    lemma_shrinks_refl(gs);
                    assert(map_shrinks(gs, *grid));
                    assert forall|b: int, d: u8|
                        0 <= b < 9 && 1 <= d < value implies #[trigger] pointed_row_done(
                            *old(grid),
                            *grid,
                            b,
                            d,
                        ) by {
                        lemma_pointed_preserved(*old(grid), gs, *grid, b, d);
                    }
                    assert forall|b: int, d: u8|
                        0 <= b < 9 && 1 <= d < value implies #[trigger] pointed_col_done(
                            *old(grid),
                            *grid,
                            b,
                            d,
                        ) by {
                        lemma_pointed_preserved(*old(grid), gs, *grid, b, d);
                    }
                    assert forall|b: int| 0 <= b < bx implies #[trigger] pointed_row_done(
                        *old(grid),
                        *grid,
                        b,
                        value,
                    ) by {
                        lemma_pointed_preserved(*old(grid), gs, *grid, b, value);
                    }
                    assert forall|b: int| 0 <= b < bx implies #[trigger] pointed_col_done(
                        *old(grid),
                        *grid,
                        b,
                        value,
                    ) by {
                        lemma_pointed_preserved(*old(grid), gs, *grid, b, value);
                    }
                }
                bx += 1;
            }
            value += 1;
        }
    }

    /// In every unit: when 2 (or 3) digits fit only in exactly that many
    /// cells, and each of those cells admits all of them, those cells are
    /// restricted to exactly those digits. Candidate lists only shrink;
    /// cells and variants are untouched.
    pub fn apply_hidden_pairs(&self, grid: &mut SudokuGrid)
        requires
            old(grid).wf(),
        ensures
            final(grid).wf(),
            final(grid).cells_view() == old(grid).cells_view(),
            final(grid).variants_view() == old(grid).variants_view(),
            map_shrinks(*old(grid), *final(grid)),
    {
        let units = all_units();
        let mut ui: usize = 0;
        proof {
            lemma_shrinks_refl(*grid);
        }
        let digits = crate::digits::all_possibilities();
        let pair_combos = crate::combos::combinations_u8(&digits, 2);
        let triple_combos = crate::combos::combinations_u8(&digits, 3);
        while ui < units.len()
            invariant
                grid.wf(),
                grid.cells_view() == old(grid).cells_view(),
                grid.variants_view() == old(grid).variants_view(),
                map_shrinks(*old(grid), *grid),
                forall|u: int|
                    0 <= u < units@.len() ==> pos_list_wf((#[trigger] units@[u])@) && (
                units@[u])@.len() == 9,
                forall|x: u8| digits@.contains(x) ==> is_digit(x),
                forall|x: int|
                    0 <= x < pair_combos@.len() ==> strictly_sorted((#[trigger] pair_combos@[x])@),
                forall|x: int, j: int|
                    0 <= x < pair_combos@.len() && 0 <= j < (pair_combos@[x])@.len()
                        ==> digits@.contains(#[trigger] pair_combos@[x]@[j]),
                forall|x: int|
                    0 <= x < triple_combos@.len() ==> strictly_sorted(
                        (#[trigger] triple_combos@[x])@,
                    ),
                forall|x: int, j: int|
                    0 <= x < triple_combos@.len() && 0 <= j < (triple_combos@[x])@.len()
                        ==> digits@.contains(#[trigger] triple_combos@[x]@[j]),
                0 <= ui <= units@.len(),
            decreases units@.len() - ui,
        {
            let ghost mid1 = *grid;
            self.hidden_subsets_in_unit(grid, &units[ui], &pair_combos, &digits);
            proof {
                lemma_shrinks_trans(*old(grid), mid1, *grid);
            }
            let ghost mid2 = *grid;
            self.hidden_subsets_in_unit(grid, &units[ui], &triple_combos, &digits);
            proof {
                lemma_shrinks_trans(*old(grid), mid2, *grid);
            }
            ui += 1;
        }
    }

    /// Apply the hidden-subset restriction of one digit-set size (given by
    /// the precomputed combinations) inside one unit.
    fn hidden_subsets_in_unit(
        &self,
        grid: &mut SudokuGrid,
        unit: &Vec<(usize, usize)>,
        combos: &Vec<Vec<u8>>,
        digits: &Vec<u8>,
    )
        requires
            old(grid).wf(),
            pos_list_wf(unit@),
            unit@.len() == 9,
            forall|x: u8| digits@.contains(x) ==> is_digit(x),
            forall|x: int| 0 <= x < combos@.len() ==> strictly_sorted((#[trigger] combos@[x])@),
            forall|x: int, j: int|
                0 <= x < combos@.len() && 0 <= j < (combos@[x])@.len() ==> digits@.contains(
                    #[trigger] combos@[x]@[j],
                ),
        ensures
            final(grid).wf(),
            final(grid).cells_view() == old(grid).cells_view(),
            final(grid).variants_view() == old(grid).variants_view(),
            map_shrinks(*old(grid), *final(grid)),
    {
        proof {
            lemma_shrinks_refl(*grid);
        }
        let mut t: usize = 0;
        while t < combos.len()
            invariant
                grid.wf(),
                grid.cells_view() == old(grid).cells_view(),
                grid.variants_view() == old(grid).variants_view(),
                map_shrinks(*old(grid), *grid),
                pos_list_wf(unit@),
                unit@.len() == 9,
                forall|x: u8| digits@.contains(x) ==> is_digit(x),
                forall|x: int| 0 <= x < combos@.len() ==> strictly_sorted((#[trigger] combos@[x])@),
                forall|x: int, j: int|
                    0 <= x < combos@.len() && 0 <= j < (combos@[x])@.len() ==> digits@.contains(
                        #[trigger] combos@[x]@[j],
                    ),
                0 <= t <= combos@.len(),
            decreases combos@.len() - t,
        {
            let combo = &combos[t];
            proof {
                assert forall|j: int| 0 <= j < combo@.len() implies is_digit(#[trigger] combo@[j]) by {
                    assert(digits@.contains(combo@[j]));
                }
            }
            // The unit cells whose candidates meet the digit set.
            let mut cells_with: Vec<(usize, usize)> = Vec::new();
            let mut k: usize = 0;
            while k < unit.len()
                invariant
                    grid.wf(),
                    pos_list_wf(unit@),
                    unit@.len() == 9,
                    0 <= k <= 9,
                    pos_list_wf(cells_with@),
                decreases 9 - k,
            {
                assert(pos_wf(unit@[k as int]));
                let p = unit[k];
                match grid.possibilities_entry(p.0, p.1) {
                    Some(l) => {
                        let mut meets = false;
                        let mut j: usize = 0;
                        while j < combo.len()
                            invariant
                                0 <= j <= combo@.len(),
                            decreases combo@.len() - j,
                        {
                            if contains_digit(&l, combo[j]) {
                                meets = true;
                            }
                            j += 1;
                        }
                        if meets {
                            cells_with.push(p);
                        }
                    },
                    None => {},
                }
                k += 1;
            }
            if cells_with.len() == combo.len() {
                // Each matched cell must admit every digit of the set.
                let mut all_full = true;
                let mut k2: usize = 0;
                while k2 < cells_with.len()
                    invariant
                        grid.wf(),
                        pos_list_wf(cells_with@),
                        0 <= k2 <= cells_with@.len(),
                    decreases cells_with@.len() - k2,
                {
                    assert(pos_wf(cells_with@[k2 as int]));
                    let p = cells_with[k2];
                    match grid.possibilities_entry(p.0, p.1) {
                        Some(l) => {
                            let mut j: usize = 0;
                            while j < combo.len()
                                invariant
                                    0 <= j <= combo@.len(),
                                    grid.wf(),
                                decreases combo@.len() - j,
                            {
                                if !contains_digit(&l, combo[j]) {
                                    all_full = false;
                                }
                                j += 1;
                            }
                        },
                        None => {
                            all_full = false;
                        },
                    }
                    k2 += 1;
                }
                if all_full {
                    // Restrict every matched cell to exactly the digit set.
                    let mut k3: usize = 0;
                    while k3 < cells_with.len()
                        invariant
                            grid.wf(),
                            grid.cells_view() == old(grid).cells_view(),
                            grid.variants_view() == old(grid).variants_view(),
                            map_shrinks(*old(grid), *grid),
                            pos_list_wf(cells_with@),
                            forall|x: int|
                                0 <= x < combos@.len() ==> strictly_sorted(
                                    (#[trigger] combos@[x])@,
                                ),
                            forall|j: int|
                                0 <= j < combo@.len() ==> is_digit(#[trigger] combo@[j]),
                            strictly_sorted(combo@),
                            0 <= k3 <= cells_with@.len(),
                        decreases cells_with@.len() - k3,
                    {
                        assert(pos_wf(cells_with@[k3 as int]));
                        let p = cells_with[k3];
                        match grid.possibilities_entry(p.0, p.1) {
                            Some(l) => {
                                // Recheck the subset relation on the live entry.
                                let mut subset = true;
                                let mut j: usize = 0;
                                while j < combo.len()
                                    invariant
                                        0 <= j <= combo@.len(),
                                        subset ==> forall|j2: int|
                                            0 <= j2 < j ==> l@.contains(#[trigger] combo@[j2]),
                                    decreases combo@.len() - j,
                                {
                                    if !contains_digit(&l, combo[j]) {
                                        subset = false;
                                    }
                                    j += 1;
                                }
                                if subset {
                                    let restricted = crate::digits::copy_digits(combo);
                                    proof {
                                        assert(wf_digits(restricted@));
                                        assert forall|dd: u8|
                                            #[trigger] restricted@.contains(dd) implies grid.poss(
                                            p.0 as int,
                                            p.1 as int,
                                        )->Some_0.contains(dd) by {
                                            let jj = choose|jj: int|
                                                0 <= jj < combo@.len() && combo@[jj] == dd;
                                            assert(l@.contains(combo@[jj]));
                                        }
                                    }
                                    let ghost mid = *grid;
                                    grid.restrict_candidates(p.0, p.1, restricted);
                                    proof {
                                        lemma_shrinks_trans(*old(grid), mid, *grid);
                                    }
                                }
                            },
                            None => {},
                        }
                        k3 += 1;
                    }
                }
            }
            t += 1;
        }
    }
}

/// Index selections for the naked-subset scan: each strictly ascending, with
/// indices below nine.
pub(crate) open spec fn sel_ok(sels: Seq<Vec<u8>>) -> bool {
    forall|x: int|
        0 <= x < sels.len() ==> strictly_sorted((#[trigger] sels[x])@) && (forall|j: int|
            0 <= j < sels[x]@.len() ==> #[trigger] sels[x]@[j] < 9)
}

/// The 27 units: nine rows, nine columns, nine boxes.
fn all_units() -> (units: Vec<Vec<(usize, usize)>>)
    ensures
        forall|u: int|
            0 <= u < units@.len() ==> pos_list_wf((#[trigger] units@[u])@) && (units@[u])@.len()
                == 9,
{
    let mut units: Vec<Vec<(usize, usize)>> = Vec::new();
    let mut r: usize = 0;
    while r < 9
        invariant
            0 <= r <= 9,
            forall|u: int|
                0 <= u < units@.len() ==> pos_list_wf((#[trigger] units@[u])@) && (
            units@[u])@.len() == 9,
        decreases 9 - r,
    {
        let mut row: Vec<(usize, usize)> = Vec::new();
        let mut c: usize = 0;
        while c < 9
            invariant
                r < 9,
                0 <= c <= 9,
                row@.len() == c,
                pos_list_wf(row@),
            decreases 9 - c,
        {
            row.push((r, c));
            c += 1;
        }
        units.push(row);
        r += 1;
    }
    let mut c2: usize = 0;
    while c2 < 9
        invariant
            0 <= c2 <= 9,
            forall|u: int|
                0 <= u < units@.len() ==> pos_list_wf((#[trigger] units@[u])@) && (
            units@[u])@.len() == 9,
        decreases 9 - c2,
    {
        let mut col: Vec<(usize, usize)> = Vec::new();
        let mut r2: usize = 0;
        while r2 < 9
            invariant
                c2 < 9,
                0 <= r2 <= 9,
                col@.len() == r2,
                pos_list_wf(col@),
            decreases 9 - r2,
        {
            col.push((r2, c2));
            r2 += 1;
        }
        units.push(col);
        c2 += 1;
    }
    let boxes = all_boxes();
    let mut b: usize = 0;
    while b < boxes.len()
        invariant
            forall|u: int|
                0 <= u < units@.len() ==> pos_list_wf((#[trigger] units@[u])@) && (
            units@[u])@.len() == 9,
            forall|u: int|
                0 <= u < boxes@.len() ==> pos_list_wf((#[trigger] boxes@[u])@) && (
            boxes@[u])@.len() == 9,
            0 <= b <= boxes@.len(),
        decreases boxes@.len() - b,
    {
        let one = crate::variant::util::copy_positions(&boxes[b]);
        units.push(one);
        b += 1;
    }
    units
}

/// The nine 3x3 boxes, row by row.
fn all_boxes() -> (boxes: Vec<Vec<(usize, usize)>>)
    ensures
        boxes@.len() == 9,
        forall|u: int|
            0 <= u < boxes@.len() ==> pos_list_wf((#[trigger] boxes@[u])@) && (boxes@[u])@.len()
                == 9,
        forall|u: int, k: int|
            0 <= u < 9 && 0 <= k < 9 ==> #[trigger] (boxes@[u])@[k] == ((((u / 3) * 3
                + k / 3) as usize), (((u % 3) * 3 + k % 3) as usize)),
{
    let mut boxes: Vec<Vec<(usize, usize)>> = Vec::new();
    let mut br: usize = 0;
    while br < 3
        invariant
            0 <= br <= 3,
            boxes@.len() == br * 3,
            forall|u: int|
                0 <= u < boxes@.len() ==> pos_list_wf((#[trigger] boxes@[u])@) && (
            boxes@[u])@.len() == 9,
            forall|u: int, k: int|
                0 <= u < boxes@.len() && 0 <= k < 9 ==> #[trigger] (boxes@[u])@[k] == ((((u / 3) * 3
                    + k / 3) as usize), (((u % 3) * 3 + k % 3) as usize)),
        decreases 3 - br,
    {
        let mut bc: usize = 0;
        while bc < 3
            invariant
                br < 3,
                0 <= bc <= 3,
                boxes@.len() == br * 3 + bc,
                forall|u: int|
                    0 <= u < boxes@.len() ==> pos_list_wf((#[trigger] boxes@[u])@) && (
                boxes@[u])@.len() == 9,
                forall|u: int, k: int|
                    0 <= u < boxes@.len() && 0 <= k < 9 ==> #[trigger] (boxes@[u])@[k] == ((((u / 3)
                        * 3 + k / 3) as usize), (((u % 3) * 3 + k % 3) as usize)),
            decreases 3 - bc,
        {
            let mut one: Vec<(usize, usize)> = Vec::new();
            let mut dr: usize = 0;
            while dr < 3
                invariant
                    br < 3,
                    bc < 3,
                    0 <= dr <= 3,
                    one@.len() == dr * 3,
                    pos_list_wf(one@),
                    forall|k: int|
                        0 <= k < one@.len() ==> #[trigger] one@[k] == (((br * 3
                            + k / 3) as usize), ((bc * 3 + k % 3) as usize)),
                decreases 3 - dr,
            {
                let mut dc: usize = 0;
                while dc < 3
                    invariant
                        br < 3,
                        bc < 3,
                        dr < 3,
                        0 <= dc <= 3,
                        one@.len() == dr * 3 + dc,
                        pos_list_wf(one@),
                        forall|k: int|
                            0 <= k < one@.len() ==> #[trigger] one@[k] == (((br * 3
                                + k / 3) as usize), ((bc * 3 + k % 3) as usize)),
                    decreases 3 - dc,
                {
                    one.push((br * 3 + dr, bc * 3 + dc));
                    proof {
                        assert((dr * 3 + dc) / 3 == dr as int && (dr * 3 + dc) % 3 == dc as int)
                            by (nonlinear_arith)
                            requires
                                0 <= dr < 3 && 0 <= dc < 3,
                        ;
                        assert(one@[one@.len() - 1] == (((br * 3 + (dr * 3 + dc) / 3) as usize), ((
                        bc * 3 + (dr * 3 + dc) % 3) as usize)));
                    }
                    dc += 1;
                }
                dr += 1;
            }
            boxes.push(one);
            proof {
                assert((br * 3 + bc) / 3 == br as int && (br * 3 + bc) % 3 == bc as int)
                    by (nonlinear_arith)
                    requires
                        0 <= br < 3 && 0 <= bc < 3,
                ;
            }
            bc += 1;
        }
        br += 1;
    }
    boxes
}

/// A single decimal digit (0..=9) as text.
fn digit_str(d: u8) -> (s: &'static str)
    requires
        d <= 9,
{
    if d == 0 {
        "0"
    } else if d == 1 {
        "1"
    } else if d == 2 {
        "2"
    } else if d == 3 {
        "3"
    } else if d == 4 {
        "4"
    } else if d == 5 {
        "5"
    } else if d == 6 {
        "6"
    } else if d == 7 {
        "7"
    } else if d == 8 {
        "8"
    } else {
        "9"
    }
}

/// Whether some listed position has the given column.
fn column_among(cand: &Vec<(usize, usize)>, c: usize) -> (b: bool)
    ensures
        b == exists|k: int| 0 <= k < cand@.len() && (#[trigger] cand@[k]).1 == c,
{
    let mut k: usize = 0;
    while k < cand.len()
        invariant
            0 <= k <= cand@.len(),
            forall|j: int| 0 <= j < k ==> (#[trigger] cand@[j]).1 != c,
        decreases cand@.len() - k,
    {
        if cand[k].1 == c {
            return true;
        }
        k += 1;
    }
    false
}

/// Whether some listed position has the given row.
fn row_among(cand: &Vec<(usize, usize)>, r: usize) -> (b: bool)
    ensures
        b == exists|k: int| 0 <= k < cand@.len() && (#[trigger] cand@[k]).0 == r,
{
    let mut k: usize = 0;
    while k < cand.len()
        invariant
            0 <= k <= cand@.len(),
            forall|j: int| 0 <= j < k ==> (#[trigger] cand@[j]).0 != r,
        decreases cand@.len() - k,
    {
        if cand[k].0 == r {
            return true;
        }
        k += 1;
    }
    false
}

} // verus!
