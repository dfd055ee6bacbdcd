use vstd::prelude::*;

use crate::digits::{is_digit, wf_digits};
use crate::errors::VariantContradiction;
use crate::grid::SudokuGrid;
use crate::possmap::{in_bounds, PossibilityMap};
use crate::variant::util::{
    contains_pos, copy_positions, grid_values, pos_list_distinct, pos_list_wf, values_at,
};

verus! {

/// How many entries of `req` do not occur in `cur` (counting repeats in `req`).
pub open spec fn count_missing(req: Seq<u8>, cur: Seq<u8>) -> int
    decreases req.len(),
{
    if req.len() == 0 {
        0
    } else {
        count_missing(req.drop_last(), cur) + if cur.contains(req.last()) {
            0int
        } else {
            1int
        }
    }
}

/// How many entries of `s` are zero.
pub open spec fn count_zeros(s: Seq<u8>) -> int
    decreases s.len(),
{
    if s.len() == 0 {
        0
    } else {
        count_zeros(s.drop_last()) + if s.last() == 0 {
            1int
        } else {
            0int
        }
    }
}

/// A circle on a cell intersection: the digits listed must all appear among
/// the circled cells (or, for an anti circle, none may).
#[derive(Clone, Debug, PartialEq, Eq)]
pub struct QuadrupleCircle {
    pub cells: Vec<(usize, usize)>,
    pub required: Vec<u8>,
    pub is_anti: bool,
}

impl QuadrupleCircle {
    /// In-range, pairwise distinct cells.
    pub open spec fn wf(self) -> bool {
        &&& pos_list_wf(self.cells@)
        &&& pos_list_distinct(self.cells@)
        &&& self.cells@.len() <= 81
    }

    /// The values on the circle with `value` written at `(row, col)`.
    pub open spec fn subst_values(self, g: Seq<u8>, row: usize, col: usize, value: u8) -> Seq<u8> {
        Seq::new(
            self.cells@.len() as nat,
            |k: int|
                if self.cells@[k] == (row, col) {
                    value
                } else {
                    values_at(self.cells@, g)[k]
                },
        )
    }

    /// Whether placing `value` at `(row, col)` keeps the circle satisfiable:
    /// an anti circle rejects its listed digits outright; a normal circle
    /// needs room among the still-empty cells for every missing digit.
    pub open spec fn is_valid_spec(self, g: Seq<u8>, row: usize, col: usize, value: u8) -> bool {
        if !self.cells@.contains((row, col)) {
            true
        } else if self.is_anti {
            !self.required@.contains(value)
        } else {
            let cur = self.subst_values(g, row, col, value);
            &&& (self.required@.len() == 4 ==> self.required@.contains(value))
            &&& count_missing(self.required@, cur) <= count_zeros(cur)
        }
    }

    /// All circled cells are filled and the listed digits all appear (normal)
    /// or none appears (anti).
    pub open spec fn solution_ok(self, g: Seq<u8>) -> bool {
        let vs = values_at(self.cells@, g);
        &&& forall|k: int| 0 <= k < vs.len() ==> #[trigger] vs[k] != 0
        &&& if self.is_anti {
            forall|j: int| 0 <= j < self.required@.len() ==> !vs.contains(#[trigger] self.required@[j])
        } else {
            forall|j: int| 0 <= j < self.required@.len() ==> vs.contains(#[trigger] self.required@[j])
        }
    }

    /// A circle over the given cells with the given required digits.
    pub fn new(cells: Vec<(usize, usize)>, required: Vec<u8>, is_anti: bool) -> (q: QuadrupleCircle)
        requires
            pos_list_wf(cells@),
            pos_list_distinct(cells@),
            cells@.len() <= 81,
        ensures
            q.wf(),
            q.cells@ == cells@,
            q.required@ == required@,
            q.is_anti == is_anti,
    {
        QuadrupleCircle { cells, required, is_anti }
    }

    /// Whether placing `value` at `(row, col)` leaves the circle observably satisfiable.
    pub fn is_valid(&self, grid: &SudokuGrid, row: usize, col: usize, value: u8) -> (b: bool)
        requires
            self.wf(),
            grid.wf(),
            row < 9,
            col < 9,
        ensures
            b == self.is_valid_spec(grid.cells_view(), row, col, value),
    {
        if !contains_pos(&self.cells, row, col) {
            return true;
        }
        if self.is_anti {
            return !crate::digits::contains_digit(&self.required, value);
        }
        if self.required.len() == 4 && !crate::digits::contains_digit(&self.required, value) {
            return false;
        }
        // Build the circle values with the proposed digit substituted in.
        let vals = grid_values(&self.cells, grid);
        let n = self.cells.len();
        let mut cur: Vec<u8> = Vec::new();
        let mut k: usize = 0;
        while k < n
            invariant
                self.wf(),
                n == self.cells@.len(),
                vals@ == values_at(self.cells@, grid.cells_view()),
                vals@.len() == n,
                0 <= k <= n,
                cur@.len() == k,
                forall|j: int|
                    0 <= j < k ==> #[trigger] cur@[j] == self.subst_values(
                        grid.cells_view(),
                        row,
                        col,
                        value,
                    )[j],
            decreases n - k,
        {
            let p = self.cells[k];
            if p.0 == row && p.1 == col {
                cur.push(value);
                proof {
                    assert(self.cells@[k as int] == (row, col));
                }
            } else {
                cur.push(vals[k]);
                proof {
                    assert(self.cells@[k as int] != (row, col));
                }
            }
            k += 1;
        }
        proof {
            assert(cur@ =~= self.subst_values(grid.cells_view(), row, col, value));
        }
        // Count missing required digits and unfilled cells.
        let mut missing: usize = 0;
        let mut j: usize = 0;
        while j < self.required.len()
            invariant
                0 <= j <= self.required@.len(),
                missing == count_missing(self.required@.subrange(0, j as int), cur@),
                missing <= j,
            decreases self.required@.len() - j,
        {
            proof {
                assert(self.required@.subrange(0, j + 1).drop_last() =~= self.required@.subrange(
                    0,
                    j as int,
                ));
                assert(self.required@.subrange(0, j + 1).last() == self.required@[j as int]);
            }
            if !crate::digits::contains_digit(&cur, self.required[j]) {
                missing += 1;
            }
            j += 1;
        }
        proof {
            assert(self.required@.subrange(0, self.required@.len() as int) =~= self.required@);
        }
        let mut unfilled: usize = 0;
        let mut j2: usize = 0;
        while j2 < cur.len()
            invariant
                0 <= j2 <= cur@.len(),
                unfilled == count_zeros(cur@.subrange(0, j2 as int)),
                unfilled <= j2,
            decreases cur@.len() - j2,
        {
            proof {
                assert(cur@.subrange(0, j2 + 1).drop_last() =~= cur@.subrange(0, j2 as int));
                assert(cur@.subrange(0, j2 + 1).last() == cur@[j2 as int]);
            }
            if cur[j2] == 0 {
                unfilled += 1;
            }
            j2 += 1;
        }
        proof {
            assert(cur@.subrange(0, cur@.len() as int) =~= cur@);
        }
        missing <= unfilled
    }

    /// Whether the fully assigned grid satisfies the circle.
    pub fn validate_solution(&self, grid: &SudokuGrid) -> (b: bool)
        requires
            self.wf(),
            grid.wf(),
        ensures
            b == self.solution_ok(grid.cells_view()),
    {
        let vals = grid_values(&self.cells, grid);
        let mut k: usize = 0;
        while k < vals.len()
            invariant
                0 <= k <= vals@.len(),
                vals@ == values_at(self.cells@, grid.cells_view()),
                forall|j: int| 0 <= j < k ==> #[trigger] vals@[j] != 0,
            decreases vals@.len() - k,
        {
            if vals[k] == 0 {
                proof {
                    assert(values_at(self.cells@, grid.cells_view())[k as int] == 0);
                }
                return false;
            }
            k += 1;
        }
        let mut j: usize = 0;
        while j < self.required.len()
            invariant
                0 <= j <= self.required@.len(),
                vals@ == values_at(self.cells@, grid.cells_view()),
                self.is_anti ==> forall|i: int|
                    0 <= i < j ==> !vals@.contains(#[trigger] self.required@[i]),
                !self.is_anti ==> forall|i: int|
                    0 <= i < j ==> vals@.contains(#[trigger] self.required@[i]),
            decreases self.required@.len() - j,
        {
            let present = crate::digits::contains_digit(&vals, self.required[j]);
            if self.is_anti && present {
                return false;
            }
            if !self.is_anti && !present {
                return false;
            }
            j += 1;
        }
        true
    }

    /// The circled cells.
    pub fn constrained_cells(&self) -> (r: Vec<(usize, usize)>)
        ensures
            r@ == self.cells@,
    {
        copy_positions(&self.cells)
    }

    /// The digits this circle alone admits at each circled cell: singletons
    /// for filled cells; for empty cells, exactly the missing required digits
    /// when they only just fit, every digit when there is spare room, and all
    /// digits outside the banned list for an anti circle. A contradiction is
    /// reported when the missing digits outnumber the empty cells, or when an
    /// anti circle already holds a banned digit.
    pub fn get_possibilities(&self, grid: &SudokuGrid) -> (result: Result<
        PossibilityMap,
        VariantContradiction,
    >)
        requires
            self.wf(),
            grid.wf(),
        ensures
            ({
                let g = grid.cells_view();
                let cs = self.cells@;
                let vs = values_at(cs, g);
                match result {
                    Ok(m) => {
                        &&& m.wf()
                        &&& forall|r2: int, c2: int|
                            in_bounds(r2, c2) ==> ((#[trigger] m.entry(r2, c2)) is Some
                                <==> cs.contains(((r2 as usize), (c2 as usize))))
                        &&& forall|k: int|
                            0 <= k < cs.len() ==> (#[trigger] vs[k] != 0 ==> m.entry(
                                cs[k].0 as int,
                                cs[k].1 as int,
                            ) == Some(seq![vs[k]]))
                        &&& forall|k: int|
                            0 <= k < cs.len() ==> (#[trigger] vs[k] == 0 ==> (m.entry(
                                cs[k].0 as int,
                                cs[k].1 as int,
                            ) matches Some(l) && wf_digits(l) && (forall|d: u8|
                                l.contains(d) <==> (is_digit(d) && self.empty_cell_admits(g, d)))))
                    },
                    Err(_) => true,
                }
            }),
            ({
                let vs = values_at(self.cells@, grid.cells_view());
                result is Err <==> (if self.is_anti {
                    exists|k: int|
                        0 <= k < self.cells@.len() && #[trigger] vs[k] != 0
                            && self.required@.contains(vs[k])
                } else {
                    count_zeros(vs) < count_missing_set(self.required@, vs)
                })
            }),
    {
        let vals = grid_values(&self.cells, grid);
        let n = self.cells.len();
        if self.is_anti {
            // A banned digit already placed is a contradiction.
            let mut k: usize = 0;
            while k < n
                invariant
                    self.wf(),
                    self.is_anti,
                    n == self.cells@.len(),
                    vals@ == values_at(self.cells@, grid.cells_view()),
                    vals@.len() == n,
                    0 <= k <= n,
                    forall|j: int|
                        0 <= j < k ==> !(#[trigger] vals@[j] != 0 && self.required@.contains(
                            vals@[j],
                        )),
                decreases n - k,
            {
                if vals[k] != 0 && crate::digits::contains_digit(&self.required, vals[k]) {
                    return Err(VariantContradiction::Inconsistent {
                        variant: "Anti-QuadrupleCircle",
                        reason: "a circled cell already holds a banned digit".to_owned(),
                    });
                }
                k += 1;
            }
            // Every empty circled cell may hold any digit outside the list.
            let mut open_digits: Vec<u8> = Vec::new();
            let mut d: u8 = 1;
            while d <= 9
                invariant
                    1 <= d <= 10,
                    forall|i2: int, j2: int|
                        0 <= i2 < j2 < open_digits@.len() ==> open_digits@[i2] < open_digits@[j2],
                    forall|i2: int|
                        0 <= i2 < open_digits@.len() ==> 1 <= #[trigger] open_digits@[i2] < d,
                    forall|x: u8|
                        open_digits@.contains(x) <==> (1 <= x < d && !self.required@.contains(x)),
                decreases 10 - d,
            {
                let ghost prev = open_digits@;
                if !crate::digits::contains_digit(&self.required, d) {
                    open_digits.push(d);
                }
                proof {
                    crate::digits::lemma_push_contains(prev, d);
                    assert forall|x: u8|
                        open_digits@.contains(x) implies (1 <= x < d + 1
                        && !self.required@.contains(x)) by {
                        if !prev.contains(x) {
                            assert(open_digits@ == prev.push(x));
                        }
                    }
                    assert forall|x: u8|
                        (1 <= x < d + 1 && !self.required@.contains(x)) implies open_digits@.contains(
                        x,
                    ) by {
                        if x == d {
                            assert(open_digits@ == prev.push(d));
                        } else {
                            assert(prev.contains(x));
                        }
                    }
                }
                d += 1;
            }
            proof {
                assert(forall|d: u8|
                    open_digits@.contains(d) <==> (is_digit(d) && self.empty_cell_admits(
                        grid.cells_view(),
                        d,
                    )));
            }
            let result = self.fill_map(&vals, open_digits);
            result
        } else {
            // Count the required digits still missing and the empty cells.
            let mut missing_list: Vec<u8> = Vec::new();
            let mut j: usize = 0;
            while j < self.required.len()
                invariant
                    vals@ == values_at(self.cells@, grid.cells_view()),
                    0 <= j <= self.required@.len(),
                    missing_list@.len() == count_missing_set(
                        self.required@.subrange(0, j as int),
                        vals@,
                    ),
                    forall|x: u8|
                        missing_list@.contains(x) <==> (exists|i: int|
                            0 <= i < j && #[trigger] self.required@[i] == x && !vals@.contains(x)
                            ),
                    forall|i2: int, j2: int|
                        0 <= i2 < j2 < missing_list@.len() ==> missing_list@[i2]
                            != missing_list@[j2],
                decreases self.required@.len() - j,
            {
                proof {
                    assert(self.required@.subrange(0, j + 1).drop_last() =~= self.required@.subrange(
                        0,
                        j as int,
                    ));
                    assert(self.required@.subrange(0, j + 1).last() == self.required@[j as int]);
                    let dd = self.required@[j as int];
                    if self.required@.subrange(0, j as int).contains(dd) {
                        let i0 = choose|i: int|
                            0 <= i < j && self.required@.subrange(0, j as int)[i] == dd;
                        assert(self.required@[i0] == dd);
                    }
                    if exists|i: int| 0 <= i < j && #[trigger] self.required@[i] == dd {
                        let i0 = choose|i: int| 0 <= i < j && #[trigger] self.required@[i] == dd;
                        assert(self.required@.subrange(0, j as int)[i0] == dd);
                    }
                }
                let d = self.required[j];
                let ghost prev = missing_list@;
                if !crate::digits::contains_digit(&vals, d) && !crate::digits::contains_digit(
                    &missing_list,
                    d,
                ) {
                    missing_list.push(d);
                }
                proof {
                    crate::digits::lemma_push_contains(prev, d);
                    assert forall|x: u8|
                        missing_list@.contains(x) implies (exists|i: int|
                        0 <= i < j + 1 && #[trigger] self.required@[i] == x && !vals@.contains(x))
                        by {
                        if prev.contains(x) {
                            let i0 = choose|i: int|
                                0 <= i < j && #[trigger] self.required@[i] == x && !vals@.contains(
                                    x,
                                );
                            assert(0 <= i0 < j + 1 && self.required@[i0] == x);
                        } else {
                            assert(missing_list@ == prev.push(x));
                            assert(self.required@[j as int] == x);
                        }
                    }
                    assert forall|x: u8|
                        (exists|i: int|
                            0 <= i < j + 1 && #[trigger] self.required@[i] == x && !vals@.contains(
                                x,
                            )) implies missing_list@.contains(x) by {
                        let i0 = choose|i: int|
                            0 <= i < j + 1 && #[trigger] self.required@[i] == x && !vals@.contains(
                                x,
                            );
                        if i0 < j {
                            assert(prev.contains(x));
                            if missing_list@ != prev {
                                assert(missing_list@ == prev.push(d));
                            }
                        } else {
                            assert(self.required@[j as int] == x);
                            assert(d == x);
                            if !prev.contains(d) {
                                assert(missing_list@ == prev.push(d));
                            }
                        }
                    }
                }
                j += 1;
            }
            proof {
                assert(self.required@.subrange(0, self.required@.len() as int) =~= self.required@);
            }
            let mut unfilled: usize = 0;
            let mut j2: usize = 0;
            while j2 < vals.len()
                invariant
                    0 <= j2 <= vals@.len(),
                    unfilled == count_zeros(vals@.subrange(0, j2 as int)),
                    unfilled <= j2,
                decreases vals@.len() - j2,
            {
                proof {
                    assert(vals@.subrange(0, j2 + 1).drop_last() =~= vals@.subrange(0, j2 as int));
                    assert(vals@.subrange(0, j2 + 1).last() == vals@[j2 as int]);
                }
                if vals[j2] == 0 {
                    unfilled += 1;
                }
                j2 += 1;
            }
            proof {
                assert(vals@.subrange(0, vals@.len() as int) =~= vals@);
            }
            if unfilled < missing_list.len() {
                proof {
                    assert(vals@ == values_at(self.cells@, grid.cells_view()));
                    assert(unfilled == count_zeros(vals@));
                    assert(missing_list@.len() == count_missing_set(self.required@, vals@));
                    assert(count_zeros(vals@) < count_missing_set(self.required@, vals@));
                }
                return Err(VariantContradiction::Inconsistent {
                    variant: "QuadrupleCircle",
                    reason: "not enough empty cells for the required digits".to_owned(),
                });
            }
            if unfilled == missing_list.len() {
                let sorted = sort_digits(&missing_list);
                proof {
                    assert(count_zeros(vals@) == count_missing_set(self.required@, vals@));
                    assert forall|d: u8|
                        sorted@.contains(d) <==> (is_digit(d) && self.empty_cell_admits(
                            grid.cells_view(),
                            d,
                        )) by {
                        if missing_list@.contains(d) {
                            let i0 = choose|i: int|
                                0 <= i < self.required@.len() && #[trigger] self.required@[i] == d
                                    && !vals@.contains(d);
                            assert(self.required@.contains(d));
                        }
                        if self.required@.contains(d) && !vals@.contains(d) {
                            let i0 = choose|i: int|
                                0 <= i < self.required@.len() && self.required@[i] == d;
                            assert(missing_list@.contains(d));
                        }
                    }
                }
                let result = self.fill_map(&vals, sorted);
                result
            } else {
                let full = crate::digits::all_possibilities();
                proof {
                    assert(count_zeros(vals@) > count_missing_set(self.required@, vals@));
                    assert(forall|d: u8|
                        full@.contains(d) <==> (is_digit(d) && self.empty_cell_admits(
                            grid.cells_view(),
                            d,
                        )));
                }
                let result = self.fill_map(&vals, full);
                result
            }
        }
    }

    /// Whether this circle alone admits digit `d` at an empty circled cell,
    /// given the current values of the circled cells.
    pub open spec fn empty_cell_admits(self, g: Seq<u8>, d: u8) -> bool {
        let vs = values_at(self.cells@, g);
        if self.is_anti {
            !self.required@.contains(d)
        } else {
            if count_zeros(vs) == count_missing_set(self.required@, vs) {
                self.required@.contains(d) && !vs.contains(d)
            } else {
                true
            }
        }
    }

    /// Build the result map: singletons for filled cells, `open_list` for
    /// empty ones.
    fn fill_map(&self, vals: &Vec<u8>, open_list: Vec<u8>) -> (result: Result<
        PossibilityMap,
        VariantContradiction,
    >)
        requires
            self.wf(),
            vals@.len() == self.cells@.len(),
            forall|k: int| 0 <= k < vals@.len() ==> #[trigger] vals@[k] <= 9,
            wf_digits(open_list@),
        ensures
            result is Ok,
            ({
                let m = result->Ok_0;
                &&& m.wf()
                &&& forall|r2: int, c2: int|
                    in_bounds(r2, c2) ==> ((#[trigger] m.entry(r2, c2)) is Some
                        <==> self.cells@.contains(((r2 as usize), (c2 as usize))))
                &&& forall|k: int|
                    0 <= k < self.cells@.len() ==> (#[trigger] vals@[k] != 0 ==> m.entry(
                        self.cells@[k].0 as int,
                        self.cells@[k].1 as int,
                    ) == Some(seq![vals@[k]]))
                &&& forall|k: int|
                    0 <= k < self.cells@.len() ==> (#[trigger] vals@[k] == 0 ==> m.entry(
                        self.cells@[k].0 as int,
                        self.cells@[k].1 as int,
                    ) == Some(open_list@))
            }),
    {
        let n = self.cells.len();
        let mut m = PossibilityMap::new_blank();
        let mut k: usize = 0;
        while k < n
            invariant
                self.wf(),
                m.wf(),
                n == self.cells@.len(),
                vals@.len() == n,
                forall|k2: int| 0 <= k2 < n ==> #[trigger] vals@[k2] <= 9,
                wf_digits(open_list@),
                0 <= k <= n,
                forall|r2: int, c2: int|
                    in_bounds(r2, c2) ==> ((#[trigger] m.entry(r2, c2)) is Some <==> exists|k2: int|
                        0 <= k2 < k && self.cells@[k2] == ((r2 as usize), (c2 as usize))),
                forall|k2: int|
                    0 <= k2 < k ==> (#[trigger] vals@[k2] != 0 ==> m.entry(
                        self.cells@[k2].0 as int,
                        self.cells@[k2].1 as int,
                    ) == Some(seq![vals@[k2]])),
                forall|k2: int|
                    0 <= k2 < k ==> (#[trigger] vals@[k2] == 0 ==> m.entry(
                        self.cells@[k2].0 as int,
                        self.cells@[k2].1 as int,
                    ) == Some(open_list@)),
            decreases n - k,
        {
            assert(crate::variant::util::pos_wf(self.cells@[k as int]));
            let p = self.cells[k];
            let v = vals[k];
            if v != 0 {
                let mut s: Vec<u8> = Vec::new();
                s.push(v);
                proof {
                    assert(s@ =~= seq![vals@[k as int]]);
                    assert(crate::digits::is_digit(v));
                }
                m.set_list(p.0, p.1, s);
            } else {
                let l = crate::digits::copy_digits(&open_list);
                m.set_list(p.0, p.1, l);
            }
            proof {
                assert forall|r2: int, c2: int|
                    in_bounds(r2, c2) implies ((#[trigger] m.entry(r2, c2)) is Some <==> exists|
                    k2: int,
                |
                    0 <= k2 < k + 1 && self.cells@[k2] == ((r2 as usize), (c2 as usize))) by {
                    if (r2, c2) == (p.0 as int, p.1 as int) {
                        assert(self.cells@[k as int] == ((r2 as usize), (c2 as usize)));
                    }
                }
            }
            k += 1;
        }
        proof {
            assert forall|r2: int, c2: int|
                in_bounds(r2, c2) implies ((#[trigger] m.entry(r2, c2)) is Some
                <==> self.cells@.contains(((r2 as usize), (c2 as usize)))) by {
                if self.cells@.contains(((r2 as usize), (c2 as usize))) {
                    let k2 = choose|k2: int|
                        0 <= k2 < self.cells@.len() && self.cells@[k2] == ((r2 as usize), (
                        c2 as usize));
                    assert(0 <= k2 < n && self.cells@[k2] == ((r2 as usize), (c2 as usize)));
                }
            }
        }
        Ok(m)
    }
}

/// A positive zero-count names an actual empty entry.
pub proof fn lemma_count_zeros_names_empty(s: Seq<u8>)
    ensures
        count_zeros(s) >= 0,
        count_zeros(s) > 0 ==> exists|k: int| 0 <= k < s.len() && #[trigger] s[k] == 0,
        count_zeros(s) == 0 ==> forall|k: int| 0 <= k < s.len() ==> #[trigger] s[k] != 0,
    decreases s.len(),
{
    if s.len() > 0 {
        lemma_count_zeros_names_empty(s.drop_last());
        if count_zeros(s) > 0 {
            if s.last() == 0 {
                assert(s[s.len() - 1] == 0);
            } else {
                let k = choose|k: int|
                    0 <= k < s.drop_last().len() && #[trigger] s.drop_last()[k] == 0;
                assert(s[k] == 0);
            }
        }
        if count_zeros(s) == 0 {
            assert forall|k: int| 0 <= k < s.len() implies #[trigger] s[k] != 0 by {
                if k < s.len() - 1 {
                    assert(s.drop_last()[k] == s[k]);
                }
            }
        }
    }
}

/// How many distinct digits of `req` are absent from `cur`.
pub open spec fn count_missing_set(req: Seq<u8>, cur: Seq<u8>) -> int
    decreases req.len(),
{
    if req.len() == 0 {
        0
    } else {
        count_missing_set(req.drop_last(), cur) + if !cur.contains(req.last())
            && !req.drop_last().contains(req.last()) {
            1int
        } else {
            0int
        }
    }
}

/// The digits of `v`, sorted ascending; `v` must hold pairwise distinct digits.
fn sort_digits(v: &Vec<u8>) -> (r: Vec<u8>)
    requires
        forall|i: int, j: int| 0 <= i < j < v@.len() ==> v@[i] != v@[j],
    ensures
        wf_digits(r@),
        forall|x: u8| r@.contains(x) <==> (crate::digits::is_digit(x) && v@.contains(x)),
        v@.len() <= 9 && (forall|i: int| 0 <= i < v@.len() ==> is_digit(#[trigger] v@[i]))
            ==> r@.len() == v@.len(),
{
    let mut out: Vec<u8> = Vec::new();
    let mut d: u8 = 1;
    while d <= 9
        invariant
            1 <= d <= 10,
            forall|i2: int, j2: int| 0 <= i2 < j2 < out@.len() ==> out@[i2] < out@[j2],
            forall|i2: int| 0 <= i2 < out@.len() ==> 1 <= #[trigger] out@[i2] < d,
            forall|x: u8| out@.contains(x) <==> (1 <= x < d && v@.contains(x)),
        decreases 10 - d,
    {
        let ghost prev = out@;
        if crate::digits::contains_digit(v, d) {
            out.push(d);
        }
        proof {
            crate::digits::lemma_push_contains(prev, d);
            assert forall|x: u8| out@.contains(x) implies (1 <= x < d + 1 && v@.contains(x)) by {
                if !prev.contains(x) {
                    assert(out@ == prev.push(x));
                }
            }
            assert forall|x: u8| (1 <= x < d + 1 && v@.contains(x)) implies out@.contains(x) by {
                if x == d {
                    assert(out@ == prev.push(d));
                } else {
                    assert(prev.contains(x));
                }
            }
        }
        d += 1;
    }
    proof {
        if v@.len() <= 9 && (forall|i: int| 0 <= i < v@.len() ==> is_digit(#[trigger] v@[i])) {
            lemma_distinct_digit_count(v@, out@);
        }
    }
    out
}

/// Two duplicate-free lists with the same digit membership have one length.
proof fn lemma_distinct_digit_count(a: Seq<u8>, b: Seq<u8>)
    requires
        forall|i: int, j: int| 0 <= i < j < a.len() ==> a[i] != a[j],
        forall|i: int, j: int| 0 <= i < j < b.len() ==> b[i] != b[j],
        forall|x: u8| a.contains(x) <==> b.contains(x),
    ensures
        a.len() == b.len(),
    decreases a.len(),
{
    if a.len() > 0 {
        let x = a.last();
        assert(a.contains(x));
        let bi = choose|i: int| 0 <= i < b.len() && b[i] == x;
        let a2 = a.drop_last();
        let b2 = b.remove(bi);
        assert forall|y: u8| a2.contains(y) implies b2.contains(y) by {
            let ai = choose|i: int| 0 <= i < a2.len() && a2[i] == y;
            assert(a[ai] == y);
            assert(y != x);
            assert(b.contains(y));
            let bj = choose|j: int| 0 <= j < b.len() && b[j] == y;
            assert(bj != bi);
            if bj < bi {
                assert(b2[bj] == y);
            } else {
                assert(b2[bj - 1] == y);
            }
        }
        assert forall|y: u8| b2.contains(y) implies a2.contains(y) by {
            let bj = choose|j: int| 0 <= j < b2.len() && b2[j] == y;
            let orig = if bj < bi {
                bj
            } else {
                bj + 1
            };
            assert(b[orig] == y);
            assert(orig != bi);
            assert(y != x) by {
                if y == x {
                    assert(b[orig] == b[bi]);
                }
            }
            assert(a.contains(y));
            let ai = choose|i: int| 0 <= i < a.len() && a[i] == y;
            assert(ai != a.len() - 1);
            assert(a2[ai] == y);
        }
        assert forall|i: int, j: int| 0 <= i < j < b2.len() implies b2[i] != b2[j] by {
            let oi = if i < bi {
                i
            } else {
                i + 1
            };
            let oj = if j < bi {
                j
            } else {
                j + 1
            };
            assert(b2[i] == b[oi] && b2[j] == b[oj]);
        }
        lemma_distinct_digit_count(a2, b2);
    } else {
        if b.len() > 0 {
            assert(b.contains(b.last()));
            assert(a.contains(b.last()));
        }
    }
}

} // verus!
