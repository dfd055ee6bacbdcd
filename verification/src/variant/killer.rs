use vstd::prelude::*;

use crate::digits::{contains_digit, is_digit, sum_digits, sum_of, wf_digits};
use crate::errors::VariantContradiction;
use crate::grid::SudokuGrid;
use crate::possmap::{in_bounds, PossibilityMap};
use crate::variant::quadruple::count_zeros;
use crate::variant::util::{
    contains_pos, copy_positions, fill_map_uniform, grid_values, pos_list_distinct, pos_list_wf,
    values_at,
};

verus! {

/// Whether some set of pairwise distinct digits of the given size sums to the
/// target and includes `d`.
pub open spec fn in_some_cage_set(d: u8, size: int, target: int) -> bool {
    exists|s: Seq<u8>|
        wf_digits(s) && s.len() == size && #[trigger] sum_of(s) == target && s.contains(d)
}

/// A set of pairwise distinct unused digits, one for each empty cell of the
/// cage, that sums to what the placed digits leave of the total and contains
/// `d`.
pub open spec fn cage_cover(vs: Seq<u8>, total: int, d: u8, s: Seq<u8>) -> bool {
    &&& wf_digits(s)
    &&& s.len() == count_zeros(vs)
    &&& s.contains(d)
    &&& (forall|j: int| 0 <= j < s.len() ==> !vs.contains(#[trigger] s[j]))
    &&& sum_of(s) == total - sum_of(vs)
}

/// A cage of cells whose pairwise distinct digits must sum to a target.
#[derive(Clone, Debug, PartialEq, Eq)]
pub struct KillerCage {
    pub cells: Vec<(usize, usize)>,
    pub total: u8,
    pub possible_values: Vec<u8>,
}

impl KillerCage {
    /// In-range, pairwise distinct cells, and the precomputed digit pool.
    pub open spec fn wf(self) -> bool {
        &&& pos_list_wf(self.cells@)
        &&& pos_list_distinct(self.cells@)
        &&& 1 <= self.cells@.len() <= 81
        &&& wf_digits(self.possible_values@)
    }

    /// The cage values with `value` written at `(row, col)`.
    pub open spec fn subst_values(self, g: Seq<u8>, row: usize, col: usize, value: u8) -> Seq<u8> {
        Seq::new(
            self.cells@.len() as nat,
            |k: int|
                if self.cells@[k] == (row, col) {
                    value
                } else {
                    values_at(self.cells@, g)[k]
                },
        )
    }

    /// Whether another cage cell already holds `value`.
    pub open spec fn value_elsewhere(self, g: Seq<u8>, row: usize, col: usize, value: u8) -> bool {
        exists|k: int|
            0 <= k < self.cells@.len() && #[trigger] self.cells@[k] != (row, col) && values_at(
                self.cells@,
                g,
            )[k] == value
    }

    /// Whether placing `value` at `(row, col)` keeps the cage satisfiable:
    /// the digit must belong to some distinct-digit set reaching the target,
    /// not repeat in the cage, and keep the partial sum below (or, when the
    /// cage fills, exactly at) the target.
    pub open spec fn is_valid_spec(self, g: Seq<u8>, row: usize, col: usize, value: u8) -> bool {
        if !self.cells@.contains((row, col)) {
            true
        } else if !self.possible_values@.contains(value) {
            false
        } else if self.value_elsewhere(g, row, col, value) {
            false
        } else {
            let cur = self.subst_values(g, row, col, value);
            if count_zeros(cur) == 0 {
                sum_of(cur) == self.total
            } else {
                sum_of(cur) <= self.total
            }
        }
    }

    /// A digit an empty cell of the cage may take: some set of unused digits,
    /// one per empty cell, completes the cage sum and contains it.
    pub open spec fn admits(self, vs: Seq<u8>, d: u8) -> bool {
        exists|s: Seq<u8>| #[trigger] cage_cover(vs, self.total as int, d, s)
    }

    /// All cage cells are filled with pairwise distinct digits summing to the
    /// target.
    pub open spec fn solution_ok(self, g: Seq<u8>) -> bool {
        let vs = values_at(self.cells@, g);
        &&& forall|k: int| 0 <= k < vs.len() ==> #[trigger] vs[k] != 0
        &&& forall|i: int, j: int| 0 <= i < j < vs.len() ==> vs[i] != vs[j]
        &&& sum_of(vs) == self.total
    }

    /// A cage over the given cells summing to `sum`. The digit pool is
    /// precomputed: a digit is in the pool exactly when some set of pairwise
    /// distinct digits of the cage's size sums to the target and contains it.
    pub fn new(cells: Vec<(usize, usize)>, sum: u8) -> (cage: KillerCage)
        requires
            pos_list_wf(cells@),
            pos_list_distinct(cells@),
            1 <= cells@.len() <= 81,
        ensures
            cage.wf(),
            cage.cells@ == cells@,
            cage.total == sum,
            forall|d: u8|
                #[trigger] cage.possible_values@.contains(d) <==> (is_digit(d) && in_some_cage_set(
                    d,
                    cells@.len() as int,
                    sum as int,
                )),
    {
        let digits = crate::digits::all_possibilities();
        let combos = crate::combos::combinations_u8(&digits, cells.len());
        let mut pool: Vec<u8> = Vec::new();
        let mut d: u8 = 1;
        while d <= 9
            invariant
                1 <= d <= 10,
                1 <= cells@.len() <= 81,
                forall|x: u8| digits@.contains(x) <==> is_digit(x),
                wf_digits(digits@),
                forall|t: int| 0 <= t < combos@.len() ==> (#[trigger] combos@[t])@.len()
                    == cells@.len(),
                forall|t: int| 0 <= t < combos@.len() ==> strictly_sorted_view(combos@[t]),
                forall|t: int, j: int|
                    0 <= t < combos@.len() && 0 <= j < cells@.len() ==> digits@.contains(
                        #[trigger] combos@[t]@[j],
                    ),
                forall|s: Seq<u8>|
                    s.len() == cells@.len() && crate::digits::strictly_sorted(s) && (forall|j: int|
                        0 <= j < s.len() ==> digits@.contains(#[trigger] s[j])) ==> exists|t: int|
                        0 <= t < combos@.len() && (#[trigger] combos@[t])@ == s,
                forall|i2: int, j2: int| 0 <= i2 < j2 < pool@.len() ==> pool@[i2] < pool@[j2],
                forall|i2: int| 0 <= i2 < pool@.len() ==> 1 <= #[trigger] pool@[i2] < d,
                forall|x: u8|
                    pool@.contains(x) <==> (1 <= x < d && in_some_cage_set(
                        x,
                        cells@.len() as int,
                        sum as int,
                    )),
            decreases 10 - d,
        {
            let ghost prev = pool@;
            let hit = cage_sets_with(&combos, sum, d);
            if hit {
                pool.push(d);
                proof {
                    let t = choose|t: int|
                        0 <= t < combos@.len() && sum_of((#[trigger] combos@[t])@) == sum as int
                            && combos@[t]@.contains(d);
                    assert(wf_digits(combos@[t]@)) by {
                        assert forall|j: int|
                            0 <= j < combos@[t]@.len() implies is_digit(
                            #[trigger] combos@[t]@[j],
                        ) by {
                            assert(digits@.contains(combos@[t]@[j]));
                        }
                    }
                    assert(in_some_cage_set(d, cells@.len() as int, sum as int));
                }
            } else {
                proof {
                    if in_some_cage_set(d, cells@.len() as int, sum as int) {
                        let s = choose|s: Seq<u8>|
                            wf_digits(s) && s.len() == cells@.len() && #[trigger] sum_of(s)
                                == sum as int && s.contains(d);
                        assert forall|j: int| 0 <= j < s.len() implies digits@.contains(
                            #[trigger] s[j],
                        ) by {
                            assert(is_digit(s[j]));
                        }
                        let t = choose|t: int|
                            0 <= t < combos@.len() && (#[trigger] combos@[t])@ == s;
                        assert(sum_of(combos@[t]@) == sum as int && combos@[t]@.contains(d));
                    }
                }
            }
            proof {
                crate::digits::lemma_push_contains(prev, d);
                assert forall|x: u8|
                    pool@.contains(x) implies (1 <= x < d + 1 && in_some_cage_set(
                    x,
                    cells@.len() as int,
                    sum as int,
                )) by {
                    if !prev.contains(x) {
                        assert(pool@ == prev.push(x));
                    }
                }
                assert forall|x: u8|
                    (1 <= x < d + 1 && in_some_cage_set(x, cells@.len() as int, sum as int))
                    implies pool@.contains(x) by {
                    if x == d {
                        assert(pool@ == prev.push(d));
                    } else {
                        assert(prev.contains(x));
                    }
                }
            }
            d += 1;
        }
        proof {
            assert forall|x: u8|
                #[trigger] pool@.contains(x) implies is_digit(x) by {}
        }
        KillerCage { cells, total: sum, possible_values: pool }
    }

    /// Whether placing `value` at `(row, col)` leaves the cage observably satisfiable.
    pub fn is_valid(&self, grid: &SudokuGrid, row: usize, col: usize, value: u8) -> (b: bool)
        requires
            self.wf(),
            grid.wf(),
            row < 9,
            col < 9,
        ensures
            b == self.is_valid_spec(grid.cells_view(), row, col, value),
    {
        if !contains_pos(&self.cells, row, col) {
            return true;
        }
        if !contains_digit(&self.possible_values, value) {
            return false;
        }
        let vals = grid_values(&self.cells, grid);
        let n = self.cells.len();
        // Repeats and the substituted value list.
        let mut cur: Vec<u8> = Vec::new();
        let mut dup = false;
        let mut k: usize = 0;
        while k < n
            invariant
                self.wf(),
                n == self.cells@.len(),
                vals@ == values_at(self.cells@, grid.cells_view()),
                vals@.len() == n,
                0 <= k <= n,
                cur@.len() == k,
                forall|j: int|
                    0 <= j < k ==> #[trigger] cur@[j] == self.subst_values(
                        grid.cells_view(),
                        row,
                        col,
                        value,
                    )[j],
                dup <==> exists|j: int|
                    0 <= j < k && #[trigger] self.cells@[j] != (row, col) && values_at(
                        self.cells@,
                        grid.cells_view(),
                    )[j] == value,
            decreases n - k,
        {
            let p = self.cells[k];
            if p.0 == row && p.1 == col {
                cur.push(value);
                proof {
                    assert(self.cells@[k as int] == (row, col));
                }
            } else {
                cur.push(vals[k]);
                proof {
                    assert(self.cells@[k as int] != (row, col));
                }
                if vals[k] == value {
                    dup = true;
                }
            }
            k += 1;
        }
        proof {
            assert(cur@ =~= self.subst_values(grid.cells_view(), row, col, value));
        }
        if dup {
            return false;
        }
        let s = sum_digits(&cur);
        let zeros = count_zeros_exec(&cur);
        if zeros == 0 {
            s == self.total as u32
        } else {
            s <= self.total as u32
        }
    }

    /// Whether the fully assigned grid satisfies the cage.
    pub fn validate_solution(&self, grid: &SudokuGrid) -> (b: bool)
        requires
            self.wf(),
            grid.wf(),
        ensures
            b == self.solution_ok(grid.cells_view()),
    {
        let vals = grid_values(&self.cells, grid);
        let mut i: usize = 0;
        while i < vals.len()
            invariant
                0 <= i <= vals@.len(),
                vals@ == values_at(self.cells@, grid.cells_view()),
                forall|k: int| 0 <= k < i ==> #[trigger] vals@[k] != 0,
                forall|k: int, j: int| 0 <= k < j < i ==> vals@[k] != vals@[j],
            decreases vals@.len() - i,
        {
            let v = vals[i];
            if v == 0 {
                proof {
                    assert(values_at(self.cells@, grid.cells_view())[i as int] == 0);
                }
                return false;
            }
            let mut j: usize = 0;
            while j < i
                invariant
                    0 <= j <= i,
                    i < vals@.len(),
                    vals@ == values_at(self.cells@, grid.cells_view()),
                    v == vals@[i as int],
                    forall|k: int| 0 <= k < j ==> vals@[k] != vals@[i as int],
                decreases i - j,
            {
                if vals[j] == v {
                    proof {
                        assert(values_at(self.cells@, grid.cells_view())[j as int] == values_at(
                            self.cells@,
                            grid.cells_view(),
                        )[i as int]);
                    }
                    return false;
                }
                j += 1;
            }
            i += 1;
        }
        let s = sum_digits(&vals);
        s == self.total as u32
    }

    /// The cage's cells.
    pub fn constrained_cells(&self) -> (r: Vec<(usize, usize)>)
        ensures
            r@ == self.cells@,
    {
        copy_positions(&self.cells)
    }

    /// The digits this cage alone admits: singletons for filled cells, and
    /// for every empty cell the union of the distinct-digit sets over the
    /// unused digits that complete the cage's remaining sum. When an empty
    /// cell is left without digits the cage reports a contradiction.
    pub fn get_possibilities(&self, grid: &SudokuGrid) -> (result: Result<
        PossibilityMap,
        VariantContradiction,
    >)
        requires
            self.wf(),
            grid.wf(),
        ensures
            ({
                let vs = values_at(self.cells@, grid.cells_view());
                match result {
                    Ok(m) => {
                        &&& m.wf()
                        &&& forall|r2: int, c2: int|
                            in_bounds(r2, c2) ==> ((#[trigger] m.entry(r2, c2)) is Some
                                ==> self.cells@.contains(((r2 as usize), (c2 as usize))))
                        &&& forall|k: int|
                            0 <= k < self.cells@.len() ==> (#[trigger] vs[k] != 0 ==> m.entry(
                                self.cells@[k].0 as int,
                                self.cells@[k].1 as int,
                            ) == Some(seq![vs[k]]))
                        &&& forall|k: int|
                            0 <= k < self.cells@.len() ==> (#[trigger] vs[k] == 0 ==> (m.entry(
                                self.cells@[k].0 as int,
                                self.cells@[k].1 as int,
                            ) matches Some(l) && wf_digits(l) && (forall|d: u8|
                                l.contains(d) <==> (is_digit(d) && self.admits(vs, d)))))
                    },
                    Err(_) => true,
                }
            }),
            ({
                let vs = values_at(self.cells@, grid.cells_view());
                result is Err <==> ((exists|k: int|
                    0 <= k < self.cells@.len() && #[trigger] vs[k] == 0) && (forall|d: u8|
                    is_digit(d) ==> !self.admits(vs, d)))
            }),
    {
        let vals = grid_values(&self.cells, grid);
        let n = self.cells.len();
        // Digits already used and the remaining sum.
        let cur_sum = sum_digits(&vals);
        let zeros = count_zeros_exec(&vals);
        proof {
            lemma_count_zeros_pos(vals@);
        }
        if zeros == 0 {
            let empty_union: Vec<u8> = Vec::new();
            proof {
                assert(wf_digits(empty_union@));
                assert(forall|k: int| 0 <= k < vals@.len() ==> #[trigger] vals@[k] != 0);
            }
            return Ok(fill_map_uniform(&self.cells, &vals, empty_union));
        }
        // Candidate digits: unused ones that some completing set contains.
        let mut available: Vec<u8> = Vec::new();
        let mut d: u8 = 1;
        while d <= 9
            invariant
                1 <= d <= 10,
                vals@.len() == n,
                forall|i2: int, j2: int|
                    0 <= i2 < j2 < available@.len() ==> available@[i2] < available@[j2],
                forall|i2: int| 0 <= i2 < available@.len() ==> 1 <= #[trigger] available@[i2] < d,
                forall|x: u8|
                    available@.contains(x) <==> (1 <= x < d && !vals@.contains(x)),
            decreases 10 - d,
        {
            let ghost prev = available@;
            let unused = !contains_digit(&vals, d);
            if unused {
                available.push(d);
            }
            proof {
                crate::digits::lemma_push_contains(prev, d);
                assert forall|x: u8| available@.contains(x) implies (1 <= x < d + 1
                    && !vals@.contains(x)) by {
                    if !prev.contains(x) {
                        assert(available@ == prev.push(x));
                    }
                }
                assert forall|x: u8| (1 <= x < d + 1 && !vals@.contains(x)) implies available@
                    .contains(x) by {
                    if x == d {
                        assert(unused);
                        assert(prev.push(d).contains(d));
                    } else {
                        assert(prev.contains(x));
                        if available@ != prev {
                            assert(prev.push(d).contains(x));
                        }
                    }
                }
            }
            d += 1;
        }
        let target32 = self.total as u32;
        if cur_sum > target32 {
            proof {
                assert forall|x: u8| is_digit(x) implies !self.admits(vals@, x) by {
                    if self.admits(vals@, x) {
                        let s = choose|s: Seq<u8>|
                            #[trigger] cage_cover(vals@, self.total as int, x, s);
                        crate::digits::lemma_sum_bounds(s);
                    }
                }
            }
            let first = first_empty_cell(&self.cells, &vals);
            return Err(VariantContradiction::NoPossibilities {
                cell: first,
                variant: "KillerCage",
                reason: "the placed digits already exceed the cage sum".to_owned(),
            });
        }
        let remaining = (target32 - cur_sum) as u8;
        let combos = crate::combos::combinations_u8(&available, zeros);
        proof {
            assert forall|t: int| 0 <= t < combos@.len() implies wf_digits(
                (#[trigger] combos@[t])@,
            ) by {
                assert forall|j: int| 0 <= j < combos@[t]@.len() implies is_digit(
                    #[trigger] combos@[t]@[j],
                ) by {
                    assert(available@.contains(combos@[t]@[j]));
                }
            }
        }
        let mut union: Vec<u8> = Vec::new();
        let mut d2: u8 = 1;
        while d2 <= 9
            invariant
                1 <= d2 <= 10,
                self.wf(),
                vals@.len() == n,
                zeros == count_zeros(vals@),
                remaining == self.total as int - sum_of(vals@),
                forall|x: u8| available@.contains(x) <==> (is_digit(x) && !vals@.contains(x)),
                forall|t: int| 0 <= t < combos@.len() ==> (#[trigger] combos@[t])@.len() == zeros,
                forall|t: int| 0 <= t < combos@.len() ==> (#[trigger] combos@[t])@.len() <= 81,
                forall|t: int| 0 <= t < combos@.len() ==> wf_digits((#[trigger] combos@[t])@),
                forall|t: int, j: int|
                    0 <= t < combos@.len() && 0 <= j < zeros ==> available@.contains(
                        #[trigger] combos@[t]@[j],
                    ),
                forall|s: Seq<u8>|
                    s.len() == zeros && crate::digits::strictly_sorted(s) && (forall|j: int|
                        0 <= j < zeros ==> available@.contains(#[trigger] s[j])) ==> exists|t: int|
                        0 <= t < combos@.len() && (#[trigger] combos@[t])@ == s,
                forall|i2: int, j2: int| 0 <= i2 < j2 < union@.len() ==> union@[i2] < union@[j2],
                forall|i2: int| 0 <= i2 < union@.len() ==> 1 <= #[trigger] union@[i2] < d2,
                forall|x: u8| union@.contains(x) <==> (1 <= x < d2 && self.admits(vals@, x)),
            decreases 10 - d2,
        {
            let ghost prev = union@;
            let here = cage_sets_with(&combos, remaining, d2);
            proof {
                if here {
                    let t = choose|t: int|
                        0 <= t < combos@.len() && sum_of((#[trigger] combos@[t])@)
                            == remaining as int && combos@[t]@.contains(d2);
                    assert forall|j: int| 0 <= j < combos@[t]@.len() implies !vals@.contains(
                        #[trigger] combos@[t]@[j],
                    ) by {
                        assert(available@.contains(combos@[t]@[j]));
                    }
                    assert(cage_cover(vals@, self.total as int, d2, combos@[t]@));
                } else {
                    if self.admits(vals@, d2) {
                        let s = choose|s: Seq<u8>|
                            #[trigger] cage_cover(vals@, self.total as int, d2, s);
                        assert forall|j: int| 0 <= j < zeros implies available@.contains(
                            #[trigger] s[j],
                        ) by {
                            assert(is_digit(s[j]) && !vals@.contains(s[j]));
                        }
                        let t = choose|t: int|
                            0 <= t < combos@.len() && (#[trigger] combos@[t])@ == s;
                        assert(sum_of(combos@[t]@) == remaining as int && combos@[t]@.contains(
                            d2,
                        ));
                        assert(false);
                    }
                }
                assert(here == self.admits(vals@, d2));
            }
            if here {
                union.push(d2);
            }
            proof {
                crate::digits::lemma_push_contains(prev, d2);
                assert forall|x: u8| union@.contains(x) implies (1 <= x < d2 + 1 && self.admits(
                    vals@,
                    x,
                )) by {
                    if !prev.contains(x) {
                        assert(union@ == prev.push(x));
                    }
                }
                assert forall|x: u8| (1 <= x < d2 + 1 && self.admits(vals@, x)) implies union@
                    .contains(x) by {
                    if x == d2 {
                        assert(here);
                        assert(prev.push(d2).contains(d2));
                    } else {
                        assert(prev.contains(x));
                        if union@ != prev {
                            assert(prev.push(d2).contains(x));
                        }
                    }
                }
            }
            d2 += 1;
        }
        if union.len() == 0 {
            proof {
                assert forall|x: u8| is_digit(x) implies !self.admits(vals@, x) by {
                    if self.admits(vals@, x) {
                        assert(union@.contains(x));
                    }
                }
            }
            let first = first_empty_cell(&self.cells, &vals);
            return Err(VariantContradiction::NoPossibilities {
                cell: first,
                variant: "KillerCage",
                reason: "no unused digit can complete the cage sum".to_owned(),
            });
        }
        proof {
            let x0 = union@[0];
            assert(union@.contains(x0));
            assert(is_digit(x0) && self.admits(vals@, x0));
        }
        Ok(fill_map_uniform(&self.cells, &vals, union))
    }
}

/// A sorted view, phrased for quantifiers over combination lists.
pub open spec fn strictly_sorted_view(v: Vec<u8>) -> bool {
    crate::digits::strictly_sorted(v@)
}

/// Whether some listed combination sums to `target` and contains `d`.
fn cage_sets_with(combos: &Vec<Vec<u8>>, target: u8, d: u8) -> (b: bool)
    requires
        forall|t: int| 0 <= t < combos@.len() ==> (#[trigger] combos@[t])@.len() <= 81,
    ensures
        b == exists|t: int|
            0 <= t < combos@.len() && sum_of((#[trigger] combos@[t])@) == target as int
                && combos@[t]@.contains(d),
{
    let mut t: usize = 0;
    while t < combos.len()
        invariant
            forall|t2: int| 0 <= t2 < combos@.len() ==> (#[trigger] combos@[t2])@.len() <= 81,
            0 <= t <= combos@.len(),
            forall|t2: int|
                0 <= t2 < t ==> !(sum_of((#[trigger] combos@[t2])@) == target as int
                    && combos@[t2]@.contains(d)),
        decreases combos@.len() - t,
    {
        let combo = &combos[t];
        if sum_digits(combo) == target as u32 && contains_digit(combo, d) {
            return true;
        }
        t += 1;
    }
    false
}

/// The first empty cell of the list; the caller knows one exists.
fn first_empty_cell(cells: &Vec<(usize, usize)>, vals: &Vec<u8>) -> (p: (usize, usize))
    requires
        vals@.len() == cells@.len(),
        exists|k: int| 0 <= k < vals@.len() && #[trigger] vals@[k] == 0,
    ensures
        true,
{
    let mut k: usize = 0;
    while k < cells.len()
        invariant
            vals@.len() == cells@.len(),
            exists|k2: int| 0 <= k2 < vals@.len() && #[trigger] vals@[k2] == 0,
            0 <= k <= cells@.len(),
            forall|k2: int| 0 <= k2 < k ==> #[trigger] vals@[k2] != 0,
        decreases cells@.len() - k,
    {
        if vals[k] == 0 {
            return cells[k];
        }
        k += 1;
    }
    proof {
        let k2 = choose|k2: int| 0 <= k2 < vals@.len() && #[trigger] vals@[k2] == 0;
        assert(false);
    }
    (0, 0)
}

/// A positive zero-count names an actual empty entry.
proof fn lemma_count_zeros_pos(s: Seq<u8>)
    ensures
        count_zeros(s) >= 0,
        count_zeros(s) > 0 ==> exists|k: int| 0 <= k < s.len() && #[trigger] s[k] == 0,
        count_zeros(s) == 0 ==> forall|k: int| 0 <= k < s.len() ==> #[trigger] s[k] != 0,
    decreases s.len(),
{
    if s.len() > 0 {
        lemma_count_zeros_pos(s.drop_last());
        if count_zeros(s) > 0 {
            if s.last() == 0 {
                assert(s[s.len() - 1] == 0);
            } else {
                let k = choose|k: int|
                    0 <= k < s.drop_last().len() && #[trigger] s.drop_last()[k] == 0;
                assert(s[k] == 0);
            }
        }
        if count_zeros(s) == 0 {
            assert forall|k: int| 0 <= k < s.len() implies #[trigger] s[k] != 0 by {
                if k < s.len() - 1 {
                    assert(s.drop_last()[k] == s[k]);
                }
            }
        }
    }
}

/// How many entries of the list are zero, computed.
fn count_zeros_exec(v: &Vec<u8>) -> (z: usize)
    ensures
        z == count_zeros(v@),
        z <= v@.len(),
{
    let mut z: usize = 0;
    let mut j: usize = 0;
    while j < v.len()
        invariant
            0 <= j <= v@.len(),
            z == count_zeros(v@.subrange(0, j as int)),
            z <= j,
        decreases v@.len() - j,
    {
        proof {
            assert(v@.subrange(0, j + 1).drop_last() =~= v@.subrange(0, j as int));
            assert(v@.subrange(0, j + 1).last() == v@[j as int]);
        }
        if v[j] == 0 {
            z += 1;
        }
        j += 1;
    }
    proof {
        assert(v@.subrange(0, v@.len() as int) =~= v@);
    }
    z
}

} // verus!
