use vstd::prelude::*;

use crate::digits::{contains_digit, is_digit, wf_digits};
use crate::errors::VariantContradiction;
use crate::grid::SudokuGrid;
use crate::possmap::{in_bounds, PossibilityMap};
use crate::variant::quadruple::count_zeros;
use crate::variant::util::{
    contains_pos, copy_positions, fill_map_uniform, grid_values, pos_list_distinct, pos_list_wf,
    values_at,
};

verus! {

/// Any two filled entries lie at least two apart (so in particular no digit
/// repeats and no two are consecutive).
pub open spec fn spread_ok(s: Seq<u8>) -> bool {
    forall|i: int, j: int|
        0 <= i < j < s.len() && #[trigger] s[i] != 0 && #[trigger] s[j] != 0 ==> (s[i] + 2 <= s[j]
            || s[j] + 2 <= s[i])
}

/// A spread-out digit set of the line's size that contains `d` and every
/// placed digit of `vs`.
pub open spec fn cover_with(vs: Seq<u8>, d: u8, s: Seq<u8>) -> bool {
    &&& wf_digits(s)
    &&& s.len() == vs.len()
    &&& s.contains(d)
    &&& spread_ok(s)
    &&& forall|k: int| 0 <= k < vs.len() && #[trigger] vs[k] != 0 ==> s.contains(vs[k])
}

/// A line whose digits must be pairwise distinct with no two consecutive.
#[derive(Clone, Debug, PartialEq, Eq)]
pub struct Nabner {
    pub cells: Vec<(usize, usize)>,
}

impl Nabner {
    /// In-range, pairwise distinct cells.
    pub open spec fn wf(self) -> bool {
        &&& pos_list_wf(self.cells@)
        &&& pos_list_distinct(self.cells@)
        &&& 1 <= self.cells@.len() <= 81
    }

    /// The line values with `value` written at `(row, col)`.
    pub open spec fn subst_values(self, g: Seq<u8>, row: usize, col: usize, value: u8) -> Seq<u8> {
        Seq::new(
            self.cells@.len() as nat,
            |k: int|
                if self.cells@[k] == (row, col) {
                    value
                } else {
                    values_at(self.cells@, g)[k]
                },
        )
    }

    /// Whether placing `value` at `(row, col)` keeps the line satisfiable:
    /// every pair of filled cells must still lie at least two apart.
    pub open spec fn is_valid_spec(self, g: Seq<u8>, row: usize, col: usize, value: u8) -> bool {
        if !self.cells@.contains((row, col)) {
            true
        } else {
            spread_ok(self.subst_values(g, row, col, value))
        }
    }

    /// A digit an empty cell of the line may take: it is not already
    /// placed, and some spread-out digit set of the line's size contains it
    /// together with every placed digit.
    pub open spec fn admits(self, vs: Seq<u8>, d: u8) -> bool {
        &&& !vs.contains(d)
        &&& exists|s: Seq<u8>| #[trigger] cover_with(vs, d, s)
    }

    /// All cells are filled, pairwise distinct, with no two consecutive.
    pub open spec fn solution_ok(self, g: Seq<u8>) -> bool {
        let vs = values_at(self.cells@, g);
        &&& forall|k: int| 0 <= k < vs.len() ==> is_digit(#[trigger] vs[k])
        &&& spread_ok(vs)
    }

    /// A nabner line along the given cells.
    pub fn new(cells: Vec<(usize, usize)>) -> (v: Nabner)
        requires
            pos_list_wf(cells@),
            pos_list_distinct(cells@),
            1 <= cells@.len() <= 81,
        ensures
            v.wf(),
            v.cells@ == cells@,
    {
        Nabner { cells }
    }

    /// Whether placing `value` at `(row, col)` leaves the line observably satisfiable.
    pub fn is_valid(&self, grid: &SudokuGrid, row: usize, col: usize, value: u8) -> (b: bool)
        requires
            self.wf(),
            grid.wf(),
            row < 9,
            col < 9,
        ensures
            b == self.is_valid_spec(grid.cells_view(), row, col, value),
    {
        if !contains_pos(&self.cells, row, col) {
            return true;
        }
        let vals = grid_values(&self.cells, grid);
        let n = self.cells.len();
        let mut cur: Vec<u8> = Vec::new();
        let mut k: usize = 0;
        while k < n
            invariant
                self.wf(),
                n == self.cells@.len(),
                vals@ == values_at(self.cells@, grid.cells_view()),
                vals@.len() == n,
                0 <= k <= n,
                cur@.len() == k,
                forall|j: int|
                    0 <= j < k ==> #[trigger] cur@[j] == self.subst_values(
                        grid.cells_view(),
                        row,
                        col,
                        value,
                    )[j],
            decreases n - k,
        {
            let p = self.cells[k];
            if p.0 == row && p.1 == col {
                cur.push(value);
                proof {
                    assert(self.cells@[k as int] == (row, col));
                }
            } else {
                cur.push(vals[k]);
                proof {
                    assert(self.cells@[k as int] != (row, col));
                }
            }
            k += 1;
        }
        proof {
            assert(cur@ =~= self.subst_values(grid.cells_view(), row, col, value));
        }
        spread_ok_exec(&cur)
    }

    /// Whether the fully assigned grid satisfies the line.
    pub fn validate_solution(&self, grid: &SudokuGrid) -> (b: bool)
        requires
            self.wf(),
            grid.wf(),
        ensures
            b == self.solution_ok(grid.cells_view()),
    {
        let vals = grid_values(&self.cells, grid);
        let mut k: usize = 0;
        while k < vals.len()
            invariant
                0 <= k <= vals@.len(),
                vals@ == values_at(self.cells@, grid.cells_view()),
                forall|j: int| 0 <= j < k ==> is_digit(#[trigger] vals@[j]),
            decreases vals@.len() - k,
        {
            let v = vals[k];
            if v < 1 || v > 9 {
                proof {
                    assert(!is_digit(values_at(self.cells@, grid.cells_view())[k as int]));
                }
                return false;
            }
            k += 1;
        }
        spread_ok_exec(&vals)
    }

    /// The line's cells.
    pub fn constrained_cells(&self) -> (r: Vec<(usize, usize)>)
        ensures
            r@ == self.cells@,
    {
        copy_positions(&self.cells)
    }

    /// The digits this line alone admits: singletons for filled cells, and
    /// for empty cells the unplaced digits of the spread-out digit sets of
    /// the line's size that cover every placed digit. An empty candidate set
    /// for an empty cell is a contradiction.
    pub fn get_possibilities(&self, grid: &SudokuGrid) -> (result: Result<
        PossibilityMap,
        VariantContradiction,
    >)
        requires
            self.wf(),
            grid.wf(),
        ensures
            ({
                let vs = values_at(self.cells@, grid.cells_view());
                match result {
                    Ok(m) => {
                        &&& m.wf()
                        &&& forall|r2: int, c2: int|
                            in_bounds(r2, c2) ==> ((#[trigger] m.entry(r2, c2)) is Some
                                ==> self.cells@.contains(((r2 as usize), (c2 as usize))))
                        &&& forall|k: int|
                            0 <= k < self.cells@.len() ==> (#[trigger] vs[k] != 0 ==> m.entry(
                                self.cells@[k].0 as int,
                                self.cells@[k].1 as int,
                            ) == Some(seq![vs[k]]))
                        &&& forall|k: int|
                            0 <= k < self.cells@.len() ==> (#[trigger] vs[k] == 0 ==> (m.entry(
                                self.cells@[k].0 as int,
                                self.cells@[k].1 as int,
                            ) matches Some(l) && wf_digits(l) && (forall|d: u8|
                                l.contains(d) <==> (is_digit(d) && self.admits(vs, d)))))
                    },
                    Err(_) => true,
                }
            }),
            ({
                let vs = values_at(self.cells@, grid.cells_view());
                result is Err <==> ((exists|k: int|
                    0 <= k < self.cells@.len() && #[trigger] vs[k] == 0) && (forall|d: u8|
                    is_digit(d) ==> !self.admits(vs, d)))
            }),
    {
        let vals = grid_values(&self.cells, grid);
        let n = self.cells.len();
        let digits = crate::digits::all_possibilities();
        let combos = crate::combos::combinations_u8(&digits, n);
        proof {
            assert forall|t: int| 0 <= t < combos@.len() implies wf_digits(
                (#[trigger] combos@[t])@,
            ) by {
                assert forall|j: int| 0 <= j < combos@[t]@.len() implies is_digit(
                    #[trigger] combos@[t]@[j],
                ) by {
                    assert(digits@.contains(combos@[t]@[j]));
                }
            }
        }
        let mut allowed: Vec<u8> = Vec::new();
        let mut d: u8 = 1;
        while d <= 9
            invariant
                1 <= d <= 10,
                self.wf(),
                n == self.cells@.len(),
                vals@.len() == n,
                forall|t: int| 0 <= t < combos@.len() ==> (#[trigger] combos@[t])@.len() == n,
                forall|t: int| 0 <= t < combos@.len() ==> wf_digits((#[trigger] combos@[t])@),
                forall|s: Seq<u8>|
                    s.len() == n && wf_digits(s) ==> exists|t: int|
                        0 <= t < combos@.len() && (#[trigger] combos@[t])@ == s,
                n <= 81,
                forall|i2: int, j2: int|
                    0 <= i2 < j2 < allowed@.len() ==> allowed@[i2] < allowed@[j2],
                forall|i2: int| 0 <= i2 < allowed@.len() ==> 1 <= #[trigger] allowed@[i2] < d,
                forall|x: u8|
                    allowed@.contains(x) <==> (1 <= x < d && self.admits(vals@, x)),
            decreases 10 - d,
        {
            let ghost prev = allowed@;
            let here = !contains_digit(&vals, d) && nabner_sets_with(&combos, &vals, d);
            proof {
                assert(here == self.admits(vals@, d));
            }
            if here {
                allowed.push(d);
            }
            proof {
                crate::digits::lemma_push_contains(prev, d);
                assert forall|x: u8| allowed@.contains(x) implies (1 <= x < d + 1 && self.admits(
                    vals@,
                    x,
                )) by {
                    if !prev.contains(x) {
                        assert(allowed@ == prev.push(x));
                    }
                }
                assert forall|x: u8| (1 <= x < d + 1 && self.admits(vals@, x)) implies allowed@
                    .contains(x) by {
                    if x == d {
                        assert(here);
                        assert(prev.push(d).contains(d));
                    } else {
                        assert(prev.contains(x));
                        if allowed@ != prev {
                            assert(prev.push(d).contains(x));
                        }
                    }
                }
            }
            d += 1;
        }
        let zeros = zeros_of(&vals);
        proof {
            crate::variant::quadruple::lemma_count_zeros_names_empty(vals@);
            assert(vals@ == values_at(self.cells@, grid.cells_view()));
        }
        if zeros > 0 && allowed.len() == 0 {
            proof {
                assert forall|x: u8| is_digit(x) implies !self.admits(vals@, x) by {
                    if self.admits(vals@, x) {
                        assert(allowed@.contains(x));
                    }
                }
            }
            return Err(VariantContradiction::NoPossibilities {
                cell: self.cells[0],
                variant: "Nabner",
                reason: "no spread-out digit set covers the placed digits".to_owned(),
            });
        }
        proof {
            if zeros == 0 {
                assert(forall|k: int| 0 <= k < vals@.len() ==> #[trigger] vals@[k] != 0);
            } else {
                let x0 = allowed@[0];
                assert(allowed@.contains(x0));
            }
        }
        Ok(fill_map_uniform(&self.cells, &vals, allowed))
    }
}

/// Whether every pair of filled entries lies at least two apart, computed.
fn spread_ok_exec(vals: &Vec<u8>) -> (b: bool)
    ensures
        b == spread_ok(vals@),
{
    let n = vals.len();
    let mut i: usize = 0;
    while i < n
        invariant
            0 <= i <= n,
            n == vals@.len(),
            forall|k: int, j: int|
                0 <= k < j < i && #[trigger] vals@[k] != 0 && #[trigger] vals@[j] != 0 ==> (
                vals@[k] + 2 <= vals@[j] || vals@[j] + 2 <= vals@[k]),
        decreases n - i,
    {
        let v = vals[i];
        if v != 0 {
            let mut j: usize = 0;
            while j < i
                invariant
                    0 <= j <= i,
                    i < n,
                    n == vals@.len(),
                    v == vals@[i as int],
                    v != 0,
                    forall|k: int|
                        0 <= k < j && #[trigger] vals@[k] != 0 ==> (vals@[k] + 2 <= vals@[i as int]
                            || vals@[i as int] + 2 <= vals@[k]),
                decreases i - j,
            {
                let u = vals[j];
                if u != 0 {
                    let big = if u > v {
                        u - v
                    } else {
                        v - u
                    };
                    if big < 2 {
                        return false;
                    }
                }
                j += 1;
            }
        }
        i += 1;
    }
    true
}

/// Whether some listed digit set covers every placed value, has no two
/// consecutive digits, and contains `d`.
fn nabner_sets_with(combos: &Vec<Vec<u8>>, vals: &Vec<u8>, d: u8) -> (b: bool)
    requires
        vals@.len() <= 81,
        forall|t: int| 0 <= t < combos@.len() ==> (#[trigger] combos@[t])@.len() == vals@.len(),
        forall|t: int| 0 <= t < combos@.len() ==> wf_digits((#[trigger] combos@[t])@),
        forall|s: Seq<u8>|
            s.len() == vals@.len() && wf_digits(s) ==> exists|t: int|
                0 <= t < combos@.len() && (#[trigger] combos@[t])@ == s,
    ensures
        b == exists|s: Seq<u8>| #[trigger] cover_with(vals@, d, s),
{
    let n = combos.len();
    let mut t: usize = 0;
    let mut found = false;
    while t < n && !found
        invariant
            0 <= t <= n,
            n == combos@.len(),
            vals@.len() <= 81,
            forall|t2: int| 0 <= t2 < n ==> (#[trigger] combos@[t2])@.len() == vals@.len(),
            forall|t2: int| 0 <= t2 < n ==> wf_digits((#[trigger] combos@[t2])@),
            found ==> exists|s: Seq<u8>| #[trigger] cover_with(vals@, d, s),
            !found ==> forall|t2: int| 0 <= t2 < t ==> !cover_with(vals@, d, (#[trigger] combos@[t2])@),
        decreases n - t,
    {
        let combo = &combos[t];
        if contains_digit(combo, d) && spread_ok_exec(combo) {
            // Every placed value must belong to the set.
            let mut covered = true;
            let mut k: usize = 0;
            while k < vals.len()
                invariant
                    0 <= k <= vals@.len(),
                    covered <==> (forall|k2: int|
                        0 <= k2 < k && #[trigger] vals@[k2] != 0 ==> combo@.contains(vals@[k2])),
                decreases vals@.len() - k,
            {
                let v = vals[k];
                if v != 0 && !contains_digit(combo, v) {
                    covered = false;
                }
                k += 1;
            }
            if covered {
                found = true;
                proof {
                    assert(cover_with(vals@, d, combo@));
                }
            } else {
                proof {
                    assert(!cover_with(vals@, d, combo@));
                }
            }
        } else {
            proof {
                assert(!cover_with(vals@, d, combo@));
            }
        }
        t += 1;
    }
    proof {
        if !found {
            assert forall|s: Seq<u8>| !cover_with(vals@, d, s) by {
                if cover_with(vals@, d, s) {
                    let t2 = choose|t2: int| 0 <= t2 < combos@.len() && (#[trigger] combos@[t2])@ == s;
                    assert(!cover_with(vals@, d, combos@[t2]@));
                }
            }
        }
    }
    found
}

/// How many entries of the list are zero, computed.
fn zeros_of(v: &Vec<u8>) -> (z: usize)
    ensures
        z == count_zeros(v@),
        z <= v@.len(),
{
    let mut z: usize = 0;
    let mut j: usize = 0;
    while j < v.len()
        invariant
            0 <= j <= v@.len(),
            z == count_zeros(v@.subrange(0, j as int)),
            z <= j,
        decreases v@.len() - j,
    {
        proof {
            assert(v@.subrange(0, j + 1).drop_last() =~= v@.subrange(0, j as int));
            assert(v@.subrange(0, j + 1).last() == v@[j as int]);
        }
        if v[j] == 0 {
            z += 1;
        }
        j += 1;
    }
    proof {
        assert(v@.subrange(0, v@.len() as int) =~= v@);
    }
    z
}

} // verus!
