use vstd::prelude::*;

use crate::digits::{contains_digit, is_digit, wf_digits};
use crate::errors::VariantContradiction;
use crate::grid::SudokuGrid;
use crate::possmap::{in_bounds, PossibilityMap};
use crate::variant::quadruple::count_zeros;
use crate::variant::util::{
    contains_pos, copy_positions, fill_map_uniform, grid_values, pos_list_distinct, pos_list_wf,
    values_at,
};

verus! {

/// The smallest nonzero entry, or 10 when every entry is zero.
pub open spec fn min_nonzero(s: Seq<u8>) -> int
    decreases s.len(),
{
    if s.len() == 0 {
        10
    } else {
        let m = min_nonzero(s.drop_last());
        if s.last() != 0 && s.last() < m {
            s.last() as int
        } else {
            m
        }
    }
}

/// The largest nonzero entry, or 0 when every entry is zero.
pub open spec fn max_nonzero(s: Seq<u8>) -> int
    decreases s.len(),
{
    if s.len() == 0 {
        0
    } else {
        let m = max_nonzero(s.drop_last());
        if s.last() != 0 && s.last() > m {
            s.last() as int
        } else {
            m
        }
    }
}

/// A line whose digits must form a run of consecutive, pairwise distinct
/// digits, in any order.
#[derive(Clone, Debug, PartialEq, Eq)]
pub struct Renban {
    pub cells: Vec<(usize, usize)>,
}

impl Renban {
    /// In-range, pairwise distinct cells.
    pub open spec fn wf(self) -> bool {
        &&& pos_list_wf(self.cells@)
        &&& pos_list_distinct(self.cells@)
        &&& 1 <= self.cells@.len() <= 81
    }

    /// The line values with `value` written at `(row, col)`.
    pub open spec fn subst_values(self, g: Seq<u8>, row: usize, col: usize, value: u8) -> Seq<u8> {
        Seq::new(
            self.cells@.len() as nat,
            |k: int|
                if self.cells@[k] == (row, col) {
                    value
                } else {
                    values_at(self.cells@, g)[k]
                },
        )
    }

    /// Whether another line cell already holds `value`.
    pub open spec fn value_elsewhere(self, g: Seq<u8>, row: usize, col: usize, value: u8) -> bool {
        exists|k: int|
            0 <= k < self.cells@.len() && #[trigger] self.cells@[k] != (row, col) && values_at(
                self.cells@,
                g,
            )[k] == value && values_at(self.cells@, g)[k] != 0
    }

    /// Whether placing `value` at `(row, col)` keeps the run formable: no
    /// repeat, the filled digits must span at most the line's length, and a
    /// window of that length must still cover them.
    pub open spec fn is_valid_spec(self, g: Seq<u8>, row: usize, col: usize, value: u8) -> bool {
        if !self.cells@.contains((row, col)) {
            true
        } else if self.value_elsewhere(g, row, col, value) {
            false
        } else {
            let cur = self.subst_values(g, row, col, value);
            let n = self.cells@.len() as int;
            let others = count_zeros(cur);
            if others == n - 1 {
                // Only the proposed value is filled.
                true
            } else if others == 0 {
                run_ok(cur)
            } else {
                let lo = min_nonzero(cur);
                let hi = max_nonzero(cur);
                &&& hi - lo + 1 <= n
                &&& (if 1 > hi - n + 1 {
                    1int
                } else {
                    hi - n + 1
                }) <= (if 9 - n + 1 < lo {
                    9 - n + 1
                } else {
                    lo
                })
            }
        }
    }

    /// A digit an empty cell of the line may take: it is not already placed,
    /// and some window of consecutive digits of the line's length contains it
    /// together with every placed digit.
    pub open spec fn admits(self, vs: Seq<u8>, d: u8) -> bool {
        &&& !vs.contains(d)
        &&& exists|start: int|
            1 <= start <= 10 - vs.len() && #[trigger] run_window_ok(vs, start, d)
    }

    /// All cells are filled with pairwise distinct digits forming one
    /// consecutive run.
    pub open spec fn solution_ok(self, g: Seq<u8>) -> bool {
        run_ok(values_at(self.cells@, g))
    }

    /// A renban line along the given cells.
    pub fn new(cells: Vec<(usize, usize)>) -> (v: Renban)
        requires
            pos_list_wf(cells@),
            pos_list_distinct(cells@),
            1 <= cells@.len() <= 81,
        ensures
            v.wf(),
            v.cells@ == cells@,
    {
        Renban { cells }
    }

    /// Whether placing `value` at `(row, col)` leaves the line observably satisfiable.
    pub fn is_valid(&self, grid: &SudokuGrid, row: usize, col: usize, value: u8) -> (b: bool)
        requires
            self.wf(),
            grid.wf(),
            row < 9,
            col < 9,
        ensures
            b == self.is_valid_spec(grid.cells_view(), row, col, value),
    {
        if !contains_pos(&self.cells, row, col) {
            return true;
        }
        let (cur, dup) = self.build_subst(grid, row, col, value);
        if dup {
            return false;
        }
        let n = self.cells.len();
        let zeros = zeros_of(&cur);
        if zeros == n - 1 {
            return true;
        }
        if zeros == 0 {
            return run_ok_exec(&cur);
        }
        let (lo, hi) = min_max_nonzero(&cur);
        if hi - lo + 1 > n as i64 {
            return false;
        }
        let left = if 1 > hi - (n as i64) + 1 {
            1
        } else {
            hi - (n as i64) + 1
        };
        let right = if 9 - (n as i64) + 1 < lo {
            9 - (n as i64) + 1
        } else {
            lo
        };
        left <= right
    }

    /// Whether the fully assigned grid satisfies the line.
    pub fn validate_solution(&self, grid: &SudokuGrid) -> (b: bool)
        requires
            self.wf(),
            grid.wf(),
        ensures
            b == self.solution_ok(grid.cells_view()),
    {
        let vals = grid_values(&self.cells, grid);
        run_ok_exec(&vals)
    }

    /// The line's cells.
    pub fn constrained_cells(&self) -> (r: Vec<(usize, usize)>)
        ensures
            r@ == self.cells@,
    {
        copy_positions(&self.cells)
    }

    /// The digits this line alone admits: singletons for filled cells, and
    /// for empty cells the unplaced digits of every window of the line's
    /// length that covers all placed digits. A repeat among the placed
    /// digits, or an empty candidate set for an empty cell, is a
    /// contradiction.
    pub fn get_possibilities(&self, grid: &SudokuGrid) -> (result: Result<
        PossibilityMap,
        VariantContradiction,
    >)
        requires
            self.wf(),
            grid.wf(),
        ensures
            ({
                let vs = values_at(self.cells@, grid.cells_view());
                match result {
                    Ok(m) => {
                        &&& m.wf()
                        &&& forall|r2: int, c2: int|
                            in_bounds(r2, c2) ==> ((#[trigger] m.entry(r2, c2)) is Some
                                ==> self.cells@.contains(((r2 as usize), (c2 as usize))))
                        &&& forall|k: int|
                            0 <= k < self.cells@.len() ==> (#[trigger] vs[k] != 0 ==> m.entry(
                                self.cells@[k].0 as int,
                                self.cells@[k].1 as int,
                            ) == Some(seq![vs[k]]))
                        &&& forall|k: int|
                            0 <= k < self.cells@.len() ==> (#[trigger] vs[k] == 0 ==> (m.entry(
                                self.cells@[k].0 as int,
                                self.cells@[k].1 as int,
                            ) matches Some(l) && wf_digits(l) && (forall|d: u8|
                                l.contains(d) <==> (is_digit(d) && self.admits(vs, d)))))
                    },
                    Err(_) => true,
                }
            }),
            ({
                let vs = values_at(self.cells@, grid.cells_view());
                result is Err <==> ((exists|i: int, j: int|
                    0 <= j < i < self.cells@.len() && #[trigger] vs[i] != 0 && #[trigger] vs[j]
                        == vs[i]) || ((exists|k: int|
                    0 <= k < self.cells@.len() && #[trigger] vs[k] == 0) && (forall|d: u8|
                    is_digit(d) ==> !self.admits(vs, d))))
            }),
    {
        let vals = grid_values(&self.cells, grid);
        let n = self.cells.len();
        // A repeated placed digit can never form a run.
        let mut i: usize = 0;
        while i < n
            invariant
                0 <= i <= n,
                n == vals@.len(),
                vals@ == values_at(self.cells@, grid.cells_view()),
                forall|i2: int, j2: int|
                    0 <= j2 < i2 < i ==> !(#[trigger] vals@[i2] != 0 && #[trigger] vals@[j2]
                        == vals@[i2]),
            decreases n - i,
        {
            if vals[i] != 0 {
                let mut j: usize = 0;
                while j < i
                    invariant
                        0 <= j <= i,
                        i < n,
                        n == vals@.len(),
                        vals@ == values_at(self.cells@, grid.cells_view()),
                        vals@[i as int] != 0,
                        forall|i2: int, j2: int|
                            0 <= j2 < i2 < i ==> !(#[trigger] vals@[i2] != 0 && #[trigger] vals@[j2]
                                == vals@[i2]),
                        forall|j2: int|
                            0 <= j2 < j ==> #[trigger] vals@[j2] != vals@[i as int],
                    decreases i - j,
                {
                    if vals[j] == vals[i] {
                        proof {
                            let vsx = values_at(self.cells@, grid.cells_view());
                            assert(vsx[i as int] != 0 && vsx[j as int] == vsx[i as int]);
                        }
                        return Err(VariantContradiction::Inconsistent {
                            variant: "Renban",
                            reason: "a digit repeats on the line".to_owned(),
                        });
                    }
                    j += 1;
                }
            }
            i += 1;
        }
        let zeros = zeros_of(&vals);
        proof {
            crate::variant::quadruple::lemma_count_zeros_names_empty(vals@);
        }
        // Union of window digits over windows that cover every placed digit.
        let mut allowed: Vec<u8> = Vec::new();
        if n <= 9 {
            let mut d: u8 = 1;
            while d <= 9
                invariant
                    1 <= d <= 10,
                    1 <= n <= 9,
                    self.wf(),
                    n == self.cells@.len(),
                    n == vals@.len(),
                    forall|i2: int, j2: int|
                        0 <= i2 < j2 < allowed@.len() ==> allowed@[i2] < allowed@[j2],
                    forall|i2: int| 0 <= i2 < allowed@.len() ==> 1 <= #[trigger] allowed@[i2] < d,
                    forall|x: u8|
                        allowed@.contains(x) <==> (1 <= x < d && self.admits(vals@, x)),
                decreases 10 - d,
            {
                let ghost prev = allowed@;
                let here = !contains_digit(&vals, d) && window_admits(&vals, n, d);
                proof {
                    assert(here == self.admits(vals@, d));
                }
                if here {
                    allowed.push(d);
                }
                proof {
                    crate::digits::lemma_push_contains(prev, d);
                    assert forall|x: u8| allowed@.contains(x) implies (1 <= x < d + 1
                        && self.admits(vals@, x)) by {
                        if !prev.contains(x) {
                            assert(allowed@ == prev.push(x));
                        }
                    }
                    assert forall|x: u8| (1 <= x < d + 1 && self.admits(vals@, x)) implies allowed@
                        .contains(x) by {
                        if x == d {
                            assert(here);
                            assert(prev.push(d).contains(d));
                        } else {
                            assert(prev.contains(x));
                            if allowed@ != prev {
                                assert(prev.push(d).contains(x));
                            }
                        }
                    }
                }
                d += 1;
            }
        } else {
            proof {
                assert forall|x: u8| !self.admits(vals@, x) by {
                    if self.admits(vals@, x) {
                        let st = choose|st: int|
                            1 <= st <= 10 - vals@.len() && #[trigger] run_window_ok(
                                vals@,
                                st,
                                x,
                            );
                    }
                }
            }
        }
        proof {
            assert(vals@ == values_at(self.cells@, grid.cells_view()));
        }
        if zeros > 0 && allowed.len() == 0 {
            proof {
                assert forall|x: u8| is_digit(x) implies !self.admits(vals@, x) by {
                    if self.admits(vals@, x) {
                        assert(allowed@.contains(x));
                    }
                }
            }
            return Err(VariantContradiction::NoPossibilities {
                cell: self.cells[0],
                variant: "Renban",
                reason: "no consecutive run can cover the placed digits".to_owned(),
            });
        }
        proof {
            if zeros == 0 {
                assert(forall|k: int| 0 <= k < vals@.len() ==> #[trigger] vals@[k] != 0);
            } else {
                let x0 = allowed@[0];
                assert(allowed@.contains(x0));
                assert(is_digit(x0) && self.admits(vals@, x0));
            }
        }
        Ok(fill_map_uniform(&self.cells, &vals, allowed))
    }

    /// Build the substituted value list and report a repeat of `value`.
    fn build_subst(&self, grid: &SudokuGrid, row: usize, col: usize, value: u8) -> (res: (
        Vec<u8>,
        bool,
    ))
        requires
            self.wf(),
            grid.wf(),
            row < 9,
            col < 9,
        ensures
            res.0@ == self.subst_values(grid.cells_view(), row, col, value),
            res.0@.len() == self.cells@.len(),
            res.1 == self.value_elsewhere(grid.cells_view(), row, col, value),
    {
        let vals = grid_values(&self.cells, grid);
        let n = self.cells.len();
        let mut cur: Vec<u8> = Vec::new();
        let mut dup = false;
        let mut k: usize = 0;
        while k < n
            invariant
                self.wf(),
                n == self.cells@.len(),
                vals@ == values_at(self.cells@, grid.cells_view()),
                vals@.len() == n,
                0 <= k <= n,
                cur@.len() == k,
                forall|j: int|
                    0 <= j < k ==> #[trigger] cur@[j] == self.subst_values(
                        grid.cells_view(),
                        row,
                        col,
                        value,
                    )[j],
                dup <==> exists|j: int|
                    0 <= j < k && #[trigger] self.cells@[j] != (row, col) && values_at(
                        self.cells@,
                        grid.cells_view(),
                    )[j] == value && values_at(self.cells@, grid.cells_view())[j] != 0,
            decreases n - k,
        {
            let p = self.cells[k];
            if p.0 == row && p.1 == col {
                cur.push(value);
                proof {
                    assert(self.cells@[k as int] == (row, col));
                }
            } else {
                cur.push(vals[k]);
                proof {
                    assert(self.cells@[k as int] != (row, col));
                }
                if vals[k] == value && vals[k] != 0 {
                    dup = true;
                }
            }
            k += 1;
        }
        proof {
            assert(cur@ =~= self.subst_values(grid.cells_view(), row, col, value));
        }
        (cur, dup)
    }
}

/// The window of consecutive digits `[start, start + vs.len() - 1]` contains
/// `d` and every placed digit of `vs`.
pub open spec fn run_window_ok(vs: Seq<u8>, start: int, d: u8) -> bool {
    &&& start <= d <= start + vs.len() - 1
    &&& forall|k: int|
        0 <= k < vs.len() && #[trigger] vs[k] != 0 ==> start <= vs[k] <= start + vs.len() - 1
}

/// All entries are digits, pairwise distinct, and span exactly the length.
pub open spec fn run_ok(s: Seq<u8>) -> bool {
    &&& forall|k: int| 0 <= k < s.len() ==> is_digit(#[trigger] s[k])
    &&& forall|i: int, j: int| 0 <= i < j < s.len() ==> s[i] != s[j]
    &&& (s.len() > 0 ==> max_nonzero(s) - min_nonzero(s) + 1 == s.len())
}

/// Whether the values form a full consecutive run, computed.
fn run_ok_exec(vals: &Vec<u8>) -> (b: bool)
    requires
        vals@.len() <= 81,
    ensures
        b == run_ok(vals@),
{
    let n = vals.len();
    let mut i: usize = 0;
    while i < n
        invariant
            0 <= i <= n,
            n == vals@.len(),
            forall|k: int| 0 <= k < i ==> is_digit(#[trigger] vals@[k]),
            forall|k: int, j: int| 0 <= k < j < i ==> vals@[k] != vals@[j],
        decreases n - i,
    {
        let v = vals[i];
        if v < 1 || v > 9 {
            return false;
        }
        let mut j: usize = 0;
        while j < i
            invariant
                0 <= j <= i,
                i < n,
                n == vals@.len(),
                v == vals@[i as int],
                forall|k: int| 0 <= k < j ==> vals@[k] != vals@[i as int],
            decreases i - j,
        {
            if vals[j] == v {
                return false;
            }
            j += 1;
        }
        i += 1;
    }
    if n == 0 {
        return true;
    }
    let (lo, hi) = min_max_nonzero(vals);
    hi - lo + 1 == n as i64
}

/// How many entries of the list are zero, computed.
fn zeros_of(v: &Vec<u8>) -> (z: usize)
    ensures
        z == count_zeros(v@),
        z <= v@.len(),
{
    let mut z: usize = 0;
    let mut j: usize = 0;
    while j < v.len()
        invariant
            0 <= j <= v@.len(),
            z == count_zeros(v@.subrange(0, j as int)),
            z <= j,
        decreases v@.len() - j,
    {
        proof {
            assert(v@.subrange(0, j + 1).drop_last() =~= v@.subrange(0, j as int));
            assert(v@.subrange(0, j + 1).last() == v@[j as int]);
        }
        if v[j] == 0 {
            z += 1;
        }
        j += 1;
    }
    proof {
        assert(v@.subrange(0, v@.len() as int) =~= v@);
    }
    z
}

/// The smallest and largest nonzero entries (10 and 0 when all are zero).
fn min_max_nonzero(v: &Vec<u8>) -> (res: (i64, i64))
    ensures
        res.0 == min_nonzero(v@),
        res.1 == max_nonzero(v@),
        0 <= res.0 <= 10,
        0 <= res.1 <= 255,
{
    let mut lo: i64 = 10;
    let mut hi: i64 = 0;
    let mut j: usize = 0;
    while j < v.len()
        invariant
            0 <= j <= v@.len(),
            lo == min_nonzero(v@.subrange(0, j as int)),
            hi == max_nonzero(v@.subrange(0, j as int)),
            0 <= hi <= 255,
            0 <= lo <= 10,
        decreases v@.len() - j,
    {
        proof {
            assert(v@.subrange(0, j + 1).drop_last() =~= v@.subrange(0, j as int));
            assert(v@.subrange(0, j + 1).last() == v@[j as int]);
        }
        let x = v[j];
        if x != 0 && (x as i64) < lo {
            lo = x as i64;
        }
        if x != 0 && (x as i64) > hi {
            hi = x as i64;
        }
        j += 1;
    }
    proof {
        assert(v@.subrange(0, v@.len() as int) =~= v@);
    }
    (lo, hi)
}

/// Whether some window of length `n` starting at 1..=10-n covers every
/// placed digit and contains `d`.
fn window_admits(vals: &Vec<u8>, n: usize, d: u8) -> (b: bool)
    requires
        1 <= n <= 9,
        vals@.len() == n,
    ensures
        b == exists|start: int| 1 <= start <= 10 - n && #[trigger] run_window_ok(vals@, start, d),
{
    let mut start: u8 = 1;
    let last_start = 10 - (n as u8);
    let mut found = false;
    while start <= last_start && !found
        invariant
            1 <= start <= 11 - n,
            1 <= n <= 9,
            vals@.len() == n,
            last_start == 10 - n,
            found ==> exists|s2: int|
                1 <= s2 <= 10 - n && #[trigger] run_window_ok(vals@, s2, d),
            !found ==> forall|s2: int|
                1 <= s2 < start ==> !(#[trigger] run_window_ok(vals@, s2, d)),
        decreases 11 - start,
    {
        // Does the window [start, start + n - 1] cover the placed digits and d?
        let end = start + (n as u8) - 1;
        if d >= start && d <= end {
            let mut covered = true;
            let mut k: usize = 0;
            while k < vals.len()
                invariant
                    0 <= k <= vals@.len(),
                    vals@.len() == n,
                    end == start + n - 1,
                    covered <==> (forall|k2: int|
                        0 <= k2 < k && #[trigger] vals@[k2] != 0 ==> start <= vals@[k2] <= end),
                decreases vals@.len() - k,
            {
                let v = vals[k];
                if v != 0 && (v < start || v > end) {
                    covered = false;
                }
                k += 1;
            }
            if covered {
                found = true;
                proof {
                    assert(run_window_ok(vals@, start as int, d));
                }
            } else {
                proof {
                    assert(!run_window_ok(vals@, start as int, d));
                }
            }
        } else {
            proof {
                assert(!run_window_ok(vals@, start as int, d));
            }
        }
        start += 1;
    }
    found
}

} // verus!
