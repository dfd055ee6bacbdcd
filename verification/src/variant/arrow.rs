use vstd::prelude::*;

use crate::digits::{is_digit, sum_digits, sum_of, wf_digits};
use crate::errors::VariantContradiction;
use crate::grid::SudokuGrid;
use crate::possmap::{in_bounds, PossibilityMap};
use crate::variant::quadruple::count_zeros;
use crate::variant::util::{
    contains_pos, copy_positions, fill_map_lists, grid_values, pos_list_distinct, pos_list_wf,
    values_at,
};

verus! {

/// An arrow: the digits on the shaft must sum to the digit in the head (the
/// first listed cell). Shaft digits may repeat as far as the arrow itself is
/// concerned.
#[derive(Clone, Debug, PartialEq, Eq)]
pub struct Arrow {
    pub cells: Vec<(usize, usize)>,
}

impl Arrow {
    /// In-range, pairwise distinct cells, head first.
    pub open spec fn wf(self) -> bool {
        &&& pos_list_wf(self.cells@)
        &&& pos_list_distinct(self.cells@)
        &&& 1 <= self.cells@.len() <= 81
    }

    /// The arrow values with `value` written at `(row, col)`.
    pub open spec fn subst_values(self, g: Seq<u8>, row: usize, col: usize, value: u8) -> Seq<u8> {
        Seq::new(
            self.cells@.len() as nat,
            |k: int|
                if self.cells@[k] == (row, col) {
                    value
                } else {
                    values_at(self.cells@, g)[k]
                },
        )
    }

    /// Whether placing `value` at `(row, col)` keeps the arrow observably
    /// satisfiable: the filled shaft digits must not overshoot the head, must
    /// leave at least one unit for each empty shaft cell, and must reach the
    /// head exactly once the shaft fills. An unknown head only caps a fully
    /// filled shaft at nine.
    pub open spec fn is_valid_spec(self, g: Seq<u8>, row: usize, col: usize, value: u8) -> bool {
        if !self.cells@.contains((row, col)) {
            true
        } else {
            let cur = self.subst_values(g, row, col, value);
            let head = cur[0];
            let body = cur.subrange(1, cur.len() as int);
            let known = sum_of(body);
            let unknown = count_zeros(body);
            if head == 0 {
                unknown == 0 ==> known <= 9
            } else {
                &&& known <= head
                &&& known + unknown <= head
                &&& (unknown == 0 ==> known == head)
            }
        }
    }

    /// A digit an empty cell of the arrow may take, by interval reasoning on
    /// the shaft: `known` is the sum of the filled shaft digits, `unknown`
    /// the number of empty shaft cells, and every empty shaft cell needs
    /// between one and nine units.
    pub open spec fn admits_at(self, vs: Seq<u8>, k: int, d: u8) -> bool {
        let known = sum_of(vs.subrange(1, vs.len() as int));
        let unknown = count_zeros(vs.subrange(1, vs.len() as int));
        let rest = if unknown > 0 {
            unknown - 1
        } else {
            0
        };
        if k == 0 {
            known + unknown <= d && d <= known + 9 * unknown
        } else {
            if vs[0] != 0 {
                known + d + rest <= vs[0] && vs[0] <= known + d + 9 * rest
            } else {
                known + d + rest <= 9
            }
        }
    }

    /// The head and shaft are filled and the shaft sums to the head.
    pub open spec fn solution_ok(self, g: Seq<u8>) -> bool {
        let vs = values_at(self.cells@, g);
        &&& self.cells@.len() >= 2
        &&& vs[0] != 0
        &&& forall|k: int| 1 <= k < vs.len() ==> #[trigger] vs[k] != 0
        &&& sum_of(vs.subrange(1, vs.len() as int)) == vs[0]
    }

    /// An arrow along the given cells, head first.
    pub fn new(cells: Vec<(usize, usize)>) -> (a: Arrow)
        requires
            pos_list_wf(cells@),
            pos_list_distinct(cells@),
            1 <= cells@.len() <= 81,
        ensures
            a.wf(),
            a.cells@ == cells@,
    {
        Arrow { cells }
    }

    /// Whether placing `value` at `(row, col)` leaves the arrow observably satisfiable.
    pub fn is_valid(&self, grid: &SudokuGrid, row: usize, col: usize, value: u8) -> (b: bool)
        requires
            self.wf(),
            grid.wf(),
            row < 9,
            col < 9,
        ensures
            b == self.is_valid_spec(grid.cells_view(), row, col, value),
    {
        if !contains_pos(&self.cells, row, col) {
            return true;
        }
        let vals = grid_values(&self.cells, grid);
        let n = self.cells.len();
        let mut cur: Vec<u8> = Vec::new();
        let mut k: usize = 0;
        while k < n
            invariant
                self.wf(),
                n == self.cells@.len(),
                vals@ == values_at(self.cells@, grid.cells_view()),
                vals@.len() == n,
                0 <= k <= n,
                cur@.len() == k,
                forall|j: int|
                    0 <= j < k ==> #[trigger] cur@[j] == self.subst_values(
                        grid.cells_view(),
                        row,
                        col,
                        value,
                    )[j],
            decreases n - k,
        {
            let p = self.cells[k];
            if p.0 == row && p.1 == col {
                cur.push(value);
                proof {
                    assert(self.cells@[k as int] == (row, col));
                }
            } else {
                cur.push(vals[k]);
                proof {
                    assert(self.cells@[k as int] != (row, col));
                }
            }
            k += 1;
        }
        proof {
            assert(cur@ =~= self.subst_values(grid.cells_view(), row, col, value));
        }
        let head = cur[0];
        let mut body: Vec<u8> = Vec::new();
        let mut k2: usize = 1;
        while k2 < n
            invariant
                1 <= k2 <= n,
                n == cur@.len(),
                body@ == cur@.subrange(1, k2 as int),
            decreases n - k2,
        {
            body.push(cur[k2]);
            k2 += 1;
            proof {
                assert(body@ =~= cur@.subrange(1, k2 as int));
            }
        }
        proof {
            assert(body@ =~= cur@.subrange(1, cur@.len() as int));
        }
        let known = sum_digits(&body);
        let unknown = killer_zeros(&body);
        if head == 0 {
            if unknown == 0 {
                known <= 9
            } else {
                true
            }
        } else {
            if known > head as u32 {
                return false;
            }
            if known + unknown as u32 > head as u32 {
                return false;
            }
            if unknown == 0 {
                known == head as u32
            } else {
                true
            }
        }
    }

    /// Whether the fully assigned grid satisfies the arrow.
    pub fn validate_solution(&self, grid: &SudokuGrid) -> (b: bool)
        requires
            self.wf(),
            grid.wf(),
        ensures
            b == self.solution_ok(grid.cells_view()),
    {
        if self.cells.len() < 2 {
            return false;
        }
        let vals = grid_values(&self.cells, grid);
        if vals[0] == 0 {
            return false;
        }
        let n = vals.len();
        let mut body: Vec<u8> = Vec::new();
        let mut k: usize = 1;
        while k < n
            invariant
                1 <= k <= n,
                n == vals@.len(),
                vals@ == values_at(self.cells@, grid.cells_view()),
                body@ == vals@.subrange(1, k as int),
                forall|j: int| 1 <= j < k ==> #[trigger] vals@[j] != 0,
            decreases n - k,
        {
            if vals[k] == 0 {
                proof {
                    assert(values_at(self.cells@, grid.cells_view())[k as int] == 0);
                }
                return false;
            }
            body.push(vals[k]);
            k += 1;
            proof {
                assert(body@ =~= vals@.subrange(1, k as int));
            }
        }
        proof {
            assert(body@ =~= vals@.subrange(1, vals@.len() as int));
        }
        let s = sum_digits(&body);
        s == vals[0] as u32
    }

    /// The arrow's cells, head first.
    pub fn constrained_cells(&self) -> (r: Vec<(usize, usize)>)
        ensures
            r@ == self.cells@,
    {
        copy_positions(&self.cells)
    }

    /// The digits this arrow alone admits: singletons for filled cells; an
    /// empty head takes any digit the filled shaft can still reach, and an
    /// empty shaft cell any digit that leaves the remaining shaft able to
    /// meet the head. An empty cell without digits is a contradiction.
    pub fn get_possibilities(&self, grid: &SudokuGrid) -> (result: Result<
        PossibilityMap,
        VariantContradiction,
    >)
        requires
            self.wf(),
            grid.wf(),
        ensures
            ({
                let vs = values_at(self.cells@, grid.cells_view());
                match result {
                    Ok(m) => {
                        &&& m.wf()
                        &&& forall|r2: int, c2: int|
                            in_bounds(r2, c2) ==> ((#[trigger] m.entry(r2, c2)) is Some
                                ==> self.cells@.contains(((r2 as usize), (c2 as usize))))
                        &&& forall|k: int|
                            0 <= k < self.cells@.len() ==> (#[trigger] vs[k] != 0 ==> m.entry(
                                self.cells@[k].0 as int,
                                self.cells@[k].1 as int,
                            ) == Some(seq![vs[k]]))
                        &&& forall|k: int|
                            0 <= k < self.cells@.len() ==> (#[trigger] vs[k] == 0 ==> (m.entry(
                                self.cells@[k].0 as int,
                                self.cells@[k].1 as int,
                            ) matches Some(l) && wf_digits(l) && (forall|d: u8|
                                l.contains(d) <==> (is_digit(d) && self.admits_at(vs, k, d)))))
                    },
                    Err(_) => true,
                }
            }),
            ({
                let vs = values_at(self.cells@, grid.cells_view());
                result is Err <==> (exists|k: int|
                    0 <= k < self.cells@.len() && #[trigger] vs[k] == 0 && (forall|d: u8|
                        is_digit(d) ==> !self.admits_at(vs, k, d)))
            }),
    {
        let vals = grid_values(&self.cells, grid);
        let n = self.cells.len();
        let head = vals[0];
        // Shaft statistics: sum of filled digits and count of empty cells.
        let mut known: u32 = 0;
        let mut unknown: u32 = 0;
        let mut k: usize = 1;
        proof {
            assert(vals@.subrange(1, 1) =~= Seq::<u8>::empty());
        }
        while k < n
            invariant
                1 <= k <= n,
                n == vals@.len(),
                n <= 81,
                forall|j: int| 0 <= j < n ==> #[trigger] vals@[j] <= 9,
                known == sum_of(vals@.subrange(1, k as int)),
                unknown == count_zeros(vals@.subrange(1, k as int)),
                known <= 9 * k,
                unknown <= k,
            decreases n - k,
        {
            proof {
                assert(vals@.subrange(1, k + 1).drop_last() =~= vals@.subrange(1, k as int));
                assert(vals@.subrange(1, k + 1).last() == vals@[k as int]);
            }
            if vals[k] == 0 {
                unknown += 1;
            } else {
                known += vals[k] as u32;
            }
            k += 1;
        }
        proof {
            assert(vals@.subrange(1, n as int) =~= vals@.subrange(1, vals@.len() as int));
            crate::variant::quadruple::lemma_count_zeros_names_empty(
                vals@.subrange(1, vals@.len() as int),
            );
        }
        // Per-cell candidate lists for the empty cells.
        let mut lists: Vec<Vec<u8>> = Vec::new();
        let mut k2: usize = 0;
        let mut found_dead = false;
        let mut dead_cell: (usize, usize) = (0, 0);
        while k2 < n
            invariant
                self.wf(),
                0 <= k2 <= n,
                n == self.cells@.len(),
                vals@.len() == n,
                forall|j: int| 0 <= j < n ==> #[trigger] vals@[j] <= 9,
                head == vals@[0],
                known == sum_of(vals@.subrange(1, vals@.len() as int)),
                unknown == count_zeros(vals@.subrange(1, vals@.len() as int)),
                known <= 9 * n,
                unknown <= n,
                lists@.len() == k2,
                forall|j: int| 0 <= j < k2 ==> wf_digits((#[trigger] lists@[j])@),
                forall|j: int|
                    0 <= j < k2 ==> (#[trigger] vals@[j] == 0 ==> (forall|d: u8|
                        (lists@[j])@.contains(d) <==> (is_digit(d) && self.admits_at(
                            vals@,
                            j,
                            d,
                        )))),
                found_dead ==> exists|j: int|
                    0 <= j < k2 && #[trigger] vals@[j] == 0 && (lists@[j])@.len() == 0,
                !found_dead ==> forall|j: int|
                    0 <= j < k2 ==> (#[trigger] vals@[j] == 0 ==> (lists@[j])@.len() > 0),
            decreases n - k2,
        {
            let v = vals[k2];
            if v != 0 {
                let empty_list: Vec<u8> = Vec::new();
                lists.push(empty_list);
            } else {
                let mut l: Vec<u8> = Vec::new();
                let mut d: u8 = 1;
                while d <= 9
                    invariant
                        1 <= d <= 10,
                        k2 < n,
                        self.wf(),
                        n == self.cells@.len(),
                        vals@.len() == n,
                        vals@[k2 as int] == 0,
                        head == vals@[0],
                        known == sum_of(vals@.subrange(1, vals@.len() as int)),
                        unknown == count_zeros(vals@.subrange(1, vals@.len() as int)),
                        known <= 9 * n,
                        unknown <= n,
                        n <= 81,
                        forall|i2: int, j2: int| 0 <= i2 < j2 < l@.len() ==> l@[i2] < l@[j2],
                        forall|i2: int| 0 <= i2 < l@.len() ==> 1 <= #[trigger] l@[i2] < d,
                        forall|x: u8|
                            l@.contains(x) <==> (1 <= x < d && self.admits_at(vals@, k2 as int, x)),
                    decreases 10 - d,
                {
                    let ghost prev = l@;
                    let rest: u32 = if unknown > 0 {
                        unknown - 1
                    } else {
                        0
                    };
                    let admits: bool = if k2 == 0 {
                        // An empty head: the shaft must be able to sum to it.
                        known + unknown <= d as u32 && d as u32 <= known + 9 * unknown
                    } else {
                        if head != 0 {
                            // Head known: the other empty shaft cells need
                            // between one and nine units each.
                            known + d as u32 + rest <= head as u32 && head as u32 <= known
                                + d as u32 + 9 * rest
                        } else {
                            // Head unknown: the total must stay reachable.
                            known + d as u32 + rest <= 9
                        }
                    };
                    proof {
                        assert(admits == self.admits_at(vals@, k2 as int, d));
                    }
                    if admits {
                        l.push(d);
                    }
                    proof {
                        crate::digits::lemma_push_contains(prev, d);
                        assert forall|x: u8| l@.contains(x) implies (1 <= x < d + 1
                            && self.admits_at(vals@, k2 as int, x)) by {
                            if !prev.contains(x) {
                                assert(l@ == prev.push(x));
                            }
                        }
                        assert forall|x: u8|
                            (1 <= x < d + 1 && self.admits_at(vals@, k2 as int, x)) implies l@
                            .contains(x) by {
                            if x == d {
                                assert(admits);
                                assert(prev.push(d).contains(d));
                            } else {
                                assert(prev.contains(x));
                                if l@ != prev {
                                    assert(prev.push(d).contains(x));
                                }
                            }
                        }
                    }
                    d += 1;
                }
                if l.len() == 0 {
                    found_dead = true;
                    dead_cell = self.cells[k2];
                    proof {
                        assert(vals@[k2 as int] == 0);
                    }
                }
                lists.push(l);
            }
            k2 += 1;
        }
        proof {
            assert(vals@ == values_at(self.cells@, grid.cells_view()));
        }
        if found_dead {
            proof {
                let j = choose|j: int|
                    0 <= j < n && #[trigger] vals@[j] == 0 && (lists@[j])@.len() == 0;
                assert forall|d: u8| is_digit(d) implies !self.admits_at(vals@, j, d) by {
                    if self.admits_at(vals@, j, d) {
                        assert((lists@[j])@.contains(d));
                    }
                }
            }
            return Err(VariantContradiction::NoPossibilities {
                cell: dead_cell,
                variant: "Arrow",
                reason: "no digit keeps the shaft sum reachable".to_owned(),
            });
        }
        proof {
            assert forall|j2: int| 0 <= j2 < n && #[trigger] vals@[j2] == 0 implies (exists|d: u8|
                is_digit(d) && self.admits_at(vals@, j2, d)) by {
                assert((lists@[j2])@.len() > 0);
                let d0 = (lists@[j2])@[0];
                assert((lists@[j2])@.contains(d0));
            }
        }
        Ok(fill_map_lists(&self.cells, &vals, &lists))
    }
}

/// How many entries of the list are zero, computed.
fn killer_zeros(v: &Vec<u8>) -> (z: usize)
    ensures
        z == count_zeros(v@),
        z <= v@.len(),
{
    let mut z: usize = 0;
    let mut j: usize = 0;
    while j < v.len()
        invariant
            0 <= j <= v@.len(),
            z == count_zeros(v@.subrange(0, j as int)),
            z <= j,
        decreases v@.len() - j,
    {
        proof {
            assert(v@.subrange(0, j + 1).drop_last() =~= v@.subrange(0, j as int));
            assert(v@.subrange(0, j + 1).last() == v@[j as int]);
        }
        if v[j] == 0 {
            z += 1;
        }
        j += 1;
    }
    proof {
        assert(v@.subrange(0, v@.len() as int) =~= v@);
    }
    z
}

} // verus!
