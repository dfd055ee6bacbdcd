use vstd::prelude::*;

use crate::digits::{is_digit, wf_digits};
use crate::errors::VariantContradiction;
use crate::grid::SudokuGrid;
use crate::possmap::{in_bounds, PossibilityMap};
use crate::variant::util::{
    copy_positions, fill_map_lists, first_filled_from, grid_values, index_in, pos_list_distinct,
    pos_list_wf, position_of, values_at,
};

verus! {

/// Two whispering digits differ by at least five.
pub open spec fn whisper_rel(a: int, b: int) -> bool {
    a - b >= 5 || b - a >= 5
}

/// A line on which every two adjacent digits differ by at least five,
/// optionally closing back on itself.
#[derive(Clone, Debug, PartialEq, Eq)]
pub struct GermanWhisper {
    pub cells: Vec<(usize, usize)>,
    pub is_circular: bool,
}

impl GermanWhisper {
    /// In-range, pairwise distinct cells.
    pub open spec fn wf(self) -> bool {
        &&& pos_list_wf(self.cells@)
        &&& pos_list_distinct(self.cells@)
        &&& 1 <= self.cells@.len() <= 81
    }

    /// Whether placing `value` at `(row, col)` respects its filled
    /// neighbours on the line (and across the join, if circular).
    pub open spec fn is_valid_spec(self, g: Seq<u8>, row: usize, col: usize, value: u8) -> bool {
        let cs = self.cells@;
        if !cs.contains((row, col)) {
            true
        } else {
            let idx = index_in(cs, row, col);
            let vs = values_at(cs, g);
            let last = cs.len() - 1;
            &&& (idx < last ==> (vs[idx + 1] != 0 ==> whisper_rel(value as int, vs[idx + 1] as int)))
            &&& (idx > 0 ==> (vs[idx - 1] != 0 ==> whisper_rel(value as int, vs[idx - 1] as int)))
            &&& (self.is_circular && (idx == 0 || idx == last) ==> {
                let other = if idx == 0 {
                    vs[last]
                } else {
                    vs[0]
                };
                other != 0 ==> whisper_rel(value as int, other as int)
            })
        }
    }
    /// The digits an empty cell at position `k` on the line may take: not
    /// five, in the band that its parity class demands once any cell on the
    /// line is filled, and whispering with every filled neighbour (and with
    /// the cell across the join, if circular).
    pub open spec fn admits_at(self, vs: Seq<u8>, k: int, d: u8) -> bool {
        let ff = first_filled_from(vs, 0);
        &&& d != 5
        &&& (ff < vs.len() ==> (if ((k % 2 == ff % 2) == (vs[ff] >= 6)) {
            d >= 6
        } else {
            d <= 4
        }))
        &&& (k > 0 && vs[k - 1] != 0 ==> whisper_rel(d as int, vs[k - 1] as int))
        &&& (k + 1 < vs.len() && vs[k + 1] != 0 ==> whisper_rel(d as int, vs[k + 1] as int))
        &&& (self.is_circular && vs.len() > 1 && (k == 0 || k == vs.len() - 1) ==> ({
            let ov = if k == 0 {
                vs[vs.len() - 1]
            } else {
                vs[0]
            };
            ov != 0 ==> whisper_rel(d as int, ov as int)
        }))
    }

    /// On a line of two or more cells every cell is filled, every adjacent
    /// pair differs by at least five, and so does the join if circular.
    pub open spec fn solution_ok(self, g: Seq<u8>) -> bool {
        let vs = values_at(self.cells@, g);
        &&& (vs.len() > 1 ==> forall|k: int| 0 <= k < vs.len() ==> #[trigger] vs[k] != 0)
        &&& forall|k: int|
            0 < k < vs.len() ==> whisper_rel(vs[k - 1] as int, #[trigger] vs[k] as int)
        &&& (self.is_circular && vs.len() > 1 ==> whisper_rel(
            vs[0] as int,
            vs[vs.len() - 1] as int,
        ))
    }

    /// A whisper line along the given cells.
    pub fn new(cells: Vec<(usize, usize)>, is_circular: bool) -> (v: GermanWhisper)
        requires
            pos_list_wf(cells@),
            pos_list_distinct(cells@),
            1 <= cells@.len() <= 81,
        ensures
            v.wf(),
            v.cells@ == cells@,
            v.is_circular == is_circular,
    {
        GermanWhisper { cells, is_circular }
    }

    /// Whether placing `value` at `(row, col)` leaves the line observably satisfiable.
    pub fn is_valid(&self, grid: &SudokuGrid, row: usize, col: usize, value: u8) -> (b: bool)
        requires
            self.wf(),
            grid.wf(),
            row < 9,
            col < 9,
        ensures
            b == self.is_valid_spec(grid.cells_view(), row, col, value),
    {
        let idx = match position_of(&self.cells, row, col) {
            Some(i) => i,
            None => {
                return true;
            },
        };
        proof {
            assert(self.cells@.contains((row, col)));
        }
        let vals = grid_values(&self.cells, grid);
        let n = self.cells.len();
        let max_idx = n - 1;
        if idx < max_idx {
            let next_val = vals[idx + 1];
            if next_val != 0 && !rel_exec(value, next_val) {
                return false;
            }
        }
        if idx > 0 {
            let prev_val = vals[idx - 1];
            if prev_val != 0 && !rel_exec(value, prev_val) {
                return false;
            }
        }
        if self.is_circular && (idx == 0 || idx == max_idx) {
            let other_val = if idx == 0 {
                vals[max_idx]
            } else {
                vals[0]
            };
            if other_val != 0 && !rel_exec(value, other_val) {
                return false;
            }
        }
        true
    }

    /// Whether the fully assigned grid satisfies the line.
    pub fn validate_solution(&self, grid: &SudokuGrid) -> (b: bool)
        requires
            self.wf(),
            grid.wf(),
        ensures
            b == self.solution_ok(grid.cells_view()),
    {
        let vals = grid_values(&self.cells, grid);
        let n = vals.len();
        if n > 1 {
            let mut k: usize = 0;
            while k < n
                invariant
                    0 <= k <= n,
                    n > 1,
                    n == vals@.len(),
                    vals@ == values_at(self.cells@, grid.cells_view()),
                    forall|j: int| 0 <= j < k ==> #[trigger] vals@[j] != 0,
                decreases n - k,
            {
                if vals[k] == 0 {
                    proof {
                        assert(values_at(self.cells@, grid.cells_view())[k as int] == 0);
                    }
                    return false;
                }
                k += 1;
            }
        }
        let mut k2: usize = 1;
        while k2 < n
            invariant
                1 <= k2,
                k2 <= n || k2 == 1,
                n == vals@.len(),
                vals@ == values_at(self.cells@, grid.cells_view()),
                forall|j: int|
                    0 < j < k2 ==> whisper_rel(vals@[j - 1] as int, #[trigger] vals@[j] as int),
            decreases n - k2,
        {
            let a = vals[k2 - 1];
            let bb = vals[k2];
            if !rel_exec(a, bb) {
                return false;
            }
            k2 += 1;
        }
        if self.is_circular && n > 1 {
            let a = vals[0];
            let bb = vals[n - 1];
            if !rel_exec(a, bb) {
                return false;
            }
        }
        true
    }

    /// The line's cells.
    pub fn constrained_cells(&self) -> (r: Vec<(usize, usize)>)
        ensures
            r@ == self.cells@,
    {
        copy_positions(&self.cells)
    }

    /// The digits this line alone admits: singletons for filled cells; an
    /// empty cell draws from the high band 6..=9 or the low band 1..=4 (the
    /// first filled cell fixes which band goes with which position parity),
    /// pruned against its filled neighbours. With nothing filled, both bands
    /// stay open. An empty cell left without digits is a contradiction.
    pub fn get_possibilities(&self, grid: &SudokuGrid) -> (result: Result<
        PossibilityMap,
        VariantContradiction,
    >)
        requires
            self.wf(),
            grid.wf(),
        ensures
            ({
                let vs = values_at(self.cells@, grid.cells_view());
                match result {
                    Ok(m) => {
                        &&& m.wf()
                        &&& forall|r2: int, c2: int|
                            in_bounds(r2, c2) ==> ((#[trigger] m.entry(r2, c2)) is Some
                                ==> self.cells@.contains(((r2 as usize), (c2 as usize))))
                        &&& forall|k: int|
                            0 <= k < self.cells@.len() ==> (#[trigger] vs[k] != 0 ==> m.entry(
                                self.cells@[k].0 as int,
                                self.cells@[k].1 as int,
                            ) == Some(seq![vs[k]]))
                        &&& forall|k: int|
                            0 <= k < self.cells@.len() ==> (#[trigger] vs[k] == 0 ==> (m.entry(
                                self.cells@[k].0 as int,
                                self.cells@[k].1 as int,
                            ) matches Some(l) && wf_digits(l) && (forall|d: u8|
                                l.contains(d) <==> (is_digit(d) && self.admits_at(vs, k, d)))))
                    },
                    Err(_) => true,
                }
            }),
            ({
                let vs = values_at(self.cells@, grid.cells_view());
                result is Err <==> (exists|k: int|
                    0 <= k < self.cells@.len() && #[trigger] vs[k] == 0 && (forall|d: u8|
                        is_digit(d) ==> !self.admits_at(vs, k, d)))
            }),
    {
        let vals = grid_values(&self.cells, grid);
        let n = self.cells.len();
        // The first filled cell fixes the band of each parity class.
        let mut ff: usize = n;
        let mut k: usize = 0;
        while k < n && ff == n
            invariant
                0 <= k <= n,
                n == vals@.len(),
                ff <= n,
                ff == n ==> first_filled_from(vals@, 0) == first_filled_from(vals@, k as int),
                ff < n ==> ff as int == first_filled_from(vals@, 0) && vals@[ff as int] != 0,
            decreases n - k,
        {
            if vals[k] != 0 {
                ff = k;
                proof {
                    assert(first_filled_from(vals@, k as int) == k as int);
                }
            } else {
                proof {
                    assert(first_filled_from(vals@, k as int) == first_filled_from(
                        vals@,
                        k as int + 1,
                    ));
                }
            }
            k += 1;
        }
        proof {
            if ff == n {
                assert(first_filled_from(vals@, n as int) == n as int);
            }
            assert(ff as int == first_filled_from(vals@, 0));
        }
        let mut lists: Vec<Vec<u8>> = Vec::new();
        let mut i: usize = 0;
        let mut dead = false;
        let mut dead_cell: (usize, usize) = (0, 0);
        while i < n
            invariant
                self.wf(),
                0 <= i <= n,
                n == self.cells@.len(),
                vals@.len() == n,
                forall|j: int| 0 <= j < n ==> #[trigger] vals@[j] <= 9,
                ff <= n,
                ff as int == first_filled_from(vals@, 0),
                ff < n ==> vals@[ff as int] != 0,
                lists@.len() == i,
                forall|j: int| 0 <= j < i ==> wf_digits((#[trigger] lists@[j])@),
                forall|j: int|
                    0 <= j < i ==> (#[trigger] vals@[j] == 0 ==> (forall|d: u8|
                        (lists@[j])@.contains(d) <==> (is_digit(d) && self.admits_at(
                            vals@,
                            j,
                            d,
                        )))),
                dead ==> exists|j: int|
                    0 <= j < i && #[trigger] vals@[j] == 0 && (lists@[j])@.len() == 0,
                !dead ==> forall|j: int|
                    0 <= j < i ==> (#[trigger] vals@[j] == 0 ==> (lists@[j])@.len() > 0),
            decreases n - i,
        {
            let v = vals[i];
            if v != 0 {
                let empty_list: Vec<u8> = Vec::new();
                lists.push(empty_list);
            } else {
                // The digits this position may take, in increasing order.
                let mut l: Vec<u8> = Vec::new();
                let mut d: u8 = 1;
                while d <= 9
                    invariant
                        1 <= d <= 10,
                        i < n,
                        self.wf(),
                        n == self.cells@.len(),
                        vals@.len() == n,
                        vals@[i as int] == 0,
                        ff <= n,
                        ff as int == first_filled_from(vals@, 0),
                        ff < n ==> vals@[ff as int] != 0,
                        forall|j: int| 0 <= j < n ==> #[trigger] vals@[j] <= 9,
                        forall|i2: int, j2: int| 0 <= i2 < j2 < l@.len() ==> l@[i2] < l@[j2],
                        forall|i2: int| 0 <= i2 < l@.len() ==> 1 <= #[trigger] l@[i2] < d,
                        forall|x: u8|
                            l@.contains(x) <==> (1 <= x < d && self.admits_at(vals@, i as int, x)),
                    decreases 10 - d,
                {
                    let ghost prev = l@;
                    let mut admits = d != 5;
                    if ff < n {
                        // Parity fixes the band.
                        let ref_high = vals[ff] >= 6;
                        let here_high = (i % 2 == ff % 2) == ref_high;
                        if here_high {
                            admits = admits && d >= 6;
                        } else {
                            admits = admits && d <= 4;
                        }
                    }
                    // Prune against filled neighbours.
                    if admits && i > 0 {
                        let pv = vals[i - 1];
                        if pv != 0 && !rel_exec(d, pv) {
                            admits = false;
                        }
                    }
                    if admits && i + 1 < n {
                        let nv = vals[i + 1];
                        if nv != 0 && !rel_exec(d, nv) {
                            admits = false;
                        }
                    }
                    if admits && self.is_circular && n > 1 && (i == 0 || i == n - 1) {
                        let ov = if i == 0 {
                            vals[n - 1]
                        } else {
                            vals[0]
                        };
                        if ov != 0 && !rel_exec(d, ov) {
                            admits = false;
                        }
                    }
                    proof {
                        assert(admits == self.admits_at(vals@, i as int, d));
                    }
                    if admits {
                        l.push(d);
                    }
                    proof {
                        crate::digits::lemma_push_contains(prev, d);
                        assert forall|x: u8| l@.contains(x) implies (1 <= x < d + 1
                            && self.admits_at(vals@, i as int, x)) by {
                            if !prev.contains(x) {
                                assert(l@ == prev.push(x));
                            }
                        }
                        assert forall|x: u8|
                            (1 <= x < d + 1 && self.admits_at(vals@, i as int, x)) implies l@
                            .contains(x) by {
                            if x == d {
                                assert(admits);
                                assert(l@ == prev.push(d));
                                assert(prev.push(d).contains(d));
                            } else {
                                assert(prev.contains(x));
                                if l@ != prev {
                                    assert(l@ == prev.push(d));
                                    assert(prev.push(d).contains(x));
                                }
                            }
                        }
                    }
                    d += 1;
                }
                if l.len() == 0 {
                    dead = true;
                    dead_cell = self.cells[i];
                }
                lists.push(l);
            }
            i += 1;
        }
        proof {
            assert(vals@ == values_at(self.cells@, grid.cells_view()));
        }
        if dead {
            proof {
                let j = choose|j: int|
                    0 <= j < n && #[trigger] vals@[j] == 0 && (lists@[j])@.len() == 0;
                assert forall|d: u8| is_digit(d) implies !self.admits_at(vals@, j, d) by {
                    if self.admits_at(vals@, j, d) {
                        assert((lists@[j])@.contains(d));
                    }
                }
            }
            return Err(VariantContradiction::NoPossibilities {
                cell: dead_cell,
                variant: "GermanWhisper",
                reason: "no digit whispers with the filled neighbours".to_owned(),
            });
        }
        proof {
            assert forall|k2: int| 0 <= k2 < n && #[trigger] vals@[k2] == 0 implies (exists|d: u8|
                is_digit(d) && self.admits_at(vals@, k2, d)) by {
                assert((lists@[k2])@.len() > 0);
                let d0 = (lists@[k2])@[0];
                assert((lists@[k2])@.contains(d0));
            }
        }
        Ok(fill_map_lists(&self.cells, &vals, &lists))
    }
}

/// Whether two digits differ by at least five, computed.
fn rel_exec(a: u8, b: u8) -> (r: bool)
    ensures
        r == whisper_rel(a as int, b as int),
{
    if a >= b {
        a - b >= 5
    } else {
        b - a >= 5
    }
}

} // verus!
