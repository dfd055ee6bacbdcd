use vstd::prelude::*;

use crate::digits::range_digits;
use crate::errors::VariantContradiction;
use crate::grid::SudokuGrid;
use crate::possmap::{in_bounds, PossibilityMap};
use crate::variant::util::{
    contains_pos, copy_positions, first_filled_from, grid_values, index_in, last_filled_before,
    pos_list_distinct, pos_list_wf, position_of, values_at,
};

verus! {

/// The smallest digit position `i` can hold, from its intrinsic position and
/// the nearest filled cell before it.
#[verifier::opaque]
pub open spec fn thermo_min(vals: Seq<u8>, i: int) -> int {
    let lb = last_filled_before(vals, i);
    if lb == -1 {
        i + 1
    } else {
        vals[lb] + (i - lb)
    }
}

/// The largest digit position `i` can hold, from its intrinsic position and
/// the nearest filled cell after it.
#[verifier::opaque]
pub open spec fn thermo_max(vals: Seq<u8>, i: int) -> int {
    let fa = first_filled_from(vals, i + 1);
    if fa == vals.len() {
        9 - (vals.len() - 1 - i)
    } else {
        vals[fa] - (fa - i)
    }
}

/// The digits `lo..=hi` as an ascending sequence.
#[verifier::opaque]
pub open spec fn digit_range_seq(lo: int, hi: int) -> Seq<u8> {
    Seq::new(
        if hi >= lo {
            (hi - lo + 1) as nat
        } else {
            0
        },
        |k: int| (lo + k) as u8,
    )
}

/// An ordered line of cells whose digits must strictly increase from the bulb.
#[derive(Clone, Debug, PartialEq, Eq)]
pub struct Thermometer {
    pub cells: Vec<(usize, usize)>,
    pub length: usize,
}

impl Thermometer {
    /// In-range, pairwise distinct cells, no more than a grid's worth, and a
    /// consistent length.
    pub open spec fn wf(self) -> bool {
        &&& pos_list_wf(self.cells@)
        &&& pos_list_distinct(self.cells@)
        &&& self.length == self.cells@.len()
        &&& self.cells@.len() <= 81
    }

    /// Whether placing `value` at `(row, col)` respects the strict increase:
    /// the digit must fit the position's intrinsic bounds and sit strictly
    /// between every filled cell before and after it on the line.
    pub open spec fn is_valid_spec(self, g: Seq<u8>, row: usize, col: usize, value: u8) -> bool {
        let cs = self.cells@;
        if !cs.contains((row, col)) {
            true
        } else {
            let idx = index_in(cs, row, col);
            let vs = values_at(cs, g);
            &&& idx + 1 <= value <= 9 - (cs.len() - 1 - idx)
            &&& forall|k: int|
                0 <= k < cs.len() && k != idx && #[trigger] vs[k] != 0 ==> ((k < idx ==> vs[k]
                    < value) && (k > idx ==> vs[k] > value))
        }
    }

    /// All cells are filled and the digits strictly increase along the line.
    pub open spec fn solution_ok(self, g: Seq<u8>) -> bool {
        let vs = values_at(self.cells@, g);
        &&& forall|k: int| 0 <= k < vs.len() ==> #[trigger] vs[k] != 0
        &&& forall|k: int| 0 < k < vs.len() ==> vs[k - 1] < #[trigger] vs[k]
    }

    /// A thermometer along the given cells, bulb first.
    pub fn new(cells: Vec<(usize, usize)>) -> (t: Thermometer)
        requires
            pos_list_wf(cells@),
            pos_list_distinct(cells@),
            cells@.len() <= 81,
        ensures
            t.wf(),
            t.cells@ == cells@,
            t.length == cells@.len(),
    {
        let length = cells.len();
        Thermometer { cells, length }
    }

    /// Whether placing `value` at `(row, col)` leaves the thermometer observably satisfiable.
    pub fn is_valid(&self, grid: &SudokuGrid, row: usize, col: usize, value: u8) -> (b: bool)
        requires
            self.wf(),
            grid.wf(),
            row < 9,
            col < 9,
        ensures
            b == self.is_valid_spec(grid.cells_view(), row, col, value),
    {
        let idx = match position_of(&self.cells, row, col) {
            Some(i) => i,
            None => {
                return true;
            },
        };
        proof {
            assert(self.cells@.contains((row, col)));
        }
        let n = self.cells.len();
        // Intrinsic bounds of the position.
        if (value as usize) < idx + 1 || (value as usize) + (n - 1 - idx) > 9 {
            proof {
                let cs = self.cells@;
                let idxs = index_in(cs, row, col);
                assert(idxs == idx as int);
                if (value as usize) < idx + 1 {
                    assert(!(idxs + 1 <= value));
                } else {
                    assert(!(value <= 9 - (cs.len() - 1 - idxs)));
                }
                assert(!self.is_valid_spec(grid.cells_view(), row, col, value));
            }
            return false;
        }
        let vals = grid_values(&self.cells, grid);
        let mut k: usize = 0;
        while k < n
            invariant
                self.wf(),
                idx < n,
                n == self.cells@.len(),
                self.cells@.contains((row, col)),
                idx as int == index_in(self.cells@, row, col),
                idx + 1 <= value as usize,
                (value as usize) + (n - 1 - idx) <= 9,
                vals@ == values_at(self.cells@, grid.cells_view()),
                vals@.len() == n,
                0 <= k <= n,
                forall|j: int|
                    0 <= j < k && j != idx && #[trigger] vals@[j] != 0 ==> ((j < idx ==> vals@[j]
                        < value) && (j > idx ==> vals@[j] > value)),
            decreases n - k,
        {
            if k != idx {
                let cv = vals[k];
                if cv != 0 {
                    if (k < idx && cv >= value) || (k > idx && cv <= value) {
                        return false;
                    }
                }
            }
            k += 1;
        }
        true
    }

    /// Whether the fully assigned grid satisfies the thermometer.
    #[verifier::rlimit(50)]
    pub fn validate_solution(&self, grid: &SudokuGrid) -> (b: bool)
        requires
            self.wf(),
            grid.wf(),
        ensures
            b == self.solution_ok(grid.cells_view()),
    {
        let vals = grid_values(&self.cells, grid);
        let n = vals.len();
        let mut k: usize = 0;
        while k < n
            invariant
                n == vals@.len(),
                vals@ == values_at(self.cells@, grid.cells_view()),
                0 <= k <= n,
                forall|j: int| 0 <= j < k ==> #[trigger] vals@[j] != 0,
                forall|j: int| 0 < j < k ==> vals@[j - 1] < #[trigger] vals@[j],
            decreases n - k,
        {
            if vals[k] == 0 {
                return false;
            }
            if k > 0 {
                if vals[k - 1] >= vals[k] {
                    return false;
                }
            }
            k += 1;
        }
        true
    }

    /// The cells of the thermometer, bulb first.
    pub fn constrained_cells(&self) -> (r: Vec<(usize, usize)>)
        ensures
            r@ == self.cells@,
    {
        copy_positions(&self.cells)
    }

    /// The digits this thermometer alone admits at each cell: the singleton of
    /// a filled cell's value, and for an empty position the run of digits
    /// between its tightest lower and upper bounds. A contradiction is
    /// reported when some empty position has no digit left.
    #[verifier::rlimit(100)]
    pub fn get_possibilities(&self, grid: &SudokuGrid) -> (result: Result<
        PossibilityMap,
        VariantContradiction,
    >)
        requires
            self.wf(),
            grid.wf(),
        ensures
            ({
                let g = grid.cells_view();
                let cs = self.cells@;
                let vs = values_at(cs, g);
                match result {
                    Ok(m) => {
                        &&& m.wf()
                        &&& forall|r2: int, c2: int|
                            in_bounds(r2, c2) ==> ((#[trigger] m.entry(r2, c2)) is Some
                                <==> cs.contains(((r2 as usize), (c2 as usize))))
                        &&& forall|k: int|
                            0 <= k < cs.len() ==> (#[trigger] vs[k] != 0 ==> m.entry(
                                cs[k].0 as int,
                                cs[k].1 as int,
                            ) == Some(seq![vs[k]]))
                        &&& forall|k: int|
                            0 <= k < cs.len() ==> (#[trigger] vs[k] == 0 ==> 1 <= thermo_min(vs, k)
                                <= thermo_max(vs, k) <= 9 && m.entry(cs[k].0 as int, cs[k].1 as int)
                                == Some(digit_range_seq(thermo_min(vs, k), thermo_max(vs, k))))
                    },
                    Err(_) => exists|k: int|
                        0 <= k < cs.len() && vs[k] == 0 && thermo_min(vs, k) > thermo_max(vs, k),
                }
            }),
    {
        let vals = grid_values(&self.cells, grid);
        let n = self.cells.len();
        let mut m = PossibilityMap::new_blank();
        let mut i: usize = 0;
        while i < n
            invariant
                self.wf(),
                grid.wf(),
                m.wf(),
                n == self.cells@.len(),
                vals@ == values_at(self.cells@, grid.cells_view()),
                vals@.len() == n,
                forall|k2: int| 0 <= k2 < n ==> #[trigger] vals@[k2] <= 9,
                0 <= i <= n,
                forall|r2: int, c2: int|
                    in_bounds(r2, c2) ==> ((#[trigger] m.entry(r2, c2)) is Some <==> exists|k2: int|
                        0 <= k2 < i && self.cells@[k2] == ((r2 as usize), (c2 as usize))),
                forall|k2: int|
                    0 <= k2 < i ==> (#[trigger] vals@[k2] != 0 ==> m.entry(
                        self.cells@[k2].0 as int,
                        self.cells@[k2].1 as int,
                    ) == Some(seq![vals@[k2]])),
                forall|k2: int|
                    0 <= k2 < i ==> (#[trigger] vals@[k2] == 0 ==> 1 <= thermo_min(vals@, k2)
                        <= thermo_max(vals@, k2) <= 9 && m.entry(
                        self.cells@[k2].0 as int,
                        self.cells@[k2].1 as int,
                    ) == Some(digit_range_seq(thermo_min(vals@, k2), thermo_max(vals@, k2)))),
            decreases n - i,
        {
            assert(crate::variant::util::pos_wf(self.cells@[i as int]));
            let p = self.cells[i];
            let v = vals[i];
            if v != 0 {
                let mut s: Vec<u8> = Vec::new();
                s.push(v);
                proof {
                    assert(s@ =~= seq![vals@[i as int]]);
                    assert(crate::digits::is_digit(v));
                }
                m.set_list(p.0, p.1, s);
            } else {
                match empty_cell_range(&vals, i, n) {
                    Some(range) => {
                        m.set_list(p.0, p.1, range);
                    },
                    None => {
                        return Err(VariantContradiction::NoPossibilities {
                            cell: p,
                            variant: "Thermometer",
                            reason: "no digit fits between the line's bounds here".to_owned(),
                        });
                    },
                }
            }
            proof {
                assert forall|r2: int, c2: int|
                    in_bounds(r2, c2) implies ((#[trigger] m.entry(r2, c2)) is Some <==> exists|
                    k2: int,
                |
                    0 <= k2 < i + 1 && self.cells@[k2] == ((r2 as usize), (c2 as usize))) by {
                    if (r2, c2) == (p.0 as int, p.1 as int) {
                        assert(self.cells@[i as int] == ((r2 as usize), (c2 as usize)));
                    }
                }
                assert forall|k2: int|
                    0 <= k2 < i + 1 implies (#[trigger] vals@[k2] != 0 ==> m.entry(
                    self.cells@[k2].0 as int,
                    self.cells@[k2].1 as int,
                ) == Some(seq![vals@[k2]])) by {
                    if k2 < i {
                        assert(self.cells@[k2] != self.cells@[i as int]);
                    }
                }
                assert forall|k2: int|
                    0 <= k2 < i + 1 implies (#[trigger] vals@[k2] == 0 ==> 1 <= thermo_min(
                    vals@,
                    k2,
                ) <= thermo_max(vals@, k2) <= 9 && m.entry(
                    self.cells@[k2].0 as int,
                    self.cells@[k2].1 as int,
                ) == Some(digit_range_seq(thermo_min(vals@, k2), thermo_max(vals@, k2)))) by {
                    if k2 < i {
                        assert(self.cells@[k2] != self.cells@[i as int]);
                    }
                }
            }
            i += 1;
        }
        proof {
            assert forall|r2: int, c2: int|
                in_bounds(r2, c2) implies ((#[trigger] m.entry(r2, c2)) is Some
                <==> self.cells@.contains(((r2 as usize), (c2 as usize)))) by {
                if self.cells@.contains(((r2 as usize), (c2 as usize))) {
                    let k2 = choose|k2: int|
                        0 <= k2 < self.cells@.len() && self.cells@[k2] == ((r2 as usize), (
                        c2 as usize));
                    assert(0 <= k2 < n && self.cells@[k2] == ((r2 as usize), (c2 as usize)));
                }
            }
        }
        Ok(m)
    }
}

/// The run of digits an empty thermometer position may hold, or nothing when
/// the bounds cross.
fn empty_cell_range(vals: &Vec<u8>, i: usize, n: usize) -> (o: Option<Vec<u8>>)
    requires
        vals@.len() == n,
        n <= 81,
        i < n,
        forall|k: int| 0 <= k < n ==> #[trigger] vals@[k] <= 9,
        vals@[i as int] == 0,
    ensures
        match o {
            Some(l) => crate::digits::wf_digits(l@) && 1 <= thermo_min(vals@, i as int)
                <= thermo_max(vals@, i as int) <= 9 && l@ == digit_range_seq(
                thermo_min(vals@, i as int),
                thermo_max(vals@, i as int),
            ),
            None => thermo_min(vals@, i as int) > thermo_max(vals@, i as int),
        },
{
                // Nearest filled cell before i, if any.
                let mut lb_found = false;
                let mut lb: usize = 0;
                let mut j: usize = i;
                while j > 0 && !lb_found
                    invariant
                        0 <= j <= i,
                        i < n,
                        n == vals@.len(),
                        lb_found ==> lb < i && last_filled_before(vals@, i as int) == lb as int,
                        !lb_found ==> last_filled_before(vals@, i as int) == last_filled_before(
                            vals@,
                            j as int,
                        ),
                    decreases j,
                {
                    if vals[j - 1] != 0 {
                        lb_found = true;
                        lb = j - 1;
                        proof {
                            assert(last_filled_before(vals@, j as int) == j - 1);
                        }
                        j -= 1;
                    } else {
                        proof {
                            assert(last_filled_before(vals@, j as int) == last_filled_before(
                                vals@,
                                j - 1,
                            ));
                        }
                        j -= 1;
                    }
                }
                proof {
                    if !lb_found {
                        assert(j == 0);
                        assert(last_filled_before(vals@, 0) == -1);
                        assert(last_filled_before(vals@, i as int) == -1);
                    }
                }
                // Nearest filled cell after i, if any.
                let mut fa_found = false;
                let mut fa: usize = 0;
                let mut j2: usize = i + 1;
                while j2 < n && !fa_found
                    invariant
                        i + 1 <= j2 <= n,
                        i < n,
                        n == vals@.len(),
                        fa_found ==> i < fa < n && first_filled_from(vals@, i + 1) == fa as int,
                        !fa_found ==> first_filled_from(vals@, i + 1) == first_filled_from(
                            vals@,
                            j2 as int,
                        ),
                    decreases n - j2,
                {
                    if vals[j2] != 0 {
                        fa_found = true;
                        fa = j2;
                        proof {
                            assert(first_filled_from(vals@, j2 as int) == j2 as int);
                        }
                        j2 += 1;
                    } else {
                        proof {
                            assert(first_filled_from(vals@, j2 as int) == first_filled_from(
                                vals@,
                                j2 + 1,
                            ));
                        }
                        j2 += 1;
                    }
                }
                proof {
                    if !fa_found {
                        assert(j2 == n);
                        assert(first_filled_from(vals@, n as int) == n as int);
                        assert(first_filled_from(vals@, i + 1) == n as int);
                    }
                }
                let min_val: i64 = if !lb_found {
                    (i as i64) + 1
                } else {
                    (vals[lb] as i64) + ((i - lb) as i64)
                };
                let max_val: i64 = if !fa_found {
                    9 - ((n - 1 - i) as i64)
                } else {
                    (vals[fa] as i64) - ((fa - i) as i64)
                };
                proof {
                    reveal(thermo_min);
                    reveal(thermo_max);
                    assert(min_val == thermo_min(vals@, i as int));
                    assert(max_val == thermo_max(vals@, i as int));
                }
                if min_val > max_val {
                    return None;
                }
                proof {
                    assert(min_val >= 1);
                    assert(max_val <= 9);
                }
                let lo = min_val as u8;
                let hi = max_val as u8;
                let range = range_digits(lo, hi);
                proof {
                    reveal(digit_range_seq);
                    assert(range@ =~= digit_range_seq(
                        thermo_min(vals@, i as int),
                        thermo_max(vals@, i as int),
                    ));
                }
                Some(range)
}

} // verus!
