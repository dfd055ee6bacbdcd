use vstd::prelude::*;

use crate::digits::{is_digit, wf_digits};
use crate::errors::VariantContradiction;
use crate::grid::SudokuGrid;
use crate::possmap::{in_bounds, PossibilityMap};
use crate::variant::util::{
    contains_pos, copy_positions, fill_map_lists, grid_values, pos_list_distinct, pos_list_wf,
    values_at,
};

verus! {

/// The box (0..=8) holding a position.
pub open spec fn box_of(p: (usize, usize)) -> int {
    3 * (p.0 as int / 3) + p.1 as int / 3
}

/// The sum of the values among the first `i` line cells that lie in box `b`.
pub open spec fn seg_known_upto(cells: Seq<(usize, usize)>, vs: Seq<u8>, b: int, i: int) -> int
    decreases i,
{
    if i <= 0 {
        0
    } else {
        seg_known_upto(cells, vs, b, i - 1) + if box_of(cells[i - 1]) == b {
            vs[i - 1] as int
        } else {
            0
        }
    }
}

/// How many of the first `i` line cells lie in box `b` and are empty.
pub open spec fn seg_unknown_upto(cells: Seq<(usize, usize)>, vs: Seq<u8>, b: int, i: int) -> int
    decreases i,
{
    if i <= 0 {
        0
    } else {
        seg_unknown_upto(cells, vs, b, i - 1) + if box_of(cells[i - 1]) == b && vs[i - 1] == 0 {
            1int
        } else {
            0int
        }
    }
}

/// How many of the first `i` line cells lie in box `b`.
pub open spec fn seg_count_upto(cells: Seq<(usize, usize)>, b: int, i: int) -> int
    decreases i,
{
    if i <= 0 {
        0
    } else {
        seg_count_upto(cells, b, i - 1) + if box_of(cells[i - 1]) == b {
            1int
        } else {
            0int
        }
    }
}

/// The sum of a whole segment of the line.
pub open spec fn seg_sum(cells: Seq<(usize, usize)>, vs: Seq<u8>, b: int) -> int {
    seg_known_upto(cells, vs, b, cells.len() as int)
}

/// How many cells of a whole segment are empty.
pub open spec fn seg_open(cells: Seq<(usize, usize)>, vs: Seq<u8>, b: int) -> int {
    seg_unknown_upto(cells, vs, b, cells.len() as int)
}

/// How many cells a whole segment has.
pub open spec fn seg_size(cells: Seq<(usize, usize)>, b: int) -> int {
    seg_count_upto(cells, b, cells.len() as int)
}

/// The largest lower bound, over the non-empty segments of the first `b`
/// boxes, of the sums the segment can still reach (every empty cell needs at
/// least one unit).
pub open spec fn seg_lo_upto(cells: Seq<(usize, usize)>, vs: Seq<u8>, b: int) -> int
    decreases b,
{
    if b <= 0 {
        0
    } else {
        let prev = seg_lo_upto(cells, vs, b - 1);
        let bmin = seg_sum(cells, vs, b - 1) + seg_open(cells, vs, b - 1);
        if seg_size(cells, b - 1) > 0 && bmin > prev {
            bmin
        } else {
            prev
        }
    }
}

/// The least upper bound, over the non-empty segments of the first `b`
/// boxes, of the sums the segment can still reach (every empty cell takes at
/// most nine units).
pub open spec fn seg_hi_upto(cells: Seq<(usize, usize)>, vs: Seq<u8>, b: int) -> int
    decreases b,
{
    if b <= 0 {
        1000
    } else {
        let prev = seg_hi_upto(cells, vs, b - 1);
        let bmax = seg_sum(cells, vs, b - 1) + 9 * seg_open(cells, vs, b - 1);
        if seg_size(cells, b - 1) > 0 && bmax < prev {
            bmax
        } else {
            prev
        }
    }
}

/// The interval of sums that every started or full segment of the line can
/// reach.
pub open spec fn seg_lo(cells: Seq<(usize, usize)>, vs: Seq<u8>) -> int {
    seg_lo_upto(cells, vs, 9)
}

/// See `seg_lo`.
pub open spec fn seg_hi(cells: Seq<(usize, usize)>, vs: Seq<u8>) -> int {
    seg_hi_upto(cells, vs, 9)
}

/// A line whose box-bounded segments must all have one and the same sum.
#[derive(Clone, Debug, PartialEq, Eq)]
pub struct RegionSum {
    pub cells: Vec<(usize, usize)>,
}

impl RegionSum {
    /// In-range, pairwise distinct cells.
    pub open spec fn wf(self) -> bool {
        &&& pos_list_wf(self.cells@)
        &&& pos_list_distinct(self.cells@)
        &&& 1 <= self.cells@.len() <= 81
    }

    /// The line values with `value` written at `(row, col)`.
    pub open spec fn subst_values(self, g: Seq<u8>, row: usize, col: usize, value: u8) -> Seq<u8> {
        Seq::new(
            self.cells@.len() as nat,
            |k: int|
                if self.cells@[k] == (row, col) {
                    value
                } else {
                    values_at(self.cells@, g)[k]
                },
        )
    }

    /// Whether placing `value` at `(row, col)` keeps equal segment sums
    /// reachable: a newly completed segment must agree with every other
    /// complete one, and otherwise the achievable-sum intervals of the
    /// placed cell's segment and of every started segment must overlap.
    pub open spec fn is_valid_spec(self, g: Seq<u8>, row: usize, col: usize, value: u8) -> bool {
        let cs = self.cells@;
        if !cs.contains((row, col)) {
            true
        } else {
            let vs = self.subst_values(g, row, col, value);
            let cb = box_of((row, col));
            let cur_open = seg_open(cs, vs, cb);
            let full_other_exists = exists|b: int|
                0 <= b < 9 && b != cb && #[trigger] seg_size(cs, b) > 0 && seg_open(cs, vs, b)
                    == 0;
            if cur_open == 0 && full_other_exists {
                forall|b: int|
                    0 <= b < 9 && b != cb && #[trigger] seg_size(cs, b) > 0 && seg_open(cs, vs, b)
                        == 0 ==> seg_sum(cs, vs, b) == seg_sum(cs, vs, cb)
            } else {
                forall|b: int|
                    0 <= b < 9 && b != cb && #[trigger] seg_known_upto(cs, vs, b, cs.len() as int)
                        != 0 ==> !(seg_sum(cs, vs, cb) + 9 * seg_open(cs, vs, cb) < seg_sum(
                        cs,
                        vs,
                        b,
                    ) + seg_open(cs, vs, b) || seg_sum(cs, vs, cb) + seg_open(cs, vs, cb) > seg_sum(
                        cs,
                        vs,
                        b,
                    ) + 9 * seg_open(cs, vs, b))
            }
        }
    }

    /// A digit an empty cell of the line may take: the reachable-sum
    /// intervals of all started segments must meet, and writing the digit
    /// must leave its own segment's sum inside that meet.
    pub open spec fn admits_at(self, vs: Seq<u8>, k: int, d: u8) -> bool {
        let cs = self.cells@;
        let lo = seg_lo(cs, vs);
        let hi = seg_hi(cs, vs);
        let pb = box_of(cs[k]);
        let bk = seg_sum(cs, vs, pb);
        let bo = seg_open(cs, vs, pb);
        let rest = if bo > 0 {
            bo - 1
        } else {
            0
        };
        &&& lo <= hi
        &&& bk + d + rest <= hi
        &&& lo <= bk + d + 9 * rest
    }

    /// All line cells are filled and every segment has the same sum.
    pub open spec fn solution_ok(self, g: Seq<u8>) -> bool {
        let cs = self.cells@;
        let vs = values_at(cs, g);
        &&& forall|k: int| 0 <= k < vs.len() ==> #[trigger] vs[k] != 0
        &&& forall|b1: int, b2: int|
            0 <= b1 < 9 && 0 <= b2 < 9 && #[trigger] seg_size(cs, b1) > 0 && #[trigger] seg_size(
                cs,
                b2,
            ) > 0 ==> seg_sum(cs, vs, b1) == seg_sum(cs, vs, b2)
    }

    /// A region-sum line along the given cells.
    pub fn new(cells: Vec<(usize, usize)>) -> (v: RegionSum)
        requires
            pos_list_wf(cells@),
            pos_list_distinct(cells@),
            1 <= cells@.len() <= 81,
        ensures
            v.wf(),
            v.cells@ == cells@,
    {
        RegionSum { cells }
    }

    /// Whether placing `value` at `(row, col)` leaves the line observably satisfiable.
    pub fn is_valid(&self, grid: &SudokuGrid, row: usize, col: usize, value: u8) -> (b: bool)
        requires
            self.wf(),
            grid.wf(),
            row < 9,
            col < 9,
        ensures
            b == self.is_valid_spec(grid.cells_view(), row, col, value),
    {
        if !contains_pos(&self.cells, row, col) {
            return true;
        }
        let vals = grid_values(&self.cells, grid);
        let n = self.cells.len();
        let mut vs: Vec<u8> = Vec::new();
        let mut k: usize = 0;
        while k < n
            invariant
                self.wf(),
                n == self.cells@.len(),
                vals@ == values_at(self.cells@, grid.cells_view()),
                vals@.len() == n,
                0 <= k <= n,
                vs@.len() == k,
                forall|j: int|
                    0 <= j < k ==> #[trigger] vs@[j] == self.subst_values(
                        grid.cells_view(),
                        row,
                        col,
                        value,
                    )[j],
            decreases n - k,
        {
            let p = self.cells[k];
            if p.0 == row && p.1 == col {
                vs.push(value);
                proof {
                    assert(self.cells@[k as int] == (row, col));
                }
            } else {
                vs.push(vals[k]);
                proof {
                    assert(self.cells@[k as int] != (row, col));
                }
            }
            k += 1;
        }
        proof {
            assert(vs@ =~= self.subst_values(grid.cells_view(), row, col, value));
        }
        let cb = (row / 3) * 3 + col / 3;
        proof {
            assert(cb as int == box_of((row, col)));
        }
        let (cur_known, cur_open, _cur_size) = seg_stats(&self.cells, &vs, cb);
        let ghost cs = self.cells@;
        let ghost vsv = vs@;
        if cur_open == 0 {
            // Does some other segment stand complete?
            let mut full_other = false;
            let mut b: usize = 0;
            while b < 9
                invariant
                    self.wf(),
                    cs == self.cells@,
                    vsv == vs@,
                    self.cells@.contains((row, col)),
                    vs@ == self.subst_values(grid.cells_view(), row, col, value),
                    cb as int == box_of((row, col)),
                    vs@.len() == self.cells@.len(),
                    forall|j: int| 0 <= j < vs@.len() ==> #[trigger] vs@[j] <= 255,
                    cb < 9,
                    0 <= b <= 9,
                    full_other == exists|b2: int|
                        0 <= b2 < b && b2 != cb && #[trigger] seg_size(cs, b2) > 0 && seg_open(
                            cs,
                            vsv,
                            b2,
                        ) == 0,
                decreases 9 - b,
            {
                let ghost fo_prev = full_other;
                if b != cb {
                    let (_bk, bo, bc) = seg_stats(&self.cells, &vs, b);
                    if bc > 0 && bo == 0 {
                        full_other = true;
                        proof {
                            assert(seg_size(cs, b as int) > 0 && seg_open(cs, vsv, b as int) == 0);
                        }
                    }
                }
                proof {
                    assert forall|b2: int|
                        0 <= b2 < b + 1 && b2 != cb && #[trigger] seg_size(cs, b2) > 0 && seg_open(
                            cs,
                            vsv,
                            b2,
                        ) == 0 implies full_other by {
                        if b2 < b {
                            assert(fo_prev);
                        }
                    }
                    if full_other {
                        if fo_prev {
                            let w = choose|b2: int|
                                0 <= b2 < b && b2 != cb && #[trigger] seg_size(cs, b2) > 0
                                    && seg_open(cs, vsv, b2) == 0;
                            assert(0 <= w < b + 1 && w != cb && seg_size(cs, w) > 0 && seg_open(
                                cs,
                                vsv,
                                w,
                            ) == 0);
                        }
                    }
                }
                b += 1;
            }
            if full_other {
                // Every complete segment must share the placed segment's sum.
                let mut b2: usize = 0;
                while b2 < 9
                    invariant
                        self.wf(),
                        cs == self.cells@,
                        vsv == vs@,
                        self.cells@.contains((row, col)),
                        vs@ == self.subst_values(grid.cells_view(), row, col, value),
                        cb as int == box_of((row, col)),
                        vs@.len() == self.cells@.len(),
                        forall|j: int| 0 <= j < vs@.len() ==> #[trigger] vs@[j] <= 255,
                        cb < 9,
                        cur_known == seg_sum(cs, vsv, cb as int),
                        seg_open(cs, vsv, cb as int) == 0,
                        exists|b3: int|
                            0 <= b3 < 9 && b3 != cb && #[trigger] seg_size(cs, b3) > 0 && seg_open(
                                cs,
                                vsv,
                                b3,
                            ) == 0,
                        0 <= b2 <= 9,
                        forall|b3: int|
                            0 <= b3 < b2 && b3 != cb && #[trigger] seg_size(cs, b3) > 0
                                && seg_open(cs, vsv, b3) == 0 ==> seg_sum(cs, vsv, b3) == seg_sum(
                                cs,
                                vsv,
                                cb as int,
                            ),
                    decreases 9 - b2,
                {
                    if b2 != cb {
                        let (bk, bo, bc) = seg_stats(&self.cells, &vs, b2);
                        if bc > 0 && bo == 0 && bk != cur_known {
                            proof {
                                assert(seg_size(cs, b2 as int) > 0 && seg_open(cs, vsv, b2 as int)
                                    == 0 && seg_sum(cs, vsv, b2 as int) != seg_sum(
                                    cs,
                                    vsv,
                                    cb as int,
                                ));
                            }
                            return false;
                        }
                    }
                    b2 += 1;
                }
                return true;
            }
        }
        // Interval overlap against every started segment.
        let mut b4: usize = 0;
        while b4 < 9
            invariant
                self.wf(),
                cs == self.cells@,
                vsv == vs@,
                self.cells@.contains((row, col)),
                vs@ == self.subst_values(grid.cells_view(), row, col, value),
                cb as int == box_of((row, col)),
                vs@.len() == self.cells@.len(),
                forall|j: int| 0 <= j < vs@.len() ==> #[trigger] vs@[j] <= 255,
                cb < 9,
                cur_known == seg_sum(cs, vsv, cb as int),
                cur_open == seg_open(cs, vsv, cb as int),
                0 <= cur_known <= 81 * 255,
                0 <= cur_open <= 81,
                !(seg_open(cs, vsv, cb as int) == 0 && (exists|b2: int|
                    0 <= b2 < 9 && b2 != cb && #[trigger] seg_size(cs, b2) > 0 && seg_open(
                        cs,
                        vsv,
                        b2,
                    ) == 0)),
                0 <= b4 <= 9,
                forall|b3: int|
                    0 <= b3 < b4 && b3 != cb && #[trigger] seg_known_upto(
                        cs,
                        vsv,
                        b3,
                        cs.len() as int,
                    ) != 0 ==> !(seg_sum(cs, vsv, cb as int) + 9 * seg_open(cs, vsv, cb as int)
                        < seg_sum(cs, vsv, b3) + seg_open(cs, vsv, b3) || seg_sum(cs, vsv, cb as int)
                        + seg_open(cs, vsv, cb as int) > seg_sum(cs, vsv, b3) + 9 * seg_open(
                        cs,
                        vsv,
                        b3,
                    )),
            decreases 9 - b4,
        {
            if b4 != cb {
                let (bk, bo, _bc) = seg_stats(&self.cells, &vs, b4);
                if bk != 0 {
                    let cur_min = cur_known as u64 + cur_open as u64;
                    let cur_max = cur_known as u64 + 9 * (cur_open as u64);
                    let o_min = bk as u64 + bo as u64;
                    let o_max = bk as u64 + 9 * (bo as u64);
                    if cur_max < o_min || cur_min > o_max {
                        proof {
                            assert(seg_known_upto(cs, vsv, b4 as int, cs.len() as int) != 0);
                        }
                        return false;
                    }
                }
            }
            b4 += 1;
        }
        true
    }

    /// Whether the fully assigned grid satisfies the line.
    pub fn validate_solution(&self, grid: &SudokuGrid) -> (b: bool)
        requires
            self.wf(),
            grid.wf(),
        ensures
            b == self.solution_ok(grid.cells_view()),
    {
        let vals = grid_values(&self.cells, grid);
        let mut k: usize = 0;
        while k < vals.len()
            invariant
                0 <= k <= vals@.len(),
                vals@ == values_at(self.cells@, grid.cells_view()),
                forall|j: int| 0 <= j < k ==> #[trigger] vals@[j] != 0,
            decreases vals@.len() - k,
        {
            if vals[k] == 0 {
                proof {
                    assert(values_at(self.cells@, grid.cells_view())[k as int] == 0);
                }
                return false;
            }
            k += 1;
        }
        // Find a started segment to compare the others against.
        let mut ref_box: usize = 9;
        let mut b: usize = 0;
        while b < 9 && ref_box == 9
            invariant
                self.wf(),
                vals@.len() == self.cells@.len(),
                vals@ == values_at(self.cells@, grid.cells_view()),
                forall|j: int| 0 <= j < vals@.len() ==> #[trigger] vals@[j] <= 255,
                0 <= b <= 9,
                ref_box <= 9,
                ref_box == 9 ==> (forall|b2: int|
                    0 <= b2 < b ==> !(#[trigger] seg_size(self.cells@, b2) > 0)),
                ref_box < 9 ==> seg_size(self.cells@, ref_box as int) > 0,
            decreases 9 - b,
        {
            let (_bk, _bo, bc) = seg_stats(&self.cells, &vals, b);
            if bc > 0 {
                ref_box = b;
            }
            b += 1;
        }
        if ref_box == 9 {
            proof {
                assert forall|b1: int, b2: int|
                    0 <= b1 < 9 && 0 <= b2 < 9 && #[trigger] seg_size(self.cells@, b1) > 0
                        && #[trigger] seg_size(self.cells@, b2) > 0 implies seg_sum(
                    self.cells@,
                    vals@,
                    b1,
                ) == seg_sum(self.cells@, vals@, b2) by {}
            }
            return true;
        }
        let (ref_sum, _ro, _rc) = seg_stats(&self.cells, &vals, ref_box);
        let mut b3: usize = 0;
        while b3 < 9
            invariant
                self.wf(),
                vals@.len() == self.cells@.len(),
                vals@ == values_at(self.cells@, grid.cells_view()),
                forall|j: int| 0 <= j < vals@.len() ==> #[trigger] vals@[j] <= 255,
                ref_box < 9,
                seg_size(self.cells@, ref_box as int) > 0,
                ref_sum == seg_sum(self.cells@, vals@, ref_box as int),
                0 <= b3 <= 9,
                forall|b2: int|
                    0 <= b2 < b3 && #[trigger] seg_size(self.cells@, b2) > 0 ==> seg_sum(
                        self.cells@,
                        vals@,
                        b2,
                    ) == ref_sum,
            decreases 9 - b3,
        {
            let (bk, _bo, bc) = seg_stats(&self.cells, &vals, b3);
            if bc > 0 && bk != ref_sum {
                proof {
                    assert(seg_size(self.cells@, b3 as int) > 0 && seg_sum(
                        self.cells@,
                        vals@,
                        b3 as int,
                    ) != seg_sum(self.cells@, vals@, ref_box as int));
                }
                return false;
            }
            b3 += 1;
        }
        proof {
            assert forall|b1: int, b2: int|
                0 <= b1 < 9 && 0 <= b2 < 9 && #[trigger] seg_size(self.cells@, b1) > 0
                    && #[trigger] seg_size(self.cells@, b2) > 0 implies seg_sum(
                self.cells@,
                vals@,
                b1,
            ) == seg_sum(self.cells@, vals@, b2) by {
                assert(seg_sum(self.cells@, vals@, b1) == ref_sum);
                assert(seg_sum(self.cells@, vals@, b2) == ref_sum);
            }
        }
        true
    }

    /// The line's cells.
    pub fn constrained_cells(&self) -> (r: Vec<(usize, usize)>)
        ensures
            r@ == self.cells@,
    {
        copy_positions(&self.cells)
    }

    /// The digits this line alone admits: singletons for filled cells; an
    /// empty cell draws from the digits that keep its segment's sum inside
    /// the range every started segment can still reach. A cell left without
    /// digits is a contradiction.
    pub fn get_possibilities(&self, grid: &SudokuGrid) -> (result: Result<
        PossibilityMap,
        VariantContradiction,
    >)
        requires
            self.wf(),
            grid.wf(),
        ensures
            ({
                let vs = values_at(self.cells@, grid.cells_view());
                match result {
                    Ok(m) => {
                        &&& m.wf()
                        &&& forall|r2: int, c2: int|
                            in_bounds(r2, c2) ==> ((#[trigger] m.entry(r2, c2)) is Some
                                ==> self.cells@.contains(((r2 as usize), (c2 as usize))))
                        &&& forall|k: int|
                            0 <= k < self.cells@.len() ==> (#[trigger] vs[k] != 0 ==> m.entry(
                                self.cells@[k].0 as int,
                                self.cells@[k].1 as int,
                            ) == Some(seq![vs[k]]))
                        &&& forall|k: int|
                            0 <= k < self.cells@.len() ==> (#[trigger] vs[k] == 0 ==> (m.entry(
                                self.cells@[k].0 as int,
                                self.cells@[k].1 as int,
                            ) matches Some(l) && wf_digits(l) && (forall|d: u8|
                                l.contains(d) <==> (is_digit(d) && self.admits_at(vs, k, d)))))
                    },
                    Err(_) => true,
                }
            }),
            ({
                let vs = values_at(self.cells@, grid.cells_view());
                result is Err <==> (seg_lo(self.cells@, vs) > seg_hi(self.cells@, vs) || (exists|
                    k: int,
                |
                    0 <= k < self.cells@.len() && #[trigger] vs[k] == 0 && (forall|d: u8|
                        is_digit(d) ==> !self.admits_at(vs, k, d))))
            }),
    {
        let vals = grid_values(&self.cells, grid);
        let n = self.cells.len();
        // The interval of sums every started or full segment can reach.
        let mut lo: u64 = 0;
        let mut hi: u64 = 1000;
        let mut b: usize = 0;
        while b < 9
            invariant
                self.wf(),
                vals@.len() == n,
                n == self.cells@.len(),
                forall|j: int| 0 <= j < n ==> #[trigger] vals@[j] <= 9,
                0 <= b <= 9,
                hi <= 1000,
                lo <= 81 * 255 + 81,
                lo == seg_lo_upto(self.cells@, vals@, b as int),
                hi == seg_hi_upto(self.cells@, vals@, b as int),
            decreases 9 - b,
        {
            let (bk, bo, bc) = seg_stats(&self.cells, &vals, b);
            proof {
                assert(seg_lo_upto(self.cells@, vals@, b as int + 1) == (
                if seg_size(self.cells@, b as int) > 0 && seg_sum(self.cells@, vals@, b as int)
                    + seg_open(self.cells@, vals@, b as int) > seg_lo_upto(
                    self.cells@,
                    vals@,
                    b as int,
                ) {
                    seg_sum(self.cells@, vals@, b as int) + seg_open(self.cells@, vals@, b as int)
                } else {
                    seg_lo_upto(self.cells@, vals@, b as int)
                }));
                assert(seg_hi_upto(self.cells@, vals@, b as int + 1) == (
                if seg_size(self.cells@, b as int) > 0 && seg_sum(self.cells@, vals@, b as int) + 9
                    * seg_open(self.cells@, vals@, b as int) < seg_hi_upto(
                    self.cells@,
                    vals@,
                    b as int,
                ) {
                    seg_sum(self.cells@, vals@, b as int) + 9 * seg_open(
                        self.cells@,
                        vals@,
                        b as int,
                    )
                } else {
                    seg_hi_upto(self.cells@, vals@, b as int)
                }));
            }
            if bc > 0 {
                let bmin = bk as u64 + bo as u64;
                let bmax = bk as u64 + 9 * (bo as u64);
                if bmin > lo {
                    lo = bmin;
                }
                if bmax < hi {
                    hi = bmax;
                }
            }
            b += 1;
        }
        proof {
            assert(vals@ == values_at(self.cells@, grid.cells_view()));
        }
        if lo > hi {
            // Name the first empty line cell, or the first cell when all are
            // filled with clashing sums.
            let mut bad = self.cells[0];
            let mut k: usize = 0;
            let mut found = false;
            while k < n
                invariant
                    self.wf(),
                    n == self.cells@.len(),
                    vals@.len() == n,
                    0 <= k <= n,
                decreases n - k,
            {
                proof {
                    assert(crate::variant::util::pos_wf(self.cells@[k as int]));
                }
                if !found && vals[k] == 0 {
                    bad = self.cells[k];
                    found = true;
                }
                k += 1;
            }
            return Err(VariantContradiction::NoPossibilities {
                cell: bad,
                variant: "RegionSum",
                reason: "the segments' reachable sums do not meet".to_owned(),
            });
        }
        // Per-cell candidate lists.
        let mut lists: Vec<Vec<u8>> = Vec::new();
        let mut i: usize = 0;
        let mut dead = false;
        let mut dead_cell: (usize, usize) = (0, 0);
        while i < n
            invariant
                self.wf(),
                0 <= i <= n,
                n == self.cells@.len(),
                vals@.len() == n,
                forall|j: int| 0 <= j < n ==> #[trigger] vals@[j] <= 9,
                lo <= hi,
                hi <= 1000,
                lo == seg_lo(self.cells@, vals@),
                hi == seg_hi(self.cells@, vals@),
                lists@.len() == i,
                forall|j: int| 0 <= j < i ==> wf_digits((#[trigger] lists@[j])@),
                forall|j: int|
                    0 <= j < i ==> (#[trigger] vals@[j] == 0 ==> (forall|d: u8|
                        (lists@[j])@.contains(d) <==> (is_digit(d) && self.admits_at(
                            vals@,
                            j,
                            d,
                        )))),
                dead ==> exists|j: int|
                    0 <= j < i && #[trigger] vals@[j] == 0 && (lists@[j])@.len() == 0,
                !dead ==> forall|j: int|
                    0 <= j < i ==> (#[trigger] vals@[j] == 0 ==> (lists@[j])@.len() > 0),
            decreases n - i,
        {
            let v = vals[i];
            if v != 0 {
                let empty_list: Vec<u8> = Vec::new();
                lists.push(empty_list);
            } else {
                let p = self.cells[i];
                let pb = (p.0 / 3) * 3 + p.1 / 3;
                proof {
                    assert(crate::variant::util::pos_wf(self.cells@[i as int]));
                    assert(pb as int == box_of(self.cells@[i as int]));
                }
                let (bk, bo, _bc) = seg_stats(&self.cells, &vals, pb);
                // This cell is one of the segment's empty cells.
                let mut l: Vec<u8> = Vec::new();
                let mut d: u8 = 1;
                while d <= 9
                    invariant
                        1 <= d <= 10,
                        i < n,
                        self.wf(),
                        n == self.cells@.len(),
                        vals@.len() == n,
                        vals@[i as int] == 0,
                        bo <= 81,
                        bk <= 81 * 255,
                        lo <= hi,
                        hi <= 1000,
                        lo == seg_lo(self.cells@, vals@),
                        hi == seg_hi(self.cells@, vals@),
                        pb as int == box_of(self.cells@[i as int]),
                        bk == seg_sum(self.cells@, vals@, pb as int),
                        bo == seg_open(self.cells@, vals@, pb as int),
                        forall|i2: int, j2: int| 0 <= i2 < j2 < l@.len() ==> l@[i2] < l@[j2],
                        forall|i2: int| 0 <= i2 < l@.len() ==> 1 <= #[trigger] l@[i2] < d,
                        forall|x: u8|
                            l@.contains(x) <==> (1 <= x < d && self.admits_at(vals@, i as int, x)),
                    decreases 10 - d,
                {
                    let ghost prev = l@;
                    // Some reachable total leaves room for this digit here.
                    let rest: u64 = if bo > 0 {
                        (bo - 1) as u64
                    } else {
                        0
                    };
                    let smin = bk as u64 + d as u64 + rest;
                    let smax = bk as u64 + d as u64 + 9 * rest;
                    let admits = smin <= hi && smax >= lo;
                    proof {
                        assert(admits == self.admits_at(vals@, i as int, d));
                    }
                    if admits {
                        l.push(d);
                    }
                    proof {
                        crate::digits::lemma_push_contains(prev, d);
                        assert forall|x: u8| l@.contains(x) implies (1 <= x < d + 1
                            && self.admits_at(vals@, i as int, x)) by {
                            if !prev.contains(x) {
                                assert(l@ == prev.push(x));
                            }
                        }
                        assert forall|x: u8|
                            (1 <= x < d + 1 && self.admits_at(vals@, i as int, x)) implies l@
                            .contains(x) by {
                            if x == d {
                                assert(admits);
                                assert(prev.push(d).contains(d));
                            } else {
                                assert(prev.contains(x));
                                if l@ != prev {
                                    assert(prev.push(d).contains(x));
                                }
                            }
                        }
                    }
                    d += 1;
                }
                if l.len() == 0 {
                    dead = true;
                    dead_cell = p;
                }
                lists.push(l);
            }
            i += 1;
        }
        if dead {
            proof {
                let j = choose|j: int|
                    0 <= j < n && #[trigger] vals@[j] == 0 && (lists@[j])@.len() == 0;
                assert forall|d: u8| is_digit(d) implies !self.admits_at(vals@, j, d) by {
                    if self.admits_at(vals@, j, d) {
                        assert((lists@[j])@.contains(d));
                    }
                }
            }
            return Err(VariantContradiction::NoPossibilities {
                cell: dead_cell,
                variant: "RegionSum",
                reason: "no digit keeps the segment's sum reachable".to_owned(),
            });
        }
        proof {
            assert forall|j2: int| 0 <= j2 < n && #[trigger] vals@[j2] == 0 implies (exists|d: u8|
                is_digit(d) && self.admits_at(vals@, j2, d)) by {
                assert((lists@[j2])@.len() > 0);
                let d0 = (lists@[j2])@[0];
                assert((lists@[j2])@.contains(d0));
            }
        }
        Ok(fill_map_lists(&self.cells, &vals, &lists))
    }
}

/// The sum of the filled values, the number of empty cells, and the number of
/// cells of the line inside box `b`.
fn seg_stats(cells: &Vec<(usize, usize)>, vs: &Vec<u8>, b: usize) -> (res: (u32, usize, usize))
    requires
        pos_list_wf(cells@),
        vs@.len() == cells@.len(),
        cells@.len() <= 81,
        forall|j: int| 0 <= j < vs@.len() ==> #[trigger] vs@[j] <= 255,
    ensures
        res.0 == seg_known_upto(cells@, vs@, b as int, cells@.len() as int),
        res.1 == seg_unknown_upto(cells@, vs@, b as int, cells@.len() as int),
        res.2 == seg_count_upto(cells@, b as int, cells@.len() as int),
        res.0 <= 81 * 255,
        res.1 <= 81,
        res.2 <= 81,
{
    let n = cells.len();
    let mut known: u32 = 0;
    let mut unknown: usize = 0;
    let mut count: usize = 0;
    let mut i: usize = 0;
    while i < n
        invariant
            pos_list_wf(cells@),
            n == cells@.len(),
            vs@.len() == n,
            n <= 81,
            forall|j: int| 0 <= j < n ==> #[trigger] vs@[j] <= 255,
            0 <= i <= n,
            known == seg_known_upto(cells@, vs@, b as int, i as int),
            unknown == seg_unknown_upto(cells@, vs@, b as int, i as int),
            count == seg_count_upto(cells@, b as int, i as int),
            known <= i * 255,
            unknown <= i,
            count <= i,
        decreases n - i,
    {
        proof {
            assert(crate::variant::util::pos_wf(cells@[i as int]));
        }
        let p = cells[i];
        let pb = (p.0 / 3) * 3 + p.1 / 3;
        proof {
            assert(pb as int == box_of(cells@[i as int]));
        }
        if pb == b {
            count += 1;
            if vs[i] == 0 {
                unknown += 1;
            } else {
                known += vs[i] as u32;
            }
        }
        i += 1;
    }
    (known, unknown, count)
}

} // verus!
