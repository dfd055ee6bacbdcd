use vstd::prelude::*;

use crate::digits::{is_digit, wf_digits};
use crate::errors::VariantContradiction;
use crate::grid::SudokuGrid;
use crate::possmap::{in_bounds, PossibilityMap};
use crate::variant::util::{
    contains_pos, copy_positions, grid_values, pos_list_distinct, pos_list_wf, values_at,
};

verus! {

/// The entropy band of a value: 0 for 1..=3, 1 for 4..=6, 2 for 7..=9, and 3
/// for anything else (in particular for an empty cell).
pub open spec fn band_of(d: u8) -> int {
    if 1 <= d <= 3 {
        0
    } else if 4 <= d <= 6 {
        1
    } else if 7 <= d <= 9 {
        2
    } else {
        3
    }
}

/// The digits of band `b`, ascending.
pub open spec fn band_digits(b: int) -> Seq<u8> {
    if b == 0 {
        seq![1u8, 2u8, 3u8]
    } else if b == 1 {
        seq![4u8, 5u8, 6u8]
    } else if b == 2 {
        seq![7u8, 8u8, 9u8]
    } else {
        Seq::empty()
    }
}

/// Every three consecutive cells must cover the low, middle and high band:
/// on a line of three or more cells, no two filled cells at distance at most
/// two may share a band.
pub open spec fn windows_ok(vs: Seq<u8>) -> bool {
    vs.len() < 3 || forall|k1: int, k2: int|
        0 <= k1 < k2 < vs.len() && k2 <= k1 + 2 && is_digit(#[trigger] vs[k1]) && is_digit(
            #[trigger] vs[k2],
        ) ==> band_of(vs[k1]) != band_of(vs[k2])
}

/// The smallest index `>= i` congruent to `grp` modulo 3 holding a digit, or
/// the length when the residue class is entirely empty.
pub open spec fn group_rep_from(vs: Seq<u8>, grp: int, i: int) -> int
    decreases vs.len() - i,
{
    if i < 0 || i >= vs.len() {
        vs.len() as int
    } else if i % 3 == grp && vs[i] != 0 {
        i
    } else {
        group_rep_from(vs, grp, i + 1)
    }
}

/// The band fixed for residue class `grp`, or 3 when the class has no digit.
pub open spec fn group_band(vs: Seq<u8>, grp: int) -> int {
    let rep = group_rep_from(vs, grp, 0);
    if rep == vs.len() {
        3
    } else {
        band_of(vs[rep])
    }
}

/// Whether some band is fixed by one of the three residue classes.
pub open spec fn band_used(vs: Seq<u8>, b: int) -> bool {
    group_band(vs, 0) == b || group_band(vs, 1) == b || group_band(vs, 2) == b
}

/// A line on which every run of three cells covers the three entropy bands.
#[derive(Clone, Debug, PartialEq, Eq)]
pub struct Entropic {
    pub cells: Vec<(usize, usize)>,
}

impl Entropic {
    /// In-range, pairwise distinct cells.
    pub open spec fn wf(self) -> bool {
        &&& pos_list_wf(self.cells@)
        &&& pos_list_distinct(self.cells@)
        &&& self.cells@.len() <= 81
    }

    /// The line values with `value` written at `(row, col)`.
    pub open spec fn subst_values(self, g: Seq<u8>, row: usize, col: usize, value: u8) -> Seq<u8> {
        Seq::new(
            self.cells@.len() as nat,
            |k: int|
                if self.cells@[k] == (row, col) {
                    value
                } else {
                    values_at(self.cells@, g)[k]
                },
        )
    }

    /// Whether placing `value` at `(row, col)` keeps every window coverable.
    pub open spec fn is_valid_spec(self, g: Seq<u8>, row: usize, col: usize, value: u8) -> bool {
        if !self.cells@.contains((row, col)) {
            true
        } else {
            windows_ok(self.subst_values(g, row, col, value))
        }
    }

    /// All cells are filled and every window covers the three bands.
    pub open spec fn solution_ok(self, g: Seq<u8>) -> bool {
        let vs = values_at(self.cells@, g);
        &&& forall|k: int| 0 <= k < vs.len() ==> #[trigger] vs[k] != 0
        &&& windows_ok(vs)
    }

    /// An entropic line along the given cells.
    pub fn new(cells: Vec<(usize, usize)>) -> (e: Entropic)
        requires
            pos_list_wf(cells@),
            pos_list_distinct(cells@),
            cells@.len() <= 81,
        ensures
            e.wf(),
            e.cells@ == cells@,
    {
        Entropic { cells }
    }

    /// Whether placing `value` at `(row, col)` leaves the line observably satisfiable.
    pub fn is_valid(&self, grid: &SudokuGrid, row: usize, col: usize, value: u8) -> (b: bool)
        requires
            self.wf(),
            grid.wf(),
            row < 9,
            col < 9,
        ensures
            b == self.is_valid_spec(grid.cells_view(), row, col, value),
    {
        if !contains_pos(&self.cells, row, col) {
            return true;
        }
        let vals = grid_values(&self.cells, grid);
        let n = self.cells.len();
        let mut cur: Vec<u8> = Vec::new();
        let mut k: usize = 0;
        while k < n
            invariant
                self.wf(),
                n == self.cells@.len(),
                vals@ == values_at(self.cells@, grid.cells_view()),
                vals@.len() == n,
                0 <= k <= n,
                cur@.len() == k,
                forall|j: int|
                    0 <= j < k ==> #[trigger] cur@[j] == self.subst_values(
                        grid.cells_view(),
                        row,
                        col,
                        value,
                    )[j],
            decreases n - k,
        {
            let p = self.cells[k];
            if p.0 == row && p.1 == col {
                cur.push(value);
                proof {
                    assert(self.cells@[k as int] == (row, col));
                }
            } else {
                cur.push(vals[k]);
                proof {
                    assert(self.cells@[k as int] != (row, col));
                }
            }
            k += 1;
        }
        proof {
            assert(cur@ =~= self.subst_values(grid.cells_view(), row, col, value));
        }
        windows_ok_exec(&cur)
    }

    /// Whether the fully assigned grid satisfies the line.
    pub fn validate_solution(&self, grid: &SudokuGrid) -> (b: bool)
        requires
            self.wf(),
            grid.wf(),
        ensures
            b == self.solution_ok(grid.cells_view()),
    {
        let vals = grid_values(&self.cells, grid);
        let mut k: usize = 0;
        while k < vals.len()
            invariant
                0 <= k <= vals@.len(),
                vals@ == values_at(self.cells@, grid.cells_view()),
                forall|j: int| 0 <= j < k ==> #[trigger] vals@[j] != 0,
            decreases vals@.len() - k,
        {
            if vals[k] == 0 {
                proof {
                    assert(values_at(self.cells@, grid.cells_view())[k as int] == 0);
                }
                return false;
            }
            k += 1;
        }
        windows_ok_exec(&vals)
    }

    /// The cells of the line.
    pub fn constrained_cells(&self) -> (r: Vec<(usize, usize)>)
        ensures
            r@ == self.cells@,
    {
        copy_positions(&self.cells)
    }

    /// The digits this line alone admits at each cell: singletons for filled
    /// cells; an empty cell draws from the band its residue class is fixed
    /// to, or from every band no class has claimed. Two filled cells of one
    /// class in different bands are a contradiction.
    pub fn get_possibilities(&self, grid: &SudokuGrid) -> (result: Result<
        PossibilityMap,
        VariantContradiction,
    >)
        requires
            self.wf(),
            grid.wf(),
        ensures
            ({
                let g = grid.cells_view();
                let cs = self.cells@;
                let vs = values_at(cs, g);
                match result {
                    Ok(m) => {
                        &&& m.wf()
                        &&& forall|r2: int, c2: int|
                            in_bounds(r2, c2) ==> ((#[trigger] m.entry(r2, c2)) is Some
                                <==> cs.contains(((r2 as usize), (c2 as usize))))
                        &&& forall|k: int|
                            0 <= k < cs.len() ==> (#[trigger] vs[k] != 0 ==> m.entry(
                                cs[k].0 as int,
                                cs[k].1 as int,
                            ) == Some(seq![vs[k]]))
                        &&& forall|k: int|
                            0 <= k < cs.len() ==> (#[trigger] vs[k] == 0 ==> (m.entry(
                                cs[k].0 as int,
                                cs[k].1 as int,
                            ) matches Some(l) && wf_digits(l) && (forall|d: u8|
                                l.contains(d) <==> (is_digit(d) && (if group_band(vs, k % 3) != 3 {
                                    band_of(d) == group_band(vs, k % 3)
                                } else {
                                    !band_used(vs, band_of(d))
                                })))))
                    },
                    Err(_) => true,
                }
            }),
            ({
                let vs = values_at(self.cells@, grid.cells_view());
                result is Err <==> exists|i: int, j: int|
                    0 <= i < self.cells@.len() && 0 <= j < self.cells@.len() && i % 3 == j % 3
                        && #[trigger] vs[i] != 0 && #[trigger] vs[j] != 0 && band_of(vs[i])
                        != band_of(vs[j])
            }),
    {
        let vals = grid_values(&self.cells, grid);
        let n = self.cells.len();
        // The band each residue class is fixed to (3 when free).
        let b0 = group_band_exec(&vals, 0);
        let b1 = group_band_exec(&vals, 1);
        let b2 = group_band_exec(&vals, 2);
        // A second digit of a class must agree with its representative.
        let mut k: usize = 0;
        while k < n
            invariant
                self.wf(),
                n == self.cells@.len(),
                vals@ == values_at(self.cells@, grid.cells_view()),
                vals@.len() == n,
                forall|k2: int| 0 <= k2 < n ==> #[trigger] vals@[k2] <= 9,
                b0 == group_band(vals@, 0),
                b1 == group_band(vals@, 1),
                b2 == group_band(vals@, 2),
                0 <= k <= n,
                forall|k2: int|
                    0 <= k2 < k ==> (#[trigger] vals@[k2] != 0 ==> band_of(vals@[k2]) == group_band(
                        vals@,
                        k2 % 3,
                    )),
            decreases n - k,
        {
            let v = vals[k];
            if v != 0 {
                let grp_band = if k % 3 == 0 {
                    b0
                } else if k % 3 == 1 {
                    b1
                } else {
                    b2
                };
                let vb = band_of_exec(v);
                if vb != grp_band {
                    proof {
                        let rep = group_rep_from(vals@, (k % 3) as int, 0);
                        lemma_group_rep(vals@, (k % 3) as int, k as int);
                        assert(vals@[rep] != 0 && rep % 3 == (k % 3) as int && rep % 3 == (
                        k as int) % 3);
                        assert(band_of(vals@[rep]) != band_of(vals@[k as int]));
                    }
                    return Err(VariantContradiction::Inconsistent {
                        variant: "Entropic",
                        reason: "two digits of one residue class fall in different bands".to_owned(
                        ),
                    });
                }
            }
            k += 1;
        }
        proof {
            // Every filled cell agrees with its class representative, so no
            // two filled cells of one class disagree.
            assert forall|i: int, j: int|
                0 <= i < n && 0 <= j < n && i % 3 == j % 3 && #[trigger] vals@[i] != 0
                    && #[trigger] vals@[j] != 0 implies band_of(vals@[i]) == band_of(vals@[j]) by {
                assert(band_of(vals@[i]) == group_band(vals@, i % 3));
                assert(band_of(vals@[j]) == group_band(vals@, j % 3));
            }
        }
        // Build the free-band digit list.
        let mut free: Vec<u8> = Vec::new();
        let mut d: u8 = 1;
        while d <= 9
            invariant
                1 <= d <= 10,
                b0 == group_band(vals@, 0),
                b1 == group_band(vals@, 1),
                b2 == group_band(vals@, 2),
                forall|i2: int, j2: int| 0 <= i2 < j2 < free@.len() ==> free@[i2] < free@[j2],
                forall|i2: int| 0 <= i2 < free@.len() ==> 1 <= #[trigger] free@[i2] < d,
                forall|x: u8|
                    free@.contains(x) <==> (1 <= x < d && !band_used(vals@, band_of(x))),
            decreases 10 - d,
        {
            let ghost prev = free@;
            let db = band_of_exec(d);
            if db != b0 && db != b1 && db != b2 {
                free.push(d);
            }
            proof {
                crate::digits::lemma_push_contains(prev, d);
                assert forall|x: u8|
                    free@.contains(x) implies (1 <= x < d + 1 && !band_used(vals@, band_of(x))) by {
                    if !prev.contains(x) {
                        assert(free@ == prev.push(x));
                    }
                }
                assert forall|x: u8|
                    (1 <= x < d + 1 && !band_used(vals@, band_of(x))) implies free@.contains(x) by {
                    if x == d {
                        assert(free@ == prev.push(d));
                    } else {
                        assert(prev.contains(x));
                    }
                }
            }
            d += 1;
        }
        // Assemble the map.
        let mut m = PossibilityMap::new_blank();
        let mut i: usize = 0;
        while i < n
            invariant
                self.wf(),
                grid.wf(),
                m.wf(),
                n == self.cells@.len(),
                vals@ == values_at(self.cells@, grid.cells_view()),
                vals@.len() == n,
                forall|k2: int| 0 <= k2 < n ==> #[trigger] vals@[k2] <= 9,
                b0 == group_band(vals@, 0),
                b1 == group_band(vals@, 1),
                b2 == group_band(vals@, 2),
                wf_digits(free@),
                forall|x: u8| free@.contains(x) <==> (is_digit(x) && !band_used(vals@, band_of(x))),
                0 <= i <= n,
                forall|r2: int, c2: int|
                    in_bounds(r2, c2) ==> ((#[trigger] m.entry(r2, c2)) is Some <==> exists|k2: int|
                        0 <= k2 < i && self.cells@[k2] == ((r2 as usize), (c2 as usize))),
                forall|k2: int|
                    0 <= k2 < i ==> (#[trigger] vals@[k2] != 0 ==> m.entry(
                        self.cells@[k2].0 as int,
                        self.cells@[k2].1 as int,
                    ) == Some(seq![vals@[k2]])),
                forall|k2: int|
                    0 <= k2 < i ==> (#[trigger] vals@[k2] == 0 ==> (m.entry(
                        self.cells@[k2].0 as int,
                        self.cells@[k2].1 as int,
                    ) matches Some(l) && wf_digits(l) && (forall|dd: u8|
                        l.contains(dd) <==> (is_digit(dd) && (if group_band(vals@, k2 % 3) != 3 {
                            band_of(dd) == group_band(vals@, k2 % 3)
                        } else {
                            !band_used(vals@, band_of(dd))
                        }))))),
            decreases n - i,
        {
            assert(crate::variant::util::pos_wf(self.cells@[i as int]));
            let p = self.cells[i];
            let v = vals[i];
            if v != 0 {
                let mut s: Vec<u8> = Vec::new();
                s.push(v);
                proof {
                    assert(s@ =~= seq![vals@[i as int]]);
                    assert(is_digit(v));
                }
                m.set_list(p.0, p.1, s);
            } else {
                let grp_band = if i % 3 == 0 {
                    b0
                } else if i % 3 == 1 {
                    b1
                } else {
                    b2
                };
                let l: Vec<u8> = if grp_band != 3 {
                    let mut bl: Vec<u8> = Vec::new();
                    if grp_band == 0 {
                        bl.push(1);
                        bl.push(2);
                        bl.push(3);
                    } else if grp_band == 1 {
                        bl.push(4);
                        bl.push(5);
                        bl.push(6);
                    } else {
                        bl.push(7);
                        bl.push(8);
                        bl.push(9);
                    }
                    proof {
                        let b = group_band(vals@, (i as int) % 3);
                        assert(0 <= b <= 2);
                        assert(bl@ =~= band_digits(b));
                        assert forall|dd: u8|
                            bl@.contains(dd) <==> (is_digit(dd) && band_of(dd) == b) by {
                            if is_digit(dd) && band_of(dd) == b {
                                if b == 0 {
                                    assert(bl@[(dd - 1) as int] == dd);
                                } else if b == 1 {
                                    assert(bl@[(dd - 4) as int] == dd);
                                } else {
                                    assert(bl@[(dd - 7) as int] == dd);
                                }
                            }
                            if bl@.contains(dd) {
                                let ix = choose|ix: int| 0 <= ix < bl@.len() && bl@[ix] == dd;
                            }
                        }
                    }
                    bl
                } else {
                    crate::digits::copy_digits(&free)
                };
                m.set_list(p.0, p.1, l);
            }
            proof {
                assert forall|r2: int, c2: int|
                    in_bounds(r2, c2) implies ((#[trigger] m.entry(r2, c2)) is Some <==> exists|
                    k2: int,
                |
                    0 <= k2 < i + 1 && self.cells@[k2] == ((r2 as usize), (c2 as usize))) by {
                    if (r2, c2) == (p.0 as int, p.1 as int) {
                        assert(self.cells@[i as int] == ((r2 as usize), (c2 as usize)));
                    }
                }
            }
            i += 1;
        }
        proof {
            assert forall|r2: int, c2: int|
                in_bounds(r2, c2) implies ((#[trigger] m.entry(r2, c2)) is Some
                <==> self.cells@.contains(((r2 as usize), (c2 as usize)))) by {
                if self.cells@.contains(((r2 as usize), (c2 as usize))) {
                    let k2 = choose|k2: int|
                        0 <= k2 < self.cells@.len() && self.cells@[k2] == ((r2 as usize), (
                        c2 as usize));
                    assert(0 <= k2 < n && self.cells@[k2] == ((r2 as usize), (c2 as usize)));
                }
            }
        }
        Ok(m)
    }
}

/// The band of a value, computed.
pub fn band_of_exec(d: u8) -> (b: u8)
    ensures
        b as int == band_of(d),
{
    if d >= 1 && d <= 3 {
        0
    } else if d >= 4 && d <= 6 {
        1
    } else if d >= 7 && d <= 9 {
        2
    } else {
        3
    }
}

/// Whether no window of three holds two filled cells of one band.
fn windows_ok_exec(vs: &Vec<u8>) -> (b: bool)
    ensures
        b == windows_ok(vs@),
{
    let n = vs.len();
    if n < 3 {
        return true;
    }
    let mut i: usize = 1;
    while i < n
        invariant
            n == vs@.len(),
            3 <= n,
            1 <= i <= n,
            forall|k1: int, k2: int|
                0 <= k1 < k2 < i && k2 <= k1 + 2 && is_digit(#[trigger] vs@[k1]) && is_digit(
                    #[trigger] vs@[k2],
                ) ==> band_of(vs@[k1]) != band_of(vs@[k2]),
        decreases n - i,
    {
        let v = vs[i];
        if v >= 1 && v <= 9 {
            let vb = band_of_exec(v);
            let u1 = vs[i - 1];
            if u1 >= 1 && u1 <= 9 {
                if band_of_exec(u1) == vb {
                    proof {
                        assert(is_digit(vs@[i - 1]) && is_digit(vs@[i as int]) && band_of(
                            vs@[i - 1],
                        ) == band_of(vs@[i as int]));
                        assert(!windows_ok(vs@));
                    }
                    return false;
                }
            }
            if i >= 2 {
                let u2 = vs[i - 2];
                if u2 >= 1 && u2 <= 9 {
                    if band_of_exec(u2) == vb {
                        proof {
                            assert(is_digit(vs@[i - 2]) && is_digit(vs@[i as int]) && band_of(
                                vs@[i - 2],
                            ) == band_of(vs@[i as int]));
                            assert(!windows_ok(vs@));
                        }
                        return false;
                    }
                }
            }
        }
        proof {
            assert forall|k1: int, k2: int|
                0 <= k1 < k2 < i + 1 && k2 <= k1 + 2 && is_digit(#[trigger] vs@[k1]) && is_digit(
                    #[trigger] vs@[k2],
                ) implies band_of(vs@[k1]) != band_of(vs@[k2]) by {
                if k2 == i {
                    if k1 == i - 1 {
                        assert(band_of(vs@[k1]) != band_of(vs@[k2]));
                    } else {
                        assert(k1 == i - 2);
                    }
                }
            }
        }
        i += 1;
    }
    true
}

/// The representative's properties: the first filled index of the class.
proof fn lemma_group_rep(vs: Seq<u8>, grp: int, i: int)
    requires
        0 <= i < vs.len(),
        i % 3 == grp,
        vs[i] != 0,
    ensures
        ({
            let rep = group_rep_from(vs, grp, 0);
            &&& 0 <= rep <= i
            &&& rep % 3 == grp
            &&& vs[rep] != 0
        }),
{
    lemma_group_rep_from(vs, grp, 0, i);
}

proof fn lemma_group_rep_from(vs: Seq<u8>, grp: int, start: int, i: int)
    requires
        0 <= start <= i < vs.len(),
        i % 3 == grp,
        vs[i] != 0,
    ensures
        ({
            let rep = group_rep_from(vs, grp, start);
            &&& start <= rep <= i
            &&& rep % 3 == grp
            &&& vs[rep] != 0
        }),
    decreases i - start,
{
    if !(start % 3 == grp && vs[start] != 0) {
        if start < i {
            lemma_group_rep_from(vs, grp, start + 1, i);
        }
    }
}

/// The band fixed for a residue class, computed.
fn group_band_exec(vals: &Vec<u8>, grp: usize) -> (b: u8)
    requires
        grp < 3,
    ensures
        b as int == group_band(vals@, grp as int),
{
    let n = vals.len();
    let mut i: usize = 0;
    while i < n
        invariant
            n == vals@.len(),
            grp < 3,
            0 <= i <= n,
            group_rep_from(vals@, grp as int, 0) == group_rep_from(vals@, grp as int, i as int),
        decreases n - i,
    {
        if i % 3 == grp && vals[i] != 0 {
            proof {
                assert(group_rep_from(vals@, grp as int, i as int) == i as int);
            }
            return band_of_exec(vals[i]);
        }
        proof {
            assert(group_rep_from(vals@, grp as int, i as int) == group_rep_from(
                vals@,
                grp as int,
                i + 1,
            ));
        }
        i += 1;
    }
    proof {
        assert(group_rep_from(vals@, grp as int, n as int) == n as int);
    }
    3
}

} // verus!
