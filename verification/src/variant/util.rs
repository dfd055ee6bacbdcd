use vstd::prelude::*;

use crate::grid::{cell_at, SudokuGrid};

verus! {

/// Whether a position names one of the 81 cells.
pub open spec fn pos_wf(p: (usize, usize)) -> bool {
    p.0 < 9 && p.1 < 9
}

/// Whether every position of the list names one of the 81 cells.
pub open spec fn pos_list_wf(s: Seq<(usize, usize)>) -> bool {
    forall|k: int| 0 <= k < s.len() ==> pos_wf(#[trigger] s[k])
}

/// Whether the listed positions are pairwise distinct.
pub open spec fn pos_list_distinct(s: Seq<(usize, usize)>) -> bool {
    forall|i: int, j: int| 0 <= i < j < s.len() ==> s[i] != s[j]
}

/// The grid values at the listed positions, in list order.
pub open spec fn values_at(cells: Seq<(usize, usize)>, g: Seq<u8>) -> Seq<u8> {
    Seq::new(cells.len() as nat, |k: int| cell_at(g, cells[k].0 as int, cells[k].1 as int))
}

/// The first index at which `(row, col)` occurs in the list.
pub open spec fn index_in(cells: Seq<(usize, usize)>, row: usize, col: usize) -> int {
    choose|i: int|
        0 <= i < cells.len() && cells[i] == (row, col) && (forall|k: int|
            0 <= k < i ==> cells[k] != (row, col))
}

/// The first matching index is the unique index with a mismatch-only prefix.
pub proof fn lemma_index_in(cells: Seq<(usize, usize)>, row: usize, col: usize, i: int)
    requires
        0 <= i < cells.len(),
        cells[i] == (row, col),
        forall|k: int| 0 <= k < i ==> cells[k] != (row, col),
    ensures
        index_in(cells, row, col) == i,
{
    let j = index_in(cells, row, col);
    assert(0 <= j < cells.len() && cells[j] == (row, col) && (forall|k: int|
        0 <= k < j ==> cells[k] != (row, col)));
    if j < i {
        assert(cells[j] != (row, col));
    }
    if i < j {
        assert(cells[i] != (row, col));
    }
}

/// The index of `(row, col)` in the list, scanning from the front.
pub fn position_of(cells: &Vec<(usize, usize)>, row: usize, col: usize) -> (o: Option<usize>)
    ensures
        match o {
            Some(i) => i < cells@.len() && cells@[i as int] == (row, col) && i as int == index_in(
                cells@,
                row,
                col,
            ) && (forall|k: int| 0 <= k < i ==> cells@[k] != (row, col)),
            None => !cells@.contains((row, col)),
        },
{
    let mut i: usize = 0;
    while i < cells.len()
        invariant
            0 <= i <= cells@.len(),
            forall|k: int| 0 <= k < i ==> #[trigger] cells@[k] != (row, col),
        decreases cells@.len() - i,
    {
        let p = cells[i];
        if p.0 == row && p.1 == col {
            proof {
                assert(cells@[i as int] == (row, col));
                lemma_index_in(cells@, row, col, i as int);
            }
            return Some(i);
        }
        i += 1;
    }
    proof {
        assert forall|k: int| 0 <= k < cells@.len() implies #[trigger] cells@[k] != (row, col) by {}
    }
    None
}

/// Whether `(row, col)` is one of the listed positions.
pub fn contains_pos(cells: &Vec<(usize, usize)>, row: usize, col: usize) -> (b: bool)
    ensures
        b == cells@.contains((row, col)),
{
    match position_of(cells, row, col) {
        Some(_) => true,
        None => false,
    }
}

/// The grid values at the listed positions, in list order.
pub fn grid_values(cells: &Vec<(usize, usize)>, grid: &SudokuGrid) -> (vals: Vec<u8>)
    requires
        grid.wf(),
        pos_list_wf(cells@),
    ensures
        vals@ == values_at(cells@, grid.cells_view()),
        vals@.len() == cells@.len(),
        forall|k: int| 0 <= k < vals@.len() ==> #[trigger] vals@[k] <= 9,
{
    let mut vals: Vec<u8> = Vec::new();
    let mut i: usize = 0;
    while i < cells.len()
        invariant
            grid.wf(),
            pos_list_wf(cells@),
            0 <= i <= cells@.len(),
            vals@.len() == i,
            forall|k: int|
                0 <= k < i ==> #[trigger] vals@[k] == cell_at(
                    grid.cells_view(),
                    cells@[k].0 as int,
                    cells@[k].1 as int,
                ),
            forall|k: int| 0 <= k < i ==> #[trigger] vals@[k] <= 9,
        decreases cells@.len() - i,
    {
        let p = cells[i];
        assert(pos_wf(cells@[i as int]));
        vals.push(grid.get_cell(p.0, p.1));
        i += 1;
    }
    proof {
        assert(vals@ =~= values_at(cells@, grid.cells_view()));
    }
    vals
}

/// A fresh copy of the position list; variants hand their constrained cells out by value.
pub fn copy_positions(cells: &Vec<(usize, usize)>) -> (r: Vec<(usize, usize)>)
    ensures
        r@ == cells@,
{
    let mut out: Vec<(usize, usize)> = Vec::new();
    let mut i: usize = 0;
    while i < cells.len()
        invariant
            0 <= i <= cells@.len(),
            out@ == cells@.subrange(0, i as int),
        decreases cells@.len() - i,
    {
        out.push(cells[i]);
        i += 1;
        proof {
            assert(out@ =~= cells@.subrange(0, i as int));
        }
    }
    proof {
        assert(cells@.subrange(0, cells@.len() as int) =~= cells@);
    }
    out
}

/// All 81 cells in row-major order, as a sequence.
pub open spec fn all_cells_seq() -> Seq<(usize, usize)> {
    Seq::new(81, |k: int| (((k / 9) as usize), ((k % 9) as usize)))
}

/// All 81 cells in row-major order.
pub fn all_cells() -> (r: Vec<(usize, usize)>)
    ensures
        r@.len() == 81,
        forall|k: int| 0 <= k < 81 ==> #[trigger] r@[k] == (((k / 9) as usize), ((k % 9) as usize)),
{
    let mut out: Vec<(usize, usize)> = Vec::new();
    let mut row: usize = 0;
    while row < 9
        invariant
            0 <= row <= 9,
            out@.len() == row * 9,
            forall|k: int|
                0 <= k < out@.len() ==> #[trigger] out@[k] == (((k / 9) as usize), ((k % 9) as usize)),
        decreases 9 - row,
    {
        let mut col: usize = 0;
        while col < 9
            invariant
                row < 9,
                0 <= col <= 9,
                out@.len() == row * 9 + col,
                forall|k: int|
                    0 <= k < out@.len() ==> #[trigger] out@[k] == (((k / 9) as usize), ((
                    k % 9) as usize)),
            decreases 9 - col,
        {
            out.push((row, col));
            proof {
                assert(out@.len() - 1 == row * 9 + col);
                assert((row * 9 + col) / 9 == row as int && (row * 9 + col) % 9 == col as int) by (
                nonlinear_arith)
                    requires
                        0 <= row < 9 && 0 <= col < 9,
                ;
            }
            col += 1;
        }
        row += 1;
    }
    out
}

/// The index of the last filled cell before position `i` on the line, or -1.
pub open spec fn last_filled_before(vals: Seq<u8>, i: int) -> int
    decreases i,
{
    if i <= 0 {
        -1
    } else if vals[i - 1] != 0 {
        i - 1
    } else {
        last_filled_before(vals, i - 1)
    }
}

/// The index of the first filled cell at or after position `i`, or the length.
pub open spec fn first_filled_from(vals: Seq<u8>, i: int) -> int
    decreases vals.len() - i,
{
    if i < 0 || i >= vals.len() {
        vals.len() as int
    } else if vals[i] != 0 {
        i
    } else {
        first_filled_from(vals, i + 1)
    }
}

/// Whether two distinct cells are a king's move apart.
pub open spec fn king_sees(r1: int, c1: int, r2: int, c2: int) -> bool {
    &&& (r1 != r2 || c1 != c2)
    &&& -1 <= r1 - r2 <= 1
    &&& -1 <= c1 - c2 <= 1
}

/// Whether two cells are a knight's move apart.
pub open spec fn knight_sees(r1: int, c1: int, r2: int, c2: int) -> bool {
    ||| (r1 - r2 == 1 || r2 - r1 == 1) && (c1 - c2 == 2 || c2 - c1 == 2)
    ||| (r1 - r2 == 2 || r2 - r1 == 2) && (c1 - c2 == 1 || c2 - c1 == 1)
}

/// Whether two distinct cells are a king's move apart, computed.
pub fn king_sees_exec(r1: usize, c1: usize, r2: usize, c2: usize) -> (b: bool)
    requires
        r1 < 9,
        c1 < 9,
        r2 < 9,
        c2 < 9,
    ensures
        b == king_sees(r1 as int, c1 as int, r2 as int, c2 as int),
{
    let dr = if r1 >= r2 {
        r1 - r2
    } else {
        r2 - r1
    };
    let dc = if c1 >= c2 {
        c1 - c2
    } else {
        c2 - c1
    };
    (dr != 0 || dc != 0) && dr <= 1 && dc <= 1
}

/// Whether two cells are a knight's move apart, computed.
pub fn knight_sees_exec(r1: usize, c1: usize, r2: usize, c2: usize) -> (b: bool)
    requires
        r1 < 9,
        c1 < 9,
        r2 < 9,
        c2 < 9,
    ensures
        b == knight_sees(r1 as int, c1 as int, r2 as int, c2 as int),
{
    let dr = if r1 >= r2 {
        r1 - r2
    } else {
        r2 - r1
    };
    let dc = if c1 >= c2 {
        c1 - c2
    } else {
        c2 - c1
    };
    (dr == 1 && dc == 2) || (dr == 2 && dc == 1)
}


/// Build a variant's candidate map: the singleton of each filled cell's
/// value, and `shared` for every empty cell. The listed cells must be
/// pairwise distinct.
pub(crate) fn fill_map_uniform(
    cells: &Vec<(usize, usize)>,
    vals: &Vec<u8>,
    shared: Vec<u8>,
) -> (m: crate::possmap::PossibilityMap)
    requires
        pos_list_wf(cells@),
        pos_list_distinct(cells@),
        vals@.len() == cells@.len(),
        forall|k: int| 0 <= k < vals@.len() ==> #[trigger] vals@[k] <= 9,
        crate::digits::wf_digits(shared@),
    ensures
        m.wf(),
        forall|r2: int, c2: int|
            crate::possmap::in_bounds(r2, c2) ==> ((#[trigger] m.entry(r2, c2)) is Some
                ==> cells@.contains(((r2 as usize), (c2 as usize)))),
        forall|k: int|
            0 <= k < cells@.len() ==> (#[trigger] vals@[k] != 0 ==> m.entry(
                cells@[k].0 as int,
                cells@[k].1 as int,
            ) == Some(seq![vals@[k]])),
        forall|k: int|
            0 <= k < cells@.len() ==> (#[trigger] vals@[k] == 0 ==> m.entry(
                cells@[k].0 as int,
                cells@[k].1 as int,
            ) == Some(shared@)),
{
    let mut lists: Vec<Vec<u8>> = Vec::new();
    let mut k: usize = 0;
    while k < cells.len()
        invariant
            0 <= k <= cells@.len(),
            lists@.len() == k,
            crate::digits::wf_digits(shared@),
            forall|j: int| 0 <= j < k ==> crate::digits::wf_digits((#[trigger] lists@[j])@),
            forall|j: int| 0 <= j < k ==> (#[trigger] lists@[j])@ == shared@,
        decreases cells@.len() - k,
    {
        lists.push(crate::digits::copy_digits(&shared));
        k += 1;
    }
    fill_map_lists(cells, vals, &lists)
}

/// Build a variant's candidate map: the singleton of each filled cell's
/// value, and the cell's own list for every empty cell. The listed cells
/// must be pairwise distinct.
pub(crate) fn fill_map_lists(
    cells: &Vec<(usize, usize)>,
    vals: &Vec<u8>,
    lists: &Vec<Vec<u8>>,
) -> (m: crate::possmap::PossibilityMap)
    requires
        pos_list_wf(cells@),
        pos_list_distinct(cells@),
        vals@.len() == cells@.len(),
        lists@.len() == cells@.len(),
        forall|k: int| 0 <= k < vals@.len() ==> #[trigger] vals@[k] <= 9,
        forall|k: int| 0 <= k < lists@.len() ==> crate::digits::wf_digits((#[trigger] lists@[k])@),
    ensures
        m.wf(),
        forall|r2: int, c2: int|
            crate::possmap::in_bounds(r2, c2) ==> ((#[trigger] m.entry(r2, c2)) is Some
                ==> cells@.contains(((r2 as usize), (c2 as usize)))),
        forall|k: int|
            0 <= k < cells@.len() ==> (#[trigger] vals@[k] != 0 ==> m.entry(
                cells@[k].0 as int,
                cells@[k].1 as int,
            ) == Some(seq![vals@[k]])),
        forall|k: int|
            0 <= k < cells@.len() ==> (#[trigger] vals@[k] == 0 ==> m.entry(
                cells@[k].0 as int,
                cells@[k].1 as int,
            ) == Some((lists@[k])@)),
{
    let n = cells.len();
    let mut m = crate::possmap::PossibilityMap::new_blank();
    let mut k: usize = 0;
    while k < n
        invariant
            pos_list_wf(cells@),
            pos_list_distinct(cells@),
            m.wf(),
            n == cells@.len(),
            vals@.len() == n,
            lists@.len() == n,
            forall|k2: int| 0 <= k2 < n ==> #[trigger] vals@[k2] <= 9,
            forall|k2: int|
                0 <= k2 < n ==> crate::digits::wf_digits((#[trigger] lists@[k2])@),
            0 <= k <= n,
            forall|r2: int, c2: int|
                crate::possmap::in_bounds(r2, c2) ==> ((#[trigger] m.entry(r2, c2)) is Some
                    ==> exists|k2: int|
                    0 <= k2 < k && cells@[k2] == ((r2 as usize), (c2 as usize))),
            forall|k2: int|
                0 <= k2 < k ==> (#[trigger] vals@[k2] != 0 ==> m.entry(
                    cells@[k2].0 as int,
                    cells@[k2].1 as int,
                ) == Some(seq![vals@[k2]])),
            forall|k2: int|
                0 <= k2 < k ==> (#[trigger] vals@[k2] == 0 ==> m.entry(
                    cells@[k2].0 as int,
                    cells@[k2].1 as int,
                ) == Some((lists@[k2])@)),
        decreases n - k,
    {
        assert(pos_wf(cells@[k as int]));
        let p = cells[k];
        let v = vals[k];
        if v != 0 {
            let mut s: Vec<u8> = Vec::new();
            s.push(v);
            proof {
                assert(s@ =~= seq![vals@[k as int]]);
                assert(crate::digits::is_digit(v));
            }
            m.set_list(p.0, p.1, s);
        } else {
            let l = crate::digits::copy_digits(&lists[k]);
            m.set_list(p.0, p.1, l);
        }
        proof {
            assert forall|r2: int, c2: int|
                crate::possmap::in_bounds(r2, c2) implies ((#[trigger] m.entry(r2, c2)) is Some
                ==> exists|k2: int|
                0 <= k2 < k + 1 && cells@[k2] == ((r2 as usize), (c2 as usize))) by {
                if (r2, c2) == (p.0 as int, p.1 as int) {
                    assert(cells@[k as int] == ((r2 as usize), (c2 as usize)));
                }
            }
            assert forall|k2: int|
                0 <= k2 < k + 1 implies (#[trigger] vals@[k2] != 0 ==> m.entry(
                cells@[k2].0 as int,
                cells@[k2].1 as int,
            ) == Some(seq![vals@[k2]])) by {
                if k2 < k {
                    assert(cells@[k2] != cells@[k as int]);
                }
            }
            assert forall|k2: int|
                0 <= k2 < k + 1 implies (#[trigger] vals@[k2] == 0 ==> m.entry(
                cells@[k2].0 as int,
                cells@[k2].1 as int,
            ) == Some((lists@[k2])@)) by {
                if k2 < k {
                    assert(cells@[k2] != cells@[k as int]);
                }
            }
        }
        k += 1;
    }
    proof {
        assert forall|r2: int, c2: int|
            crate::possmap::in_bounds(r2, c2) implies ((#[trigger] m.entry(r2, c2)) is Some
            ==> cells@.contains(((r2 as usize), (c2 as usize)))) by {
            if m.entry(r2, c2) is Some {
                let k2 = choose|k2: int|
                    0 <= k2 < n && cells@[k2] == ((r2 as usize), (c2 as usize));
            }
        }
    }
    m
}

} // verus!
