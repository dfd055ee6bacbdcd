use vstd::prelude::*;

use crate::digits::is_digit;
use crate::grid::{
    board_valid, box_base, box_seq, cell_at, classic_ok, col_seq, group_ok, row_seq, used_in_box,
    used_in_col, used_in_row,
};
use crate::possmap::{cell_idx, in_bounds};
use crate::variant::german_whisper::whisper_rel;
use crate::variant::kropki::{kropki_partner_opts, kropki_rel, KropkiColour};
use crate::variant::xv::{xv_rel, XVFlavour};

verus! {

/// The Kropki relation is symmetric: a dot satisfied by `(a, b)` is satisfied
/// by `(b, a)`.
pub proof fn lemma_kropki_rel_symmetric(colour: KropkiColour, a: int, b: int)
    ensures
        kropki_rel(colour, a, b) == kropki_rel(colour, b, a),
{
}

/// The XV relation is symmetric: a dot satisfied by `(a, b)` is satisfied by
/// `(b, a)`.
pub proof fn lemma_xv_rel_symmetric(flavour: XVFlavour, a: int, b: int)
    ensures
        xv_rel(flavour, a, b) == xv_rel(flavour, b, a),
{
}

/// The whisper relation is symmetric: adjacent digits that differ by at
/// least five do so in either order.
pub proof fn lemma_whisper_rel_symmetric(a: int, b: int)
    ensures
        whisper_rel(a, b) == whisper_rel(b, a),
{
}

/// Writing a digit into an empty cell and then clearing that cell restores
/// the cell values exactly. This is the cells half of the set/clear round
/// trip: the candidate map is restored only by taking a snapshot before the
/// placement and putting it back afterwards, which is what the solver does
/// on every backtrack.
pub proof fn lemma_set_clear_restores_cells(cells: Seq<u8>, row: int, col: int, v: u8)
    requires
        cells.len() == 81,
        in_bounds(row, col),
        cell_at(cells, row, col) == 0,
    ensures
        cells.update(cell_idx(row, col), v).update(cell_idx(row, col), 0u8) == cells,
{
    assert(cells.update(cell_idx(row, col), v).update(cell_idx(row, col), 0u8) =~= cells);
}

/// Whether `full` is a completion of the partial grid `cells`: every placed
/// digit is kept and every cell is filled.
pub open spec fn completes(cells: Seq<u8>, full: Seq<u8>) -> bool {
    &&& cells.len() == 81
    &&& full.len() == 81
    &&& forall|r: int, c: int|
        in_bounds(r, c) && #[trigger] cell_at(cells, r, c) != 0 ==> cell_at(full, r, c) == cell_at(
            cells,
            r,
            c,
        )
}

/// Classic candidate completeness: whenever a classically valid completion
/// exists, the digit it assigns to an empty cell is still admitted by the
/// classic row, column and box checks on the partial grid. Striking digits by
/// the classic rules therefore never discards a digit of any completion.
pub proof fn lemma_classic_candidates_complete(cells: Seq<u8>, full: Seq<u8>, r: int, c: int)
    requires
        completes(cells, full),
        board_valid(full),
        in_bounds(r, c),
        cell_at(cells, r, c) == 0,
    ensures
        is_digit(cell_at(full, r, c)),
        classic_ok(cells, r, c, cell_at(full, r, c)),
{
    let d = cell_at(full, r, c);
    assert(group_ok(row_seq(full, r)));
    assert(row_seq(full, r)[c] == d);
    assert(is_digit(d));
    // Row: a peer holding d in the partial grid would repeat d in the full row.
    assert(!used_in_row(cells, r, d)) by {
        if used_in_row(cells, r, d) {
            let c2 = choose|c2: int| 0 <= c2 < 9 && cell_at(cells, r, c2) == d;
            assert(cell_at(full, r, c2) == d);
            assert(c2 != c);
            assert(row_seq(full, r)[c2] == d);
            if c2 < c {
                assert(row_seq(full, r)[c2] != row_seq(full, r)[c]);
            } else {
                assert(row_seq(full, r)[c] != row_seq(full, r)[c2]);
            }
        }
    }
    // Column: likewise.
    assert(!used_in_col(cells, c, d)) by {
        if used_in_col(cells, c, d) {
            let r2 = choose|r2: int| 0 <= r2 < 9 && cell_at(cells, r2, c) == d;
            assert(cell_at(full, r2, c) == d);
            assert(r2 != r);
            assert(group_ok(col_seq(full, c)));
            assert(col_seq(full, c)[r2] == d);
            assert(col_seq(full, c)[r] == d);
            if r2 < r {
                assert(col_seq(full, c)[r2] != col_seq(full, c)[r]);
            } else {
                assert(col_seq(full, c)[r] != col_seq(full, c)[r2]);
            }
        }
    }
    // Box: likewise, through the box's row-major indexing.
    assert(!used_in_box(cells, box_base(r), box_base(c), d)) by {
        if used_in_box(cells, box_base(r), box_base(c), d) {
            let (i, j) = choose|i: int, j: int|
                0 <= i < 3 && 0 <= j < 3 && #[trigger] cell_at(
                    cells,
                    box_base(r) + i,
                    box_base(c) + j,
                ) == d;
            let bi = r / 3;
            let bj = c / 3;
            assert(box_base(r) == 3 * bi && box_base(c) == 3 * bj);
            assert(cell_at(full, 3 * bi + i, 3 * bj + j) == d);
            assert(group_ok(box_seq(full, bi, bj)));
            let k1 = 3 * i + j;
            let k2 = 3 * (r - 3 * bi) + (c - 3 * bj);
            assert(0 <= k1 < 9 && 0 <= k2 < 9);
            assert(k1 / 3 == i && k1 % 3 == j) by (nonlinear_arith)
                requires
                    0 <= i < 3 && 0 <= j < 3 && k1 == 3 * i + j,
            ;
            assert(0 <= r - 3 * bi < 3 && 0 <= c - 3 * bj < 3) by (nonlinear_arith)
                requires
                    0 <= r < 9 && 0 <= c < 9 && bi == r / 3 && bj == c / 3,
            ;
            assert(k2 / 3 == r - 3 * bi && k2 % 3 == c - 3 * bj) by (nonlinear_arith)
                requires
                    0 <= r - 3 * bi < 3 && 0 <= c - 3 * bj < 3 && k2 == 3 * (r - 3 * bi) + (c - 3
                        * bj),
            ;
            assert(box_seq(full, bi, bj)[k1] == d);
            assert(box_seq(full, bi, bj)[k2] == d);
            assert(k1 != k2) by {
                if k1 == k2 {
                    assert(3 * bi + i == r && 3 * bj + j == c);
                    assert(cell_at(cells, r, c) == d);
                }
            }
            if k1 < k2 {
                assert(box_seq(full, bi, bj)[k1] != box_seq(full, bi, bj)[k2]);
            } else {
                assert(box_seq(full, bi, bj)[k2] != box_seq(full, bi, bj)[k1]);
            }
        }
    }
}

/// Diagonal candidate completeness: whenever a completion satisfies the
/// diagonal rule, the digit it assigns to an empty diagonal cell is not yet
/// on the diagonal, so the diagonal's candidate derivation keeps it.
pub proof fn lemma_diagonal_candidates_complete(
    d: crate::variant::diagonal::Diagonal,
    cells: Seq<u8>,
    full: Seq<u8>,
    k: int,
)
    requires
        d.wf(),
        completes(cells, full),
        d.solution_ok(full),
        0 <= k < d.cells@.len(),
        cell_at(cells, d.cells@[k].0 as int, d.cells@[k].1 as int) == 0,
    ensures
        !d.uses(cells, cell_at(full, d.cells@[k].0 as int, d.cells@[k].1 as int)),
{
    let vs_part = crate::variant::util::values_at(d.cells@, cells);
    let vs_full = crate::variant::util::values_at(d.cells@, full);
    let x = cell_at(full, d.cells@[k].0 as int, d.cells@[k].1 as int);
    if d.uses(cells, x) {
        let j = choose|j: int| 0 <= j < vs_part.len() && vs_part[j] == x;
        assert(crate::variant::util::pos_wf(d.cells@[j]));
        assert(vs_full[k] == x);
        assert(x != 0);
        assert(cell_at(cells, d.cells@[j].0 as int, d.cells@[j].1 as int) == x);
        assert(cell_at(full, d.cells@[j].0 as int, d.cells@[j].1 as int) == x);
        assert(j != k);
        assert(vs_full[j] == x && vs_full[k] == x);
        if j < k {
            assert(vs_full[j] != vs_full[k]);
        } else {
            assert(vs_full[k] != vs_full[j]);
        }
    }
}

/// Kropki candidate completeness: when the partner cell of a dot holds digit
/// `k`, every digit that satisfies the dot's relation with `k` is kept in the
/// partner-options list the dot derives.
pub proof fn lemma_kropki_opts_complete(colour: KropkiColour, k: u8, x: u8)
    requires
        is_digit(k),
        is_digit(x),
        kropki_rel(colour, x as int, k as int),
    ensures
        kropki_partner_opts(colour, k).contains(x),
{
    match colour {
        KropkiColour::White => {
            if x == k + 1 {
                assert(k < 9);
                let opts = kropki_partner_opts(colour, k);
                assert(opts[opts.len() - 1] == x);
            } else {
                assert(k == x + 1);
                assert(k > 1);
                assert(kropki_partner_opts(colour, k)[0] == x);
            }
        },
        KropkiColour::Black => {
            if x == 2 * k {
                assert(2 * k < 9);
                let opts = kropki_partner_opts(colour, k);
                assert(opts[opts.len() - 1] == x);
            } else {
                assert(k == 2 * x);
                assert(k % 2 == 0) by (nonlinear_arith)
                    requires
                        k == 2 * x,
                ;
                assert(k / 2 == x) by (nonlinear_arith)
                    requires
                        k == 2 * x,
                ;
                assert(kropki_partner_opts(colour, k)[0] == x);
            }
        },
    }
}

/// XV candidate completeness: when the partner cell of a dot holds digit `k`,
/// the digit that completes the dot's sum is a digit exactly when the sum is
/// reachable, and is then the one candidate the dot derives.
pub proof fn lemma_xv_opts_complete(flavour: XVFlavour, k: u8, x: u8)
    requires
        is_digit(k),
        is_digit(x),
        xv_rel(flavour, x as int, k as int),
    ensures
        x as int == crate::variant::xv::xv_target(flavour) - k,
{
}

} // verus!
