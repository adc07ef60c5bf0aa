//! Properties that relate several operations of the field engine.

use vstd::prelude::*;
use crate::count::{
    closed_pred, free_pred, grid_count, hidden_mine_pred, lemma_count_mine_free,
    lemma_grid_count_pos, lemma_row_count_none, mine_pred, row_count,
};
use crate::field::{adjacent, lemma_around_same_mines, num_content, Cell, CellState, CellType, Field};

verus! {

/// Flagging a closed cell flags it and takes one from the flag counter;
/// flagging a flagged cell closes it and gives the flag back. Flagging the same
/// cell twice, whatever its state, gives back the board it started from.
pub proof fn lemma_flag_round_trip(a: Field, b: Field, c: Field, r: int, col: int)
    requires
        a.shaped(),
        a.in_bounds(r, col),
        b.flagged_from(a, r, col),
        c.flagged_from(b, r, col),
    ensures
        a.cell_at(r, col).state == CellState::Closed ==> b.cell_at(r, col).state == CellState::Flagged
            && b.num_of_flags_left == a.num_of_flags_left - 1,
        a.cell_at(r, col).state == CellState::Flagged ==> b.cell_at(r, col).state == CellState::Closed
            && b.num_of_flags_left == a.num_of_flags_left + 1,
        c.num_of_flags_left == a.num_of_flags_left,
        c.width == a.width,
        c.height == a.height,
        forall|i: int, j: int| a.in_bounds(i, j) ==> #[trigger] c.cell_at(i, j) == a.cell_at(i, j),
{
    assert forall|i: int, j: int| a.in_bounds(i, j) implies #[trigger] c.cell_at(i, j) == a.cell_at(i, j) by {
        if i == r && j == col {
            assert(c.cell_at(i, j).cell == a.cell_at(i, j).cell);
        } else {
            assert(b.cell_at(i, j) == a.cell_at(i, j));
        }
    }
}

/// Flagging an open cell changes nothing: no cell and not the flag counter.
pub proof fn lemma_flag_open_is_noop(a: Field, b: Field, r: int, col: int)
    requires
        a.shaped(),
        a.in_bounds(r, col),
        a.cell_at(r, col).state == CellState::Open,
        b.flagged_from(a, r, col),
    ensures
        b.num_of_flags_left == a.num_of_flags_left,
        b.width == a.width,
        b.height == a.height,
        forall|i: int, j: int| a.in_bounds(i, j) ==> #[trigger] b.cell_at(i, j) == a.cell_at(i, j),
{
    assert forall|i: int, j: int| a.in_bounds(i, j) implies #[trigger] b.cell_at(i, j) == a.cell_at(i, j) by {
        if i == r && j == col {
            assert(b.cell_at(i, j).cell == a.cell_at(i, j).cell);
        }
    }
}

/// The game is not won while a cell without a mine is closed, while a mine is
/// not flagged, or while the flag counter is not zero.
pub proof fn lemma_game_not_over(f: Field)
    requires
        f.shaped(),
    ensures
        (exists|i: int, j: int|
            f.in_bounds(i, j) && (#[trigger] f.cell_at(i, j)).cell != CellType::Mine && f.cell_at(i, j).state
                == CellState::Closed) ==> !f.won(),
        (exists|i: int, j: int|
            f.in_bounds(i, j) && (#[trigger] f.cell_at(i, j)).cell == CellType::Mine && f.cell_at(i, j).state
                != CellState::Flagged) ==> !f.won(),
        f.num_of_flags_left != 0 ==> !f.won(),
{
    if exists|i: int, j: int|
        f.in_bounds(i, j) && (#[trigger] f.cell_at(i, j)).cell != CellType::Mine && f.cell_at(i, j).state
            == CellState::Closed {
        let (i, j) = choose|i: int, j: int|
            f.in_bounds(i, j) && (#[trigger] f.cell_at(i, j)).cell != CellType::Mine && f.cell_at(i, j).state
                == CellState::Closed;
        lemma_grid_count_pos(f.grid@, i, j, closed_pred());
    }
    if exists|i: int, j: int|
        f.in_bounds(i, j) && (#[trigger] f.cell_at(i, j)).cell == CellType::Mine && f.cell_at(i, j).state
            != CellState::Flagged {
        let (i, j) = choose|i: int, j: int|
            f.in_bounds(i, j) && (#[trigger] f.cell_at(i, j)).cell == CellType::Mine && f.cell_at(i, j).state
                != CellState::Flagged;
        lemma_grid_count_pos(f.grid@, i, j, hidden_mine_pred());
    }
}

/// Opening cells and toggling flags never change contents, so every cell
/// without a mine keeps showing the number of mines around it.
pub proof fn lemma_numbers_stay_consistent(a: Field, b: Field, r: int, c: int)
    requires
        a.numbers_consistent(),
        b.opened_from(a, r, c) || b.flagged_from(a, r, c),
    ensures
        b.numbers_consistent(),
{
    assert forall|i: int, j: int|
        b.in_bounds(i, j) && (#[trigger] b.cell_at(i, j)).cell != CellType::Mine implies b.cell_at(i, j).cell
            == num_content(b.around(i, j, mine_pred())) by {
        assert(b.cell_at(i, j).cell == a.cell_at(i, j).cell);
        lemma_around_same_mines(a, b, i, j);
    }
}

/// How many of 0, 1, ..., n - 1 lie between lo and hi.
pub open spec fn band(n: int, lo: int, hi: int) -> nat
    decreases n,
{
    if n <= 0 {
        0
    } else {
        band(n - 1, lo, hi) + if lo <= n - 1 <= hi { 1nat } else { 0nat }
    }
}

/// The number of cells of a `width` by `height` board in the three-by-three
/// square around (r, c).
pub open spec fn square_size(width: int, height: int, r: int, c: int) -> int {
    (band(height, r - 1, r + 1) * band(width, c - 1, c + 1)) as int
}

/// A row whose `f` cells all lie in columns lo..=hi has at most as many of them
/// as there are such columns, one fewer if one of those columns fails `f`.
pub proof fn lemma_row_band(row: Seq<Cell>, f: spec_fn(Cell) -> bool, lo: int, hi: int, hole: int)
    requires
        forall|j: int| 0 <= j < row.len() && f(#[trigger] row[j]) ==> lo <= j <= hi,
    ensures
        row_count(row, f) + (if 0 <= hole < row.len() && lo <= hole <= hi && !f(row[hole]) {
            1int
        } else {
            0int
        }) <= band(row.len() as int, lo, hi),
    decreases row.len(),
{
    if row.len() > 0 {
        let d = row.drop_last();
        assert forall|j: int| 0 <= j < d.len() && f(#[trigger] d[j]) implies lo <= j <= hi by {
            assert(d[j] == row[j]);
        }
        lemma_row_band(d, f, lo, hi, hole);
        if 0 <= hole < d.len() {
            assert(d[hole] == row[hole]);
        }
    }
}

pub proof fn lemma_grid_band(
    g: Seq<Vec<Cell>>,
    f: spec_fn(Cell) -> bool,
    w: int,
    rlo: int,
    rhi: int,
    clo: int,
    chi: int,
    hr: int,
    hc: int,
)
    requires
        w >= 0,
        forall|r: int| 0 <= r < g.len() ==> #[trigger] g[r]@.len() == w,
        forall|r: int, j: int|
            0 <= r < g.len() && 0 <= j < w && f(#[trigger] g[r]@[j]) ==> rlo <= r <= rhi && clo <= j <= chi,
    ensures
        grid_count(g, f) + (if 0 <= hr < g.len() && rlo <= hr <= rhi && 0 <= hc < w && clo <= hc <= chi
            && !f(g[hr]@[hc]) {
            1int
        } else {
            0int
        }) <= band(g.len() as int, rlo, rhi) * band(w, clo, chi),
    decreases g.len(),
{
    if g.len() > 0 {
        let d = g.drop_last();
        let r = g.len() - 1;
        let b = band(d.len() as int, rlo, rhi);
        let bc = band(w, clo, chi);
        assert forall|i: int, j: int|
            0 <= i < d.len() && 0 <= j < w && f(#[trigger] d[i]@[j]) implies rlo <= i <= rhi && clo <= j <= chi by {
            assert(d[i] == g[i]);
        }
        lemma_grid_band(d, f, w, rlo, rhi, clo, chi, hr, hc);
        if 0 <= hr < d.len() {
            assert(d[hr] == g[hr]);
        }
        if rlo <= r <= rhi {
            lemma_row_band(g[r]@, f, clo, chi, if hr == r { hc } else { -1 });
            assert((b + 1) * bc == b * bc + bc) by (nonlinear_arith);
        } else {
            assert forall|j: int| 0 <= j < g[r]@.len() implies !f(#[trigger] g[r]@[j]) by {}
            lemma_row_count_none(g[r]@, f);
        }
    }
}

/// On a board with room for every mine outside the square around the start
/// cell, the first move leaves that whole square free of mines.
pub proof fn lemma_start_square_clear(f: Field, width: int, height: int, mines: int, sr: int, sc: int)
    requires
        f.fresh_board(width, height, mines, sr, sc),
        mines + square_size(width, height, sr, sc) <= width * height,
    ensures
        f.zone_clear(sr, sc),
{
    if !f.zone_clear(sr, sc) {
        let (i, j) = choose|i: int, j: int|
            f.in_bounds(i, j) && adjacent(sr, sc, i, j) && (#[trigger] f.cell_at(i, j)).cell == CellType::Mine;
        assert forall|r: int, c: int|
            0 <= r < f.grid@.len() && 0 <= c < width && free_pred()(#[trigger] f.grid@[r]@[c]) implies sr - 1
            <= r <= sr + 1 && sc - 1 <= c <= sc + 1 by {
            assert(f.cell_at(r, c) == f.grid@[r]@[c]);
        }
        assert(f.cell_at(i, j) == f.grid@[i]@[j]);
        lemma_grid_band(f.grid@, free_pred(), width, sr - 1, sr + 1, sc - 1, sc + 1, i, j);
        lemma_count_mine_free(f.grid@, width);
        assert(height * width == width * height) by (nonlinear_arith);
    }
}

} // verus!
