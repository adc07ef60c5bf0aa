//! Counting the cells of a grid that satisfy a predicate.

use vstd::prelude::*;
use crate::field::{Cell, CellState, CellType};

verus! {

/// A cell that holds a mine.
pub open spec fn mine_pred() -> spec_fn(Cell) -> bool {
    |c: Cell| c.cell == CellType::Mine
}

/// A cell that holds no mine.
pub open spec fn free_pred() -> spec_fn(Cell) -> bool {
    |c: Cell| c.cell != CellType::Mine
}

/// A mine that is not flagged.
pub open spec fn hidden_mine_pred() -> spec_fn(Cell) -> bool {
    |c: Cell| c.cell == CellType::Mine && c.state != CellState::Flagged
}

/// A flagged cell.
pub open spec fn flagged_pred() -> spec_fn(Cell) -> bool {
    |c: Cell| c.state == CellState::Flagged
}

/// A cell that is open or flagged.
pub open spec fn unclosed_pred() -> spec_fn(Cell) -> bool {
    |c: Cell| c.state != CellState::Closed
}

/// A closed cell.
pub open spec fn closed_pred() -> spec_fn(Cell) -> bool {
    |c: Cell| c.state == CellState::Closed
}

/// Number of cells of `row` that satisfy `f`.
pub open spec fn row_count(row: Seq<Cell>, f: spec_fn(Cell) -> bool) -> nat
    decreases row.len(),
{
    if row.len() == 0 {
        0
    } else {
        row_count(row.drop_last(), f) + if f(row.last()) { 1nat } else { 0nat }
    }
}

/// Number of cells of the grid `g` that satisfy `f`.
pub open spec fn grid_count(g: Seq<Vec<Cell>>, f: spec_fn(Cell) -> bool) -> nat
    decreases g.len(),
{
    if g.len() == 0 {
        0
    } else {
        grid_count(g.drop_last(), f) + row_count(g.last()@, f)
    }
}

pub proof fn lemma_row_count_update(row: Seq<Cell>, i: int, v: Cell, f: spec_fn(Cell) -> bool)
    requires
        0 <= i < row.len(),
    ensures
        row_count(row.update(i, v), f) + (if f(row[i]) { 1int } else { 0int })
            == row_count(row, f) + (if f(v) { 1int } else { 0int }),
    decreases row.len(),
{
    if i < row.len() - 1 {
        lemma_row_count_update(row.drop_last(), i, v, f);
        assert(row.update(i, v).drop_last() =~= row.drop_last().update(i, v));
    } else {
        assert(row.update(i, v).drop_last() =~= row.drop_last());
    }
}

pub proof fn lemma_grid_count_update(g: Seq<Vec<Cell>>, r: int, nr: Vec<Cell>, f: spec_fn(Cell) -> bool)
    requires
        0 <= r < g.len(),
    ensures
        grid_count(g.update(r, nr), f) + row_count(g[r]@, f) == grid_count(g, f) + row_count(nr@, f),
    decreases g.len(),
{
    if r < g.len() - 1 {
        lemma_grid_count_update(g.drop_last(), r, nr, f);
        assert(g.update(r, nr).drop_last() =~= g.drop_last().update(r, nr));
    } else {
        assert(g.update(r, nr).drop_last() =~= g.drop_last());
    }
}

pub proof fn lemma_row_count_pos(row: Seq<Cell>, i: int, f: spec_fn(Cell) -> bool)
    requires
        0 <= i < row.len(),
        f(row[i]),
    ensures
        row_count(row, f) > 0,
    decreases row.len(),
{
    if i < row.len() - 1 {
        lemma_row_count_pos(row.drop_last(), i, f);
    }
}

pub proof fn lemma_grid_count_pos(g: Seq<Vec<Cell>>, r: int, c: int, f: spec_fn(Cell) -> bool)
    requires
        0 <= r < g.len(),
        0 <= c < g[r]@.len(),
        f(g[r]@[c]),
    ensures
        grid_count(g, f) > 0,
    decreases g.len(),
{
    if r < g.len() - 1 {
        lemma_grid_count_pos(g.drop_last(), r, c, f);
    } else {
        lemma_row_count_pos(g[r]@, c, f);
    }
}

pub proof fn lemma_row_count_le(row: Seq<Cell>, f: spec_fn(Cell) -> bool)
    ensures
        row_count(row, f) <= row.len(),
    decreases row.len(),
{
    if row.len() > 0 {
        lemma_row_count_le(row.drop_last(), f);
    }
}

/// Mines and cells without a mine add up to the number of cells.
pub proof fn lemma_count_mine_free(g: Seq<Vec<Cell>>, w: int)
    requires
        forall|r: int| 0 <= r < g.len() ==> #[trigger] g[r]@.len() == w,
        w >= 0,
    ensures
        grid_count(g, mine_pred()) + grid_count(g, free_pred()) == g.len() * w,
    decreases g.len(),
{
    if g.len() > 0 {
        lemma_count_mine_free(g.drop_last(), w);
        lemma_row_mine_free(g.last()@);
        assert(g.len() * w == (g.len() - 1) * w + w) by (nonlinear_arith);
    }
}

pub proof fn lemma_row_mine_free(row: Seq<Cell>)
    ensures
        row_count(row, mine_pred()) + row_count(row, free_pred()) == row.len(),
    decreases row.len(),
{
    if row.len() > 0 {
        lemma_row_mine_free(row.drop_last());
    }
}

pub proof fn lemma_grid_count_le(g: Seq<Vec<Cell>>, w: int, f: spec_fn(Cell) -> bool)
    requires
        forall|r: int| 0 <= r < g.len() ==> #[trigger] g[r]@.len() == w,
        w >= 0,
    ensures
        grid_count(g, f) <= g.len() * w,
    decreases g.len(),
{
    if g.len() > 0 {
        lemma_grid_count_le(g.drop_last(), w, f);
        lemma_row_count_le(g.last()@, f);
        assert(g.len() * w == (g.len() - 1) * w + w) by (nonlinear_arith);
    }
}

pub proof fn lemma_row_count_same(a: Seq<Cell>, b: Seq<Cell>, f: spec_fn(Cell) -> bool)
    requires
        a.len() == b.len(),
        forall|j: int| 0 <= j < a.len() ==> f(#[trigger] a[j]) == f(b[j]),
    ensures
        row_count(a, f) == row_count(b, f),
    decreases a.len(),
{
    if a.len() > 0 {
        lemma_row_count_same(a.drop_last(), b.drop_last(), f);
    }
}

pub proof fn lemma_grid_count_same(a: Seq<Vec<Cell>>, b: Seq<Vec<Cell>>, f: spec_fn(Cell) -> bool)
    requires
        a.len() == b.len(),
        forall|r: int| 0 <= r < a.len() ==> (#[trigger] a[r])@.len() == b[r]@.len(),
        forall|r: int, j: int|
            0 <= r < a.len() && 0 <= j < a[r]@.len() ==> f(#[trigger] a[r]@[j]) == f(b[r]@[j]),
    ensures
        grid_count(a, f) == grid_count(b, f),
    decreases a.len(),
{
    if a.len() > 0 {
        lemma_grid_count_same(a.drop_last(), b.drop_last(), f);
        let r = a.len() - 1;
        assert forall|j: int| 0 <= j < a[r]@.len() implies f(#[trigger] a[r]@[j]) == f(b[r]@[j]) by {}
        lemma_row_count_same(a.last()@, b.last()@, f);
    }
}

pub proof fn lemma_row_count_none(row: Seq<Cell>, f: spec_fn(Cell) -> bool)
    requires
        forall|j: int| 0 <= j < row.len() ==> !f(#[trigger] row[j]),
    ensures
        row_count(row, f) == 0,
    decreases row.len(),
{
    if row.len() > 0 {
        lemma_row_count_none(row.drop_last(), f);
    }
}

pub proof fn lemma_grid_count_none(g: Seq<Vec<Cell>>, f: spec_fn(Cell) -> bool)
    requires
        forall|r: int, j: int| 0 <= r < g.len() && 0 <= j < g[r]@.len() ==> !f(#[trigger] g[r]@[j]),
    ensures
        grid_count(g, f) == 0,
    decreases g.len(),
{
    if g.len() > 0 {
        lemma_grid_count_none(g.drop_last(), f);
        let r = g.len() - 1;
        assert forall|j: int| 0 <= j < g[r]@.len() implies !f(#[trigger] g[r]@[j]) by {}
        lemma_row_count_none(g.last()@, f);
    }
}

/// How many cells of `g` satisfying `f` come before (r, c) in row-major order.
pub open spec fn count_before(g: Seq<Vec<Cell>>, r: int, c: int, f: spec_fn(Cell) -> bool) -> nat {
    grid_count(g.take(r), f) + row_count(g[r]@.take(c), f)
}

pub proof fn lemma_row_count_complement(row: Seq<Cell>, f: spec_fn(Cell) -> bool, g: spec_fn(Cell) -> bool)
    requires
        forall|c: Cell| #[trigger] f(c) == !g(c),
    ensures
        row_count(row, f) + row_count(row, g) == row.len(),
    decreases row.len(),
{
    if row.len() > 0 {
        lemma_row_count_complement(row.drop_last(), f, g);
    }
}

/// A count and the count of the opposite predicate add up to the number of cells.
pub proof fn lemma_grid_count_complement(g: Seq<Vec<Cell>>, w: int, f: spec_fn(Cell) -> bool, h: spec_fn(Cell) -> bool)
    requires
        forall|r: int| 0 <= r < g.len() ==> #[trigger] g[r]@.len() == w,
        w >= 0,
        forall|c: Cell| #[trigger] f(c) == !h(c),
    ensures
        grid_count(g, f) + grid_count(g, h) == g.len() * w,
    decreases g.len(),
{
    if g.len() > 0 {
        lemma_grid_count_complement(g.drop_last(), w, f, h);
        lemma_row_count_complement(g.last()@, f, h);
        assert(g.len() * w == (g.len() - 1) * w + w) by (nonlinear_arith);
    }
}

} // verus!
