use rand::Rng;
use vstd::prelude::*;
use crate::count::{
    closed_pred, count_before, flagged_pred, free_pred, grid_count, hidden_mine_pred,
    lemma_count_mine_free, lemma_grid_count_le, lemma_grid_count_none, lemma_grid_count_same,
    lemma_grid_count_update, lemma_row_count_le, lemma_row_count_update, mine_pred, row_count,
    lemma_grid_count_complement, lemma_grid_count_pos, unclosed_pred,
};

verus! {

/// What a cell holds.
#[derive(Clone, Copy, Debug, PartialEq, Eq, Structural)]
pub enum CellType {
    Empty,
    Mine,
    Num(u8),
}

/// What the player sees of a cell.
#[derive(Clone, Copy, Debug, PartialEq, Eq, Structural)]
pub enum CellState {
    Open,
    Closed,
    Flagged,
}

/// One square of the board.
#[derive(Clone, Copy, Debug, PartialEq, Eq, Structural)]
pub struct Cell {
    pub cell: CellType,
    pub state: CellState,
}

/// The board: `height` rows of `width` cells, and the flags the player has
/// left, which goes below zero when more cells are flagged than there are mines.
pub struct Field {
    pub grid: Vec<Vec<Cell>>,
    pub width: usize,
    pub height: usize,
    pub num_of_flags_left: isize,
}

/// Changing one cell changes a count by at most that cell's own contribution.
pub proof fn lemma_count_after_set(before: Field, after: Field, r: int, c: int, f: spec_fn(Cell) -> bool)
    requires
        before.shaped(),
        before.in_bounds(r, c),
        after.grid@ == before.grid@.update(r, after.grid@[r]),
        after.grid@[r]@ == before.grid@[r]@.update(c, after.cell_at(r, c)),
    ensures
        after.count(f) + (if f(before.cell_at(r, c)) { 1int } else { 0int })
            == before.count(f) + (if f(after.cell_at(r, c)) { 1int } else { 0int }),
{
    lemma_row_count_update(before.grid@[r]@, c, after.cell_at(r, c), f);
    lemma_grid_count_update(before.grid@, r, after.grid@[r], f);
}

/// Two cells are neighbours when they differ by at most one in each coordinate.
pub open spec fn adjacent(r1: int, c1: int, r2: int, c2: int) -> bool {
    -1 <= r1 - r2 <= 1 && -1 <= c1 - c2 <= 1
}

/// Two boards of one shape that agree on `f` at every cell have the same count of it.
pub proof fn lemma_count_same(a: Field, b: Field, f: spec_fn(Cell) -> bool)
    requires
        a.shaped(),
        b.shaped(),
        a.width == b.width,
        a.height == b.height,
        forall|i: int, j: int| a.in_bounds(i, j) ==> f(#[trigger] a.cell_at(i, j)) == f(b.cell_at(i, j)),
    ensures
        a.count(f) == b.count(f),
{
    assert forall|r: int, j: int|
        0 <= r < a.grid@.len() && 0 <= j < a.grid@[r]@.len() implies f(#[trigger] a.grid@[r]@[j])
        == f(b.grid@[r]@[j]) by {
        assert(a.cell_at(r, j) == a.grid@[r]@[j]);
    }
    lemma_grid_count_same(a.grid@, b.grid@, f);
}

/// Mine counts around a cell depend on where the mines are, and on nothing else.
pub proof fn lemma_around_same_mines(a: Field, b: Field, r: int, c: int)
    requires
        a.width == b.width,
        a.height == b.height,
        forall|i: int, j: int|
            a.in_bounds(i, j) ==> ((#[trigger] a.cell_at(i, j)).cell == CellType::Mine) == (b.cell_at(
                i,
                j,
            ).cell == CellType::Mine),
    ensures
        a.around(r, c, mine_pred()) == b.around(r, c, mine_pred()),
{
    assert(a.ind(r - 1, c - 1, mine_pred()) == b.ind(r - 1, c - 1, mine_pred()));
    assert(a.ind(r - 1, c, mine_pred()) == b.ind(r - 1, c, mine_pred()));
    assert(a.ind(r - 1, c + 1, mine_pred()) == b.ind(r - 1, c + 1, mine_pred()));
    assert(a.ind(r, c - 1, mine_pred()) == b.ind(r, c - 1, mine_pred()));
    assert(a.ind(r, c + 1, mine_pred()) == b.ind(r, c + 1, mine_pred()));
    assert(a.ind(r + 1, c - 1, mine_pred()) == b.ind(r + 1, c - 1, mine_pred()));
    assert(a.ind(r + 1, c, mine_pred()) == b.ind(r + 1, c, mine_pred()));
    assert(a.ind(r + 1, c + 1, mine_pred()) == b.ind(r + 1, c + 1, mine_pred()));
}

/// On a numbered board without flags, a reveal spreads only out of empty
/// cells, so every cell the first move opens lies on a walk of empty cells.
pub proof fn lemma_first_reveal_walk(before: Field, after: Field, r: int, c: int, i: int, j: int)
    requires
        before.shaped(),
        before.numbers_consistent(),
        forall|a: int, b: int| before.in_bounds(a, b) ==> (#[trigger] before.cell_at(a, b)).state == CellState::Closed,
        before.cell_at(r, c).cell != CellType::Mine,
        after.opened_from(before, r, c),
        after.in_bounds(i, j),
        after.cell_at(i, j).state == CellState::Open,
    ensures
        exists|p: Seq<(int, int)>| #[trigger] after.empty_walk(r, c, p) && p.last() == (i, j),
{
    assert(before.cell_at(i, j).state == CellState::Closed);
    let p = choose|p: Seq<(int, int)>| #[trigger] before.walk(r, c, p) && p.last() == (i, j);
    assert(before.around(r, c, flagged_pred()) == 0);
    assert forall|k: int| 0 <= k < p.len() - 1 implies adjacent((#[trigger] p[k]).0, p[k].1, p[k + 1].0, p[k + 1].1)
        && after.cell_at(p[k].0, p[k].1).cell == CellType::Empty by {
        assert(before.spreads(r, c, p[k].0, p[k].1));
        assert(before.in_bounds(p[k].0, p[k].1));
        assert(after.cell_at(p[k].0, p[k].1).cell == before.cell_at(p[k].0, p[k].1).cell);
    }
    assert forall|k: int| 0 <= k < p.len() implies after.in_bounds((#[trigger] p[k]).0, p[k].1) by {
        assert(before.in_bounds(p[k].0, p[k].1));
    }
    assert(after.empty_walk(r, c, p));
}

/// The walk of one cell reaches the start.
pub proof fn lemma_walk_start(f: Field, r: int, c: int)
    requires
        f.in_bounds(r, c),
    ensures
        f.reached(r, c, r, c),
{
    let p = seq![(r, c)];
    assert(f.walk(r, c, p));
}

/// A walk that ends in a cell the reveal spreads out of goes on to any neighbour.
pub proof fn lemma_walk_step(f: Field, r: int, c: int, p: Seq<(int, int)>, i: int, j: int)
    requires
        f.walk(r, c, p),
        f.spreads(r, c, p.last().0, p.last().1),
        adjacent(p.last().0, p.last().1, i, j),
        f.in_bounds(i, j),
    ensures
        f.walk(r, c, p.push((i, j))),
        f.reached(r, c, i, j),
{
    let q = p.push((i, j));
    assert forall|k: int| 0 <= k < q.len() - 1 implies adjacent((#[trigger] q[k]).0, q[k].1, q[k + 1].0, q[k + 1].1)
        && f.spreads(r, c, q[k].0, q[k].1) by {
        if k < p.len() - 1 {
            assert(q[k] == p[k] && q[k + 1] == p[k + 1]);
        } else {
            assert(q[k] == p.last());
        }
    }
    assert forall|k: int| 0 <= k < q.len() implies f.in_bounds((#[trigger] q[k]).0, q[k].1) by {
        if k < p.len() {
            assert(q[k] == p[k]);
        }
    }
    assert(q.last() == (i, j));
    assert(f.walk(r, c, q));
    assert(f.walk(r, c, q) && q.last() == (i, j));
}

/// Scanning `m` in row-major order from (r, c), rows being `w` long: the
/// `n`-th cell (counting from 0) that holds no mine, or (-1, -1) if there is none.
pub open spec fn nth_free_from(m: Seq<Seq<bool>>, w: int, n: int, r: int, c: int) -> (int, int)
    decreases m.len() - r, w - c,
{
    if r < 0 || r >= m.len() || c < 0 {
        (-1, -1)
    } else if c >= w {
        nth_free_from(m, w, n, r + 1, 0)
    } else if !m[r][c] {
        if n == 0 {
            (r, c)
        } else {
            nth_free_from(m, w, n - 1, r, c + 1)
        }
    } else {
        nth_free_from(m, w, n, r, c + 1)
    }
}

/// `m` with a mine added at `p`.
pub open spec fn add_mine(m: Seq<Seq<bool>>, p: (int, int)) -> Seq<Seq<bool>> {
    m.update(p.0, m[p.0].update(p.1, true))
}

/// `m` with the mine at `p` taken away.
pub open spec fn remove_mine(m: Seq<Seq<bool>>, p: (int, int)) -> Seq<Seq<bool>> {
    m.update(p.0, m[p.0].update(p.1, false))
}

/// The mines that the draws `picks` place on an empty board of `h` rows of `w`
/// cells: draw k puts a mine on the `picks[k]`-th cell (from 0) without one,
/// in row-major order.
pub open spec fn drawn_mines(w: int, h: int, picks: Seq<usize>) -> Seq<Seq<bool>>
    decreases picks.len(),
{
    if picks.len() == 0 {
        Seq::new(h as nat, |i: int| Seq::new(w as nat, |j: int| false))
    } else {
        let m = drawn_mines(w, h, picks.drop_last());
        add_mine(m, nth_free_from(m, w, picks.last() as int, 0, 0))
    }
}

/// Scanning `m` in row-major order from (r, c), rows being `w` long: the first
/// cell without a mine outside the three-by-three square around (sr, sc), or
/// (-1, -1) if there is none.
pub open spec fn free_outside_from(m: Seq<Seq<bool>>, w: int, sr: int, sc: int, r: int, c: int) -> (int, int)
    decreases m.len() - r, w - c,
{
    if r < 0 || r >= m.len() || c < 0 {
        (-1, -1)
    } else if c >= w {
        free_outside_from(m, w, sr, sc, r + 1, 0)
    } else if !m[r][c] && !adjacent(sr, sc, r, c) {
        (r, c)
    } else {
        free_outside_from(m, w, sr, sc, r, c + 1)
    }
}

/// The mines of `m` (`h` rows of `w` cells) after the one at (i), if there is
/// one, is moved away from the start cell (sr, sc): to the first cell without a
/// mine outside the square around the start; when there is none and the mine
/// is on the start cell, to the first cell without a mine.
pub open spec fn move_mine(m: Seq<Seq<bool>>, w: int, h: int, sr: int, sc: int, i: (int, int)) -> Seq<Seq<bool>> {
    if !(0 <= i.0 < h && 0 <= i.1 < w) || !m[i.0][i.1] {
        m
    } else {
        let t = free_outside_from(m, w, sr, sc, 0, 0);
        if t.0 >= 0 {
            add_mine(remove_mine(m, i), t)
        } else if i.0 == sr && i.1 == sc {
            add_mine(remove_mine(m, i), nth_free_from(m, w, 0, 0, 0))
        } else {
            m
        }
    }
}

/// The `k`-th cell (from 0) of the three-by-three square around (sr, sc), in row-major order.
pub open spec fn square_cell(sr: int, sc: int, k: int) -> (int, int) {
    (sr + k / 3 - 1, sc + k % 3 - 1)
}

/// The mines of `m` after the mines on the first `k` cells of the square
/// around (sr, sc), in row-major order, are moved one by one (see `move_mine`).
pub open spec fn cleared_upto(m: Seq<Seq<bool>>, w: int, h: int, sr: int, sc: int, k: int) -> Seq<Seq<bool>>
    decreases k,
{
    if k <= 0 {
        m
    } else {
        move_mine(cleared_upto(m, w, h, sr, sc, k - 1), w, h, sr, sc, square_cell(sr, sc, k - 1))
    }
}

/// The content a cell without a mine gets from the number of mines around it.
pub open spec fn num_content(n: nat) -> CellType {
    if n == 0 {
        CellType::Empty
    } else {
        CellType::Num(n as u8)
    }
}

/// Relies on rand::Rng::gen_range over rand::thread_rng(): a number drawn from 0..n.
#[verifier::external_body]
fn random_below(n: usize) -> (r: usize)
    requires
        n > 0,
    ensures
        r < n,
{
    rand::thread_rng().gen_range(0..n)
}

impl Field {
    /// The grid is `height` rows of `width` cells, and its size fits the machine.
    pub open spec fn shaped(&self) -> bool {
        &&& self.width > 0
        &&& self.height > 0
        &&& self.width <= isize::MAX
        &&& self.height <= isize::MAX
        &&& self.width * self.height <= isize::MAX
        &&& self.grid@.len() == self.height
        &&& forall|r: int| 0 <= r < self.height ==> #[trigger] self.grid@[r]@.len() == self.width
    }

    pub open spec fn in_bounds(&self, r: int, c: int) -> bool {
        0 <= r < self.height && 0 <= c < self.width
    }

    pub open spec fn cell_at(&self, r: int, c: int) -> Cell {
        self.grid@[r]@[c]
    }

    /// Where the mines are: `true` at each cell that holds one.
    pub open spec fn mine_map(&self) -> Seq<Seq<bool>> {
        Seq::new(
            self.height as nat,
            |i: int| Seq::new(self.width as nat, |j: int| self.cell_at(i, j).cell == CellType::Mine),
        )
    }

    pub open spec fn count(&self, f: spec_fn(Cell) -> bool) -> nat {
        grid_count(self.grid@, f)
    }

    /// The board is won: every mine flagged, no cell left closed, no flag to spare.
    pub open spec fn won(&self) -> bool {
        self.count(hidden_mine_pred()) == 0 && self.count(closed_pred()) == 0
            && self.num_of_flags_left == 0
    }

    /// Whether (row, column) is on the board.
    pub fn is_valid(&self, row: isize, column: isize) -> (r: bool)
        requires
            self.wf(),
        ensures
            r == self.in_bounds(row as int, column as int),
    {
        row < self.height as isize && row >= 0 && column < self.width as isize && column >= 0
    }

    /// Counts the unflagged mines (`hidden_mines`) or else the closed cells.
    fn count_cells(&self, Ghost(f): Ghost<spec_fn(Cell) -> bool>, hidden_mines: bool) -> (n: usize)
        requires
            self.shaped(),
            hidden_mines ==> f == hidden_mine_pred(),
            !hidden_mines ==> f == closed_pred(),
        ensures
            n == self.count(f),
    {
        let mut result: usize = 0;
        let mut r: usize = 0;
        while r < self.height
            invariant
                self.shaped(),
                hidden_mines ==> f == hidden_mine_pred(),
                !hidden_mines ==> f == closed_pred(),
                r <= self.height,
                result == grid_count(self.grid@.take(r as int), f),
            decreases self.height - r,
        {
            let row = &self.grid[r];
            let mut c: usize = 0;
            let ghost before = result;
            proof {
                lemma_grid_count_le(self.grid@.take(r as int), self.width as int, f);
                assert(r * self.width + self.width <= self.width * self.height) by (nonlinear_arith)
                    requires r < self.height;
            }
            while c < self.width
                invariant
                    self.shaped(),
                    hidden_mines ==> f == hidden_mine_pred(),
                    !hidden_mines ==> f == closed_pred(),
                    r < self.height,
                    c <= self.width,
                    row == self.grid@[r as int],
                    before == grid_count(self.grid@.take(r as int), f),
                    before <= r * self.width,
                    r * self.width + self.width <= self.width * self.height,
                    result == before + row_count(row@.take(c as int), f),
                decreases self.width - c,
            {
                let cell = row[c];
                proof {
                    lemma_row_count_le(row@.take(c as int), f);
                    assert(row@.take(c as int + 1).drop_last() =~= row@.take(c as int));
                }
                let hit = if hidden_mines {
                    cell.cell == CellType::Mine && cell.state != CellState::Flagged
                } else {
                    cell.state == CellState::Closed
                };
                if hit {
                    result = result + 1;
                }
                c = c + 1;
            }
            proof {
                assert(row@.take(c as int) =~= row@);
                assert(self.grid@.take(r as int + 1).drop_last() =~= self.grid@.take(r as int));
            }
            r = r + 1;
        }
        proof {
            assert(self.grid@.take(r as int) =~= self.grid@);
        }
        result
    }

    /// `self` has the same shape as `before` and every cell other than (r, c) is unchanged.
    pub open spec fn same_except(&self, before: Field, r: int, c: int) -> bool {
        &&& self.width == before.width
        &&& self.height == before.height
        &&& forall|i: int, j: int|
            self.in_bounds(i, j) && !(i == r && j == c) ==> #[trigger] self.cell_at(i, j)
                == before.cell_at(i, j)
        &&& self.cell_at(r, c).cell == before.cell_at(r, c).cell
    }

    fn set_state(&mut self, r: usize, c: usize, state: CellState)
        requires
            old(self).shaped(),
            old(self).in_bounds(r as int, c as int),
        ensures
            final(self).shaped(),
            final(self).same_except(*old(self), r as int, c as int),
            final(self).cell_at(r as int, c as int).state == state,
            final(self).num_of_flags_left == old(self).num_of_flags_left,
            final(self).grid@ == old(self).grid@.update(r as int, final(self).grid@[r as int]),
            final(self).grid@[r as int]@ == old(self).grid@[r as int]@.update(c as int, final(self).cell_at(r as int, c as int)),
    {
        self.grid[r][c].state = state;
    }

    fn set_content(&mut self, r: usize, c: usize, content: CellType)
        requires
            old(self).shaped(),
            old(self).in_bounds(r as int, c as int),
        ensures
            final(self).shaped(),
            final(self).width == old(self).width,
            final(self).height == old(self).height,
            forall|i: int, j: int|
                final(self).in_bounds(i, j) && !(i == r && j == c) ==> #[trigger] final(self).cell_at(i, j)
                    == old(self).cell_at(i, j),
            final(self).cell_at(r as int, c as int).cell == content,
            final(self).cell_at(r as int, c as int).state == old(self).cell_at(r as int, c as int).state,
            final(self).num_of_flags_left == old(self).num_of_flags_left,
            final(self).grid@ == old(self).grid@.update(r as int, final(self).grid@[r as int]),
            final(self).grid@[r as int]@ == old(self).grid@[r as int]@.update(c as int, final(self).cell_at(r as int, c as int)),
    {
        self.grid[r][c].cell = content;
    }

    /// The flag counter is no more than the cells without a flag, and no less
    /// than minus the cells that are open or flagged.
    pub open spec fn counter_in_range(&self) -> bool {
        &&& self.num_of_flags_left + self.count(flagged_pred()) <= self.width * self.height
        &&& self.num_of_flags_left + self.count(unclosed_pred()) >= 0
    }

    /// A valid board: the grid has its shape and the flag counter is in range.
    pub open spec fn wf(&self) -> bool {
        self.shaped() && self.counter_in_range()
    }

    /// `self` is `before` after toggling the flag at (r, c).
    pub open spec fn flagged_from(&self, before: Field, r: int, c: int) -> bool {
        &&& self.shaped()
        &&& self.same_except(before, r, c)
        &&& before.cell_at(r, c).state == CellState::Closed ==> {
            &&& self.cell_at(r, c).state == CellState::Flagged
            &&& self.num_of_flags_left == before.num_of_flags_left - 1
        }
        &&& before.cell_at(r, c).state == CellState::Flagged ==> {
            &&& self.cell_at(r, c).state == CellState::Closed
            &&& self.num_of_flags_left == before.num_of_flags_left + 1
        }
        &&& before.cell_at(r, c).state == CellState::Open ==> {
            &&& self.cell_at(r, c).state == CellState::Open
            &&& self.num_of_flags_left == before.num_of_flags_left
        }
    }

    /// Toggles the flag on a closed or flagged cell; an open cell is left alone.
    pub fn flag_at(&mut self, row: usize, column: usize)
        requires
            old(self).wf(),
            old(self).in_bounds(row as int, column as int),
        ensures
            final(self).flagged_from(*old(self), row as int, column as int),
            final(self).wf(),
    {
        let ghost before = *self;
        proof {
            lemma_grid_count_complement(self.grid@, self.width as int, unclosed_pred(), closed_pred());
            assert(self.grid@.len() * self.width == self.width * self.height) by (nonlinear_arith)
                requires self.grid@.len() == self.height;
        }
        if self.grid[row][column].state == CellState::Closed {
            proof {
                lemma_grid_count_pos(self.grid@, row as int, column as int, closed_pred());
            }
            self.set_state(row, column, CellState::Flagged);
            self.num_of_flags_left = self.num_of_flags_left - 1;
            proof {
                lemma_count_after_set(before, *self, row as int, column as int, flagged_pred());
                lemma_count_after_set(before, *self, row as int, column as int, unclosed_pred());
            }
        } else if self.grid[row][column].state == CellState::Flagged {
            proof {
                lemma_grid_count_pos(self.grid@, row as int, column as int, flagged_pred());
            }
            self.set_state(row, column, CellState::Closed);
            self.num_of_flags_left = self.num_of_flags_left + 1;
            proof {
                lemma_count_after_set(before, *self, row as int, column as int, flagged_pred());
                lemma_count_after_set(before, *self, row as int, column as int, unclosed_pred());
            }
        }
    }

    /// Opens every cell that holds a mine; no other cell changes.
    pub fn uncover_mines(&mut self)
        requires
            old(self).wf(),
        ensures
            final(self).shaped(),
            final(self).width == old(self).width,
            final(self).height == old(self).height,
            final(self).num_of_flags_left == old(self).num_of_flags_left,
            final(self).wf(),
            forall|i: int, j: int|
                old(self).in_bounds(i, j) ==> {
                    &&& (#[trigger] final(self).cell_at(i, j)).cell == old(self).cell_at(i, j).cell
                    &&& final(self).cell_at(i, j).state == if old(self).cell_at(i, j).cell
                        == CellType::Mine {
                        CellState::Open
                    } else {
                        old(self).cell_at(i, j).state
                    }
                },
    {
        let mut r: usize = 0;
        while r < self.height
            invariant
                self.shaped(),
                r <= self.height,
                self.width == old(self).width,
                self.height == old(self).height,
                self.num_of_flags_left == old(self).num_of_flags_left,
                self.count(flagged_pred()) <= old(self).count(flagged_pred()),
                self.count(unclosed_pred()) >= old(self).count(unclosed_pred()),
                forall|i: int, j: int|
                    old(self).in_bounds(i, j) ==> {
                        &&& (#[trigger] self.cell_at(i, j)).cell == old(self).cell_at(i, j).cell
                        &&& self.cell_at(i, j).state == if i < r && old(self).cell_at(i, j).cell
                            == CellType::Mine {
                            CellState::Open
                        } else {
                            old(self).cell_at(i, j).state
                        }
                    },
            decreases self.height - r,
        {
            let mut c: usize = 0;
            while c < self.width
                invariant
                    self.shaped(),
                    r < self.height,
                    c <= self.width,
                    self.width == old(self).width,
                    self.height == old(self).height,
                    self.num_of_flags_left == old(self).num_of_flags_left,
                    self.count(flagged_pred()) <= old(self).count(flagged_pred()),
                    self.count(unclosed_pred()) >= old(self).count(unclosed_pred()),
                    forall|i: int, j: int|
                        old(self).in_bounds(i, j) ==> {
                            &&& (#[trigger] self.cell_at(i, j)).cell == old(self).cell_at(i, j).cell
                            &&& self.cell_at(i, j).state == if (i < r || (i == r && j < c))
                                && old(self).cell_at(i, j).cell == CellType::Mine {
                                CellState::Open
                            } else {
                                old(self).cell_at(i, j).state
                            }
                        },
                decreases self.width - c,
            {
                if self.grid[r][c].cell == CellType::Mine {
                    let ghost prev = *self;
                    self.set_state(r, c, CellState::Open);
                    proof {
                        lemma_count_after_set(prev, *self, r as int, c as int, flagged_pred());
                        lemma_count_after_set(prev, *self, r as int, c as int, unclosed_pred());
                    }
                }
                c = c + 1;
            }
            r = r + 1;
        }
    }

    /// 1 when (r, c) is on the board and its cell satisfies `f`.
    pub open spec fn ind(&self, r: int, c: int, f: spec_fn(Cell) -> bool) -> nat {
        if self.in_bounds(r, c) && f(self.cell_at(r, c)) {
            1
        } else {
            0
        }
    }

    /// How many of the up to eight neighbours of (r, c) satisfy `f`.
    pub open spec fn around(&self, r: int, c: int, f: spec_fn(Cell) -> bool) -> nat {
        self.ind(r - 1, c - 1, f) + self.ind(r - 1, c, f) + self.ind(r - 1, c + 1, f)
            + self.ind(r, c - 1, f) + self.ind(r, c + 1, f)
            + self.ind(r + 1, c - 1, f) + self.ind(r + 1, c, f) + self.ind(r + 1, c + 1, f)
    }

    /// Opening (r, c) spreads to its neighbours: the cell is empty, or a number
    /// with exactly that many flagged neighbours.
    pub open spec fn cascades(&self, r: int, c: int) -> bool {
        match self.cell_at(r, c).cell {
            CellType::Empty => true,
            CellType::Num(n) => self.around(r, c, flagged_pred()) == n,
            CellType::Mine => false,
        }
    }

    /// A reveal started at (r, c) spreads out of (i, j): it is the opened cell
    /// and cascades, or it is a closed empty cell.
    pub open spec fn spreads(&self, r: int, c: int, i: int, j: int) -> bool {
        (i == r && j == c && self.cascades(r, c)) || (self.cell_at(i, j).state == CellState::Closed
            && self.cell_at(i, j).cell == CellType::Empty)
    }

    /// `p` is a walk from (r, c): every cell of it is on the board and next to
    /// the one before it, and the reveal spreads out of every cell but the last.
    pub open spec fn walk(&self, r: int, c: int, p: Seq<(int, int)>) -> bool {
        &&& p.len() > 0
        &&& p[0] == (r, c)
        &&& forall|k: int| 0 <= k < p.len() ==> self.in_bounds((#[trigger] p[k]).0, p[k].1)
        &&& forall|k: int|
            0 <= k < p.len() - 1 ==> adjacent((#[trigger] p[k]).0, p[k].1, p[k + 1].0, p[k + 1].1)
                && self.spreads(r, c, p[k].0, p[k].1)
    }

    /// `p` is a walk from (r, c) on the board, each cell next to the one before
    /// it, and every cell but the last is `Empty`.
    pub open spec fn empty_walk(&self, r: int, c: int, p: Seq<(int, int)>) -> bool {
        &&& p.len() > 0
        &&& p[0] == (r, c)
        &&& forall|k: int| 0 <= k < p.len() ==> self.in_bounds((#[trigger] p[k]).0, p[k].1)
        &&& forall|k: int|
            0 <= k < p.len() - 1 ==> adjacent((#[trigger] p[k]).0, p[k].1, p[k + 1].0, p[k + 1].1)
                && self.cell_at(p[k].0, p[k].1).cell == CellType::Empty
    }

    /// Some walk from (r, c) ends at (i, j).
    pub open spec fn reached(&self, r: int, c: int, i: int, j: int) -> bool {
        exists|p: Seq<(int, int)>| #[trigger] self.walk(r, c, p) && p.last() == (i, j)
    }

    /// No neighbour of (r, c) is a closed cell without a mine.
    pub open spec fn settled(&self, r: int, c: int) -> bool {
        forall|i: int, j: int|
            self.in_bounds(i, j) && adjacent(r, c, i, j) ==> !(#[trigger] self.cell_at(i, j).state
                == CellState::Closed && self.cell_at(i, j).cell != CellType::Mine)
    }

    /// Contents, shape and flag counter are those of `before`, and every cell
    /// whose state changed went from closed to open and holds no mine.
    pub open spec fn opens_only_safe(&self, before: Field, r: int, c: int) -> bool {
        &&& self.shaped()
        &&& self.width == before.width
        &&& self.height == before.height
        &&& self.num_of_flags_left == before.num_of_flags_left
        &&& forall|i: int, j: int|
            self.in_bounds(i, j) ==> (#[trigger] self.cell_at(i, j)).cell == before.cell_at(i, j).cell
        &&& forall|i: int, j: int|
            self.in_bounds(i, j) && !(i == r && j == c) && (#[trigger] self.cell_at(i, j)).state
                != before.cell_at(i, j).state ==> {
                &&& before.cell_at(i, j).state == CellState::Closed
                &&& before.cell_at(i, j).cell != CellType::Mine
                &&& self.cell_at(i, j).state == CellState::Open
            }
    }

    /// `self` is `before` after a successful open of (r, c): the cell is open,
    /// and the reveal spread from it (if it cascades) and from every closed empty
    /// cell it opened, until no neighbour of those is a closed cell without a mine.
    pub open spec fn opened_from(&self, before: Field, r: int, c: int) -> bool {
        &&& self.opens_only_safe(before, r, c)
        &&& self.cell_at(r, c).state == CellState::Open
        &&& before.cascades(r, c) ==> self.settled(r, c)
        &&& !before.cascades(r, c) ==> forall|i: int, j: int|
            self.in_bounds(i, j) && !(i == r && j == c) ==> #[trigger] self.cell_at(i, j)
                == before.cell_at(i, j)
        &&& forall|i: int, j: int|
            self.in_bounds(i, j) && before.cell_at(i, j).state == CellState::Closed
                && before.cell_at(i, j).cell == CellType::Empty && (#[trigger] self.cell_at(i, j)).state
                == CellState::Open ==> self.settled(i, j)
        &&& forall|i: int, j: int|
            self.in_bounds(i, j) && (#[trigger] self.cell_at(i, j)).state != before.cell_at(i, j).state
                ==> before.reached(r, c, i, j)
    }

    /// 1 when (r, c) is on the board and holds a mine (`mines`) or a flag.
    fn occupied(&self, r: isize, c: isize, mines: bool) -> (n: u8)
        requires
            self.shaped(),
        ensures
            n == self.ind(r as int, c as int, if mines { mine_pred() } else { flagged_pred() }),
    {
        if r < 0 || c < 0 || r >= self.height as isize || c >= self.width as isize {
            return 0;
        }
        let cell = self.grid[r as usize][c as usize];
        if (mines && cell.cell == CellType::Mine) || (!mines && cell.state == CellState::Flagged) {
            1
        } else {
            0
        }
    }

    /// How many neighbours of (row, column) hold a mine (`mines`) or a flag.
    fn count_adjacent(&self, row: isize, column: isize, mines: bool) -> (n: u8)
        requires
            self.shaped(),
            self.in_bounds(row as int, column as int),
        ensures
            n == self.around(row as int, column as int, if mines { mine_pred() } else { flagged_pred() }),
            n <= 8,
    {
        self.occupied(row - 1, column - 1, mines) + self.occupied(row - 1, column, mines)
            + self.occupied(row - 1, column + 1, mines) + self.occupied(row, column - 1, mines)
            + self.occupied(row, column + 1, mines) + self.occupied(row + 1, column - 1, mines)
            + self.occupied(row + 1, column, mines) + self.occupied(row + 1, column + 1, mines)
    }

    /// How many neighbours of (row, column) are flagged.
    fn count_adjacent_flags(&self, row: isize, column: isize) -> (n: usize)
        requires
            self.shaped(),
            self.in_bounds(row as int, column as int),
        ensures
            n == self.around(row as int, column as int, flagged_pred()),
    {
        self.count_adjacent(row, column, false) as usize
    }

    /// Opens (i, j) if it is a closed cell without a mine, and queues it when it is empty.
    fn open_one(&mut self, i: isize, j: isize, stack: &mut Vec<(usize, usize)>)
        requires
            old(self).shaped(),
        ensures
            final(self).opens_only_safe(*old(self), i as int, j as int),
            forall|a: int, b: int|
                old(self).in_bounds(a, b) && !(a == i && b == j) ==> #[trigger] final(self).cell_at(a, b)
                    == old(self).cell_at(a, b),
            old(self).in_bounds(i as int, j as int) ==> {
                let was = old(self).cell_at(i as int, j as int);
                let now = final(self).cell_at(i as int, j as int);
                &&& !(now.state == CellState::Closed && now.cell != CellType::Mine)
                &&& now.state != was.state ==> was.state == CellState::Closed && was.cell != CellType::Mine
                    && now.state == CellState::Open
                &&& was.state == CellState::Closed && was.cell == CellType::Empty ==> final(stack)@
                    == old(stack)@.push((i as usize, j as usize))
            },
            !old(self).in_bounds(i as int, j as int) ==> final(self).cell_at(i as int, j as int)
                == old(self).cell_at(i as int, j as int),
            final(stack)@ == old(stack)@ || {
                &&& final(stack)@ == old(stack)@.push((i as usize, j as usize))
                &&& old(self).in_bounds(i as int, j as int)
                &&& old(self).cell_at(i as int, j as int).state == CellState::Closed
                &&& old(self).cell_at(i as int, j as int).cell == CellType::Empty
            },
            final(self).count(closed_pred()) + final(stack)@.len() <= old(self).count(closed_pred())
                + old(stack)@.len(),
            final(stack)@ != old(stack)@ || final(self).cell_at(i as int, j as int) != old(self).cell_at(i as int, j as int) ==>
                final(self).count(closed_pred()) < old(self).count(closed_pred()),
            final(self).count(flagged_pred()) == old(self).count(flagged_pred()),
            final(self).count(unclosed_pred()) >= old(self).count(unclosed_pred()),
    {
        if i < 0 || j < 0 || i >= self.height as isize || j >= self.width as isize {
            return;
        }
        let (r, c) = (i as usize, j as usize);
        let cell = self.grid[r][c];
        if cell.state == CellState::Closed && cell.cell != CellType::Mine {
            let ghost prev = *self;
            self.set_state(r, c, CellState::Open);
            proof {
                lemma_count_after_set(prev, *self, r as int, c as int, closed_pred());
                lemma_count_after_set(prev, *self, r as int, c as int, flagged_pred());
                lemma_count_after_set(prev, *self, r as int, c as int, unclosed_pred());
            }
            if cell.cell == CellType::Empty {
                stack.push((r, c));
            }
        }
    }

    /// Opens every closed neighbour of (r, c) that holds no mine, queueing the empty ones.
    fn open_neighbours(&mut self, r: usize, c: usize, stack: &mut Vec<(usize, usize)>)
        requires
            old(self).shaped(),
            old(self).in_bounds(r as int, c as int),
        ensures
            final(self).opens_only_safe(*old(self), -1, -1),
            final(self).settled(r as int, c as int),
            final(stack)@.len() >= old(stack)@.len(),
            forall|k: int| 0 <= k < old(stack)@.len() ==> final(stack)@[k] == old(stack)@[k],
            forall|k: int|
                old(stack)@.len() <= k < final(stack)@.len() ==> old(self).in_bounds(
                    (#[trigger] final(stack)@[k]).0 as int,
                    final(stack)@[k].1 as int,
                ) && old(self).cell_at(final(stack)@[k].0 as int, final(stack)@[k].1 as int).state
                    == CellState::Closed && old(self).cell_at(final(stack)@[k].0 as int, final(stack)@[k].1 as int).cell
                    == CellType::Empty
                    && final(self).cell_at(final(stack)@[k].0 as int, final(stack)@[k].1 as int).state == CellState::Open,
            forall|i: int, j: int|
                final(self).in_bounds(i, j) && (#[trigger] final(self).cell_at(i, j)).state != old(self).cell_at(i, j).state
                    ==> adjacent(r as int, c as int, i, j),
            forall|i: int, j: int|
                final(self).in_bounds(i, j) && old(self).cell_at(i, j).state == CellState::Closed
                    && old(self).cell_at(i, j).cell == CellType::Empty && (#[trigger] final(self).cell_at(
                    i,
                    j,
                )).state == CellState::Open ==> final(stack)@.contains((i as usize, j as usize)),
            final(self).count(closed_pred()) + final(stack)@.len() <= old(self).count(closed_pred())
                + old(stack)@.len(),
            final(self).count(flagged_pred()) == old(self).count(flagged_pred()),
            final(self).count(unclosed_pred()) >= old(self).count(unclosed_pred()),
    {
        let ghost entry = *self;
        let ghost entry_stack = stack@;
        let mut dr: isize = -1;
        while dr <= 1
            invariant
                entry.shaped(),
                entry.in_bounds(r as int, c as int),
                entry_stack == old(stack)@,
                entry == *old(self),
                -1 <= dr <= 2,
                self.opens_only_safe(entry, -1, -1),
                stack@.len() >= entry_stack.len(),
                forall|k: int| 0 <= k < entry_stack.len() ==> stack@[k] == entry_stack[k],
                forall|k: int|
                    entry_stack.len() <= k < stack@.len() ==> entry.in_bounds(
                        (#[trigger] stack@[k]).0 as int,
                        stack@[k].1 as int,
                    ) && entry.cell_at(stack@[k].0 as int, stack@[k].1 as int).state == CellState::Closed
                        && entry.cell_at(stack@[k].0 as int, stack@[k].1 as int).cell == CellType::Empty
                        && self.cell_at(stack@[k].0 as int, stack@[k].1 as int).state == CellState::Open,
                forall|i: int, j: int|
                    self.in_bounds(i, j) && (#[trigger] self.cell_at(i, j)).state != entry.cell_at(i, j).state
                        ==> adjacent(r as int, c as int, i, j),
                forall|i: int, j: int|
                    self.in_bounds(i, j) && entry.cell_at(i, j).state == CellState::Closed
                        && entry.cell_at(i, j).cell == CellType::Empty && (#[trigger] self.cell_at(
                        i,
                        j,
                    )).state == CellState::Open ==> stack@.contains((i as usize, j as usize)),
                self.count(closed_pred()) + stack@.len() <= entry.count(closed_pred())
                    + entry_stack.len(),
                self.count(flagged_pred()) == entry.count(flagged_pred()),
                self.count(unclosed_pred()) >= entry.count(unclosed_pred()),
                forall|i: int, j: int|
                    self.in_bounds(i, j) && adjacent(r as int, c as int, i, j) && i < r + dr
                        ==> !(#[trigger] self.cell_at(i, j).state == CellState::Closed
                        && self.cell_at(i, j).cell != CellType::Mine),
            decreases 2 - dr,
        {
            let mut dc: isize = -1;
            while dc <= 1
                invariant
                    entry.shaped(),
                    entry.in_bounds(r as int, c as int),
                    -1 <= dr <= 1,
                    -1 <= dc <= 2,
                    self.opens_only_safe(entry, -1, -1),
                    stack@.len() >= entry_stack.len(),
                    forall|k: int| 0 <= k < entry_stack.len() ==> stack@[k] == entry_stack[k],
                    forall|k: int|
                        entry_stack.len() <= k < stack@.len() ==> entry.in_bounds(
                            (#[trigger] stack@[k]).0 as int,
                            stack@[k].1 as int,
                        ) && entry.cell_at(stack@[k].0 as int, stack@[k].1 as int).state == CellState::Closed
                            && entry.cell_at(stack@[k].0 as int, stack@[k].1 as int).cell == CellType::Empty
                            && self.cell_at(stack@[k].0 as int, stack@[k].1 as int).state == CellState::Open,
                    forall|i: int, j: int|
                        self.in_bounds(i, j) && (#[trigger] self.cell_at(i, j)).state != entry.cell_at(i, j).state
                            ==> adjacent(r as int, c as int, i, j),
                    forall|i: int, j: int|
                        self.in_bounds(i, j) && entry.cell_at(i, j).state == CellState::Closed
                            && entry.cell_at(i, j).cell == CellType::Empty && (#[trigger] self.cell_at(
                            i,
                            j,
                        )).state == CellState::Open ==> stack@.contains((i as usize, j as usize)),
                    self.count(closed_pred()) + stack@.len() <= entry.count(closed_pred())
                        + entry_stack.len(),
                    self.count(flagged_pred()) == entry.count(flagged_pred()),
                    self.count(unclosed_pred()) >= entry.count(unclosed_pred()),
                    forall|i: int, j: int|
                        self.in_bounds(i, j) && adjacent(r as int, c as int, i, j) && (i < r + dr
                            || (i == r + dr && j < c + dc)) ==> !(#[trigger] self.cell_at(i, j).state
                            == CellState::Closed && self.cell_at(i, j).cell != CellType::Mine),
                decreases 2 - dc,
            {
                let ghost prev = *self;
                let ghost prev_stack = stack@;
                let (i, j) = (r as isize + dr, c as isize + dc);
                self.open_one(i, j, stack);
                proof {
                    assert forall|a: int, b: int|
                        self.in_bounds(a, b) && entry.cell_at(a, b).state == CellState::Closed
                            && entry.cell_at(a, b).cell == CellType::Empty && (#[trigger] self.cell_at(
                            a,
                            b,
                        )).state == CellState::Open implies stack@.contains((a as usize, b as usize)) by {
                        if a == i && b == j && prev.cell_at(a, b).state == CellState::Closed {
                            assert(stack@[stack@.len() - 1] == (a as usize, b as usize));
                        } else {
                            assert(prev.cell_at(a, b) == self.cell_at(a, b));
                            let k = choose|k: int| 0 <= k < prev_stack.len() && prev_stack[k] == (a as usize, b as usize);
                            assert(stack@[k] == prev_stack[k]);
                        }
                    }
                }
                dc = dc + 1;
            }
            dr = dr + 1;
        }
    }

    /// Opens (row, column). Fails, changing nothing, when the cell holds a mine;
    /// otherwise reveals as `opened_from` describes.
    pub fn open_at(&mut self, row: isize, column: isize) -> (res: Result<(), ()>)
        requires
            old(self).wf(),
            old(self).in_bounds(row as int, column as int),
        ensures
            res is Err <==> old(self).cell_at(row as int, column as int).cell == CellType::Mine,
            res is Err ==> *final(self) == *old(self),
            res is Ok ==> final(self).opened_from(*old(self), row as int, column as int),
            final(self).wf(),
    {
        let (r0, c0) = (row as usize, column as usize);
        if self.grid[r0][c0].cell == CellType::Mine {
            return Err(());
        }
        let ghost before = *self;
        self.set_state(r0, c0, CellState::Open);
        proof {
            lemma_count_after_set(before, *self, row as int, column as int, flagged_pred());
            lemma_count_after_set(before, *self, row as int, column as int, unclosed_pred());
        }
        if let CellType::Num(n) = self.grid[r0][c0].cell {
            if self.count_adjacent_flags(row, column) != n as usize {
                proof {
                    lemma_walk_start(before, row as int, column as int);
                }
                return Ok(());
            }
        }
        let mut stack: Vec<(usize, usize)> = Vec::new();
        stack.push((r0, c0));
        assert(stack@[0] == (r0, c0));
        proof {
            lemma_walk_start(before, row as int, column as int);
        }
        assert(before.spreads(row as int, column as int, stack@[0].0 as int, stack@[0].1 as int));
        while stack.len() > 0
            invariant
                before == *old(self),
                before.shaped(),
                before.in_bounds(row as int, column as int),
                before.cascades(row as int, column as int),
                self.opens_only_safe(before, row as int, column as int),
                self.cell_at(row as int, column as int).state == CellState::Open,
                self.count(flagged_pred()) <= before.count(flagged_pred()),
                self.count(unclosed_pred()) >= before.count(unclosed_pred()),
                forall|k: int|
                    0 <= k < stack@.len() ==> before.in_bounds(
                        (#[trigger] stack@[k]).0 as int,
                        stack@[k].1 as int,
                    ) && before.spreads(row as int, column as int, stack@[k].0 as int, stack@[k].1 as int)
                        && before.reached(row as int, column as int, stack@[k].0 as int, stack@[k].1 as int),
                forall|i: int, j: int|
                    self.in_bounds(i, j) && (#[trigger] self.cell_at(i, j)).state != before.cell_at(i, j).state
                        ==> before.reached(row as int, column as int, i, j),
                forall|i: int, j: int|
                    self.in_bounds(i, j) && ((i == row && j == column) || (before.cell_at(i, j).state
                        == CellState::Closed && before.cell_at(i, j).cell == CellType::Empty && (
                    #[trigger] self.cell_at(i, j)).state == CellState::Open)) ==> self.settled(i, j)
                        || stack@.contains((i as usize, j as usize)),
            decreases 2 * self.count(closed_pred()) + stack@.len(),
        {
            let ghost prev = *self;
            let ghost prev_stack = stack@;
            let (pr, pc) = match stack.pop() {
                Some(p) => p,
                None => (0, 0),
            };
            assert(stack@ == prev_stack.drop_last());
            assert(prev_stack[prev_stack.len() - 1] == (pr, pc));
            let ghost mid_stack = stack@;
            assert(before.spreads(row as int, column as int, pr as int, pc as int)
                && before.reached(row as int, column as int, pr as int, pc as int)) by {
                assert(prev_stack[prev_stack.len() - 1] == (pr, pc));
            }
            let ghost walk = choose|p: Seq<(int, int)>|
                #[trigger] before.walk(row as int, column as int, p) && p.last() == (pr as int, pc as int);
            self.open_neighbours(pr, pc, &mut stack);
            proof {
                assert forall|i: int, j: int|
                    self.in_bounds(i, j) && (#[trigger] self.cell_at(i, j)).state != prev.cell_at(i, j).state
                        implies before.reached(row as int, column as int, i, j) by {
                    lemma_walk_step(before, row as int, column as int, walk, i, j);
                }
                assert forall|i: int, j: int|
                    self.in_bounds(i, j) && (#[trigger] self.cell_at(i, j)).state != before.cell_at(i, j).state
                        implies before.reached(row as int, column as int, i, j) by {
                    if self.cell_at(i, j).state != prev.cell_at(i, j).state {
                        assert(before.reached(row as int, column as int, i, j));
                    }
                }
                assert forall|k: int| 0 <= k < stack@.len() implies before.in_bounds(
                        (#[trigger] stack@[k]).0 as int,
                        stack@[k].1 as int,
                    ) && before.spreads(row as int, column as int, stack@[k].0 as int, stack@[k].1 as int)
                        && before.reached(row as int, column as int, stack@[k].0 as int, stack@[k].1 as int) by {
                    if k < mid_stack.len() {
                        assert(stack@[k] == mid_stack[k]);
                        assert(mid_stack[k] == prev_stack[k]);
                    } else {
                        let (i, j) = (stack@[k].0 as int, stack@[k].1 as int);
                        assert(prev.cell_at(i, j).state == CellState::Closed);
                        assert(before.cell_at(i, j).state == CellState::Closed);
                        assert(self.cell_at(i, j).state != prev.cell_at(i, j).state);
                        assert(before.reached(row as int, column as int, i, j));
                    }
                }
                assert forall|i: int, j: int|
                    self.in_bounds(i, j) && ((i == row && j == column) || (before.cell_at(i, j).state
                        == CellState::Closed && before.cell_at(i, j).cell == CellType::Empty && (
                    #[trigger] self.cell_at(i, j)).state == CellState::Open)) implies self.settled(i, j)
                        || stack@.contains((i as usize, j as usize)) by {
                    if i == pr && j == pc {
                    } else if prev.cell_at(i, j).state == CellState::Closed && prev.cell_at(i, j).cell == CellType::Empty {
                        assert(stack@.contains((i as usize, j as usize)));
                    } else {
                        assert(prev.cell_at(i, j).state == self.cell_at(i, j).state);
                        if prev.settled(i, j) {
                            assert forall|a: int, b: int|
                                self.in_bounds(a, b) && adjacent(i, j, a, b) implies !(#[trigger] self.cell_at(a, b).state
                                    == CellState::Closed && self.cell_at(a, b).cell != CellType::Mine) by {
                                assert(prev.cell_at(a, b).state != CellState::Closed || prev.cell_at(a, b).cell == CellType::Mine);
                            }
                        } else {
                            let k = choose|k: int| 0 <= k < prev_stack.len() && prev_stack[k] == (i as usize, j as usize);
                            if k < prev_stack.len() - 1 {
                                assert(mid_stack[k] == prev_stack[k]);
                                assert(stack@[k] == mid_stack[k]);
                            }
                        }
                    }
                }
            }
        }
        proof {
            assert forall|i: int, j: int|
                self.in_bounds(i, j) && ((i == row && j == column) || (before.cell_at(i, j).state
                    == CellState::Closed && before.cell_at(i, j).cell == CellType::Empty && (
                #[trigger] self.cell_at(i, j)).state == CellState::Open)) implies self.settled(i, j) by {
                assert(!stack@.contains((i as usize, j as usize)));
            }
        }
        Ok(())
    }

    /// Every cell without a mine shows the number of mines around it, `Empty` for none.
    pub open spec fn numbers_consistent(&self) -> bool {
        forall|i: int, j: int|
            self.in_bounds(i, j) && (#[trigger] self.cell_at(i, j)).cell != CellType::Mine
                ==> self.cell_at(i, j).cell == num_content(self.around(i, j, mine_pred()))
    }

    /// No cell in the three-by-three square around (r, c) holds a mine.
    pub open spec fn zone_clear(&self, r: int, c: int) -> bool {
        forall|i: int, j: int|
            self.in_bounds(i, j) && adjacent(r, c, i, j) ==> (#[trigger] self.cell_at(i, j)).cell
                != CellType::Mine
    }

    /// Every cell outside the three-by-three square around (r, c) holds a mine.
    pub open spec fn outside_full(&self, r: int, c: int) -> bool {
        forall|i: int, j: int|
            self.in_bounds(i, j) && !adjacent(r, c, i, j) ==> (#[trigger] self.cell_at(i, j)).cell
                == CellType::Mine
    }

    /// (i, j) is the first cell in row-major order that holds no mine and lies
    /// outside the three-by-three square around (sr, sc).
    pub open spec fn first_free_outside_is(&self, sr: int, sc: int, i: int, j: int) -> bool {
        &&& self.in_bounds(i, j)
        &&& self.cell_at(i, j).cell != CellType::Mine
        &&& !adjacent(sr, sc, i, j)
        &&& forall|a: int, b: int|
            self.in_bounds(a, b) && (a < i || (a == i && b < j)) && !adjacent(sr, sc, a, b)
                ==> (#[trigger] self.cell_at(a, b)).cell == CellType::Mine
    }

    /// Every cell is closed and holds either nothing or a mine.
    pub open spec fn unnumbered(&self) -> bool {
        forall|i: int, j: int|
            self.in_bounds(i, j) ==> {
                &&& (#[trigger] self.cell_at(i, j)).state == CellState::Closed
                &&& self.cell_at(i, j).cell == CellType::Empty || self.cell_at(i, j).cell
                    == CellType::Mine
            }
    }

    /// A board of closed empty cells.
    fn blank(width: usize, height: usize, flags: isize) -> (f: Field)
        requires
            width > 0,
            height > 0,
            width * height <= isize::MAX,
        ensures
            f.shaped(),
            f.width == width,
            f.height == height,
            f.num_of_flags_left == flags,
            forall|i: int, j: int|
                f.in_bounds(i, j) ==> #[trigger] f.cell_at(i, j) == (Cell {
                    cell: CellType::Empty,
                    state: CellState::Closed,
                }),
    {
        proof {
            assert(width <= width * height && height <= width * height) by (nonlinear_arith)
                requires width > 0, height > 0;
        }
        let blank = Cell { cell: CellType::Empty, state: CellState::Closed };
        let mut grid: Vec<Vec<Cell>> = Vec::new();
        while grid.len() < height
            invariant
                grid@.len() <= height,
                forall|r: int| 0 <= r < grid@.len() ==> #[trigger] grid@[r]@ == Seq::new(width as nat, |j: int| blank),
            decreases height - grid@.len(),
        {
            let mut row: Vec<Cell> = Vec::new();
            while row.len() < width
                invariant
                    row@.len() <= width,
                    row@ == Seq::new(row@.len(), |j: int| blank),
                decreases width - row@.len(),
            {
                row.push(blank);
            }
            grid.push(row);
        }
        Field { grid, width, height, num_of_flags_left: flags }
    }

    /// The cell at row-major position `n` among the cells without a mine.
    fn nth_free(&self, n: usize) -> (pos: (usize, usize))
        requires
            self.shaped(),
            n < self.count(free_pred()),
        ensures
            self.in_bounds(pos.0 as int, pos.1 as int),
            self.cell_at(pos.0 as int, pos.1 as int).cell != CellType::Mine,
            count_before(self.grid@, pos.0 as int, pos.1 as int, free_pred()) == n,
            (pos.0 as int, pos.1 as int) == nth_free_from(self.mine_map(), self.width as int, n as int, 0, 0),
    {
        let mut seen: usize = 0;
        let mut r: usize = 0;
        while r < self.height
            invariant
                self.shaped(),
                n < self.count(free_pred()),
                r <= self.height,
                seen <= n,
                seen == grid_count(self.grid@.take(r as int), free_pred()),
                nth_free_from(self.mine_map(), self.width as int, n as int, 0, 0) == nth_free_from(
                    self.mine_map(),
                    self.width as int,
                    n - seen,
                    r as int,
                    0,
                ),
            decreases self.height - r,
        {
            let row = &self.grid[r];
            let mut c: usize = 0;
            while c < self.width
                invariant
                    self.shaped(),
                    r < self.height,
                    c <= self.width,
                    row == self.grid@[r as int],
                    seen <= n,
                    seen == count_before(self.grid@, r as int, c as int, free_pred()),
                    nth_free_from(self.mine_map(), self.width as int, n as int, 0, 0) == nth_free_from(
                        self.mine_map(),
                        self.width as int,
                        n - seen,
                        r as int,
                        c as int,
                    ),
                decreases self.width - c,
            {
                proof {
                    assert(row@.take(c as int + 1).drop_last() =~= row@.take(c as int));
                    assert(self.mine_map()[r as int][c as int] == (row@[c as int].cell == CellType::Mine));
                }
                if row[c].cell != CellType::Mine {
                    if seen == n {
                        return (r, c);
                    }
                    seen = seen + 1;
                }
                c = c + 1;
            }
            proof {
                assert(row@.take(c as int) =~= row@);
                assert(self.grid@.take(r as int + 1).drop_last() =~= self.grid@.take(r as int));
                assert(nth_free_from(self.mine_map(), self.width as int, n - seen, r as int, c as int)
                    == nth_free_from(self.mine_map(), self.width as int, n - seen, r + 1, 0));
            }
            r = r + 1;
        }
        proof {
            assert(self.grid@.take(r as int) =~= self.grid@);
        }
        (0, 0)
    }

    /// The first cell in row-major order that holds no mine and lies outside the
    /// three-by-three square around (sr, sc).
    fn first_free_outside(&self, sr: usize, sc: usize) -> (pos: Option<(usize, usize)>)
        requires
            self.shaped(),
        ensures
            pos is None ==> self.outside_full(sr as int, sc as int),
            pos matches Some(p) ==> self.first_free_outside_is(sr as int, sc as int, p.0 as int, p.1 as int),
            pos matches Some(p) ==> (p.0 as int, p.1 as int) == free_outside_from(
                self.mine_map(),
                self.width as int,
                sr as int,
                sc as int,
                0,
                0,
            ),
            pos is None ==> free_outside_from(self.mine_map(), self.width as int, sr as int, sc as int, 0, 0).0
                < 0,
    {
        let mut r: usize = 0;
        while r < self.height
            invariant
                self.shaped(),
                r <= self.height,
                forall|i: int, j: int|
                    self.in_bounds(i, j) && i < r && !adjacent(sr as int, sc as int, i, j)
                        ==> (#[trigger] self.cell_at(i, j)).cell == CellType::Mine,
                free_outside_from(self.mine_map(), self.width as int, sr as int, sc as int, 0, 0)
                    == free_outside_from(self.mine_map(), self.width as int, sr as int, sc as int, r as int, 0),
            decreases self.height - r,
        {
            let mut c: usize = 0;
            while c < self.width
                invariant
                    self.shaped(),
                    r < self.height,
                    c <= self.width,
                    forall|i: int, j: int|
                        self.in_bounds(i, j) && (i < r || (i == r && j < c)) && !adjacent(
                            sr as int,
                            sc as int,
                            i,
                            j,
                        ) ==> (#[trigger] self.cell_at(i, j)).cell == CellType::Mine,
                    free_outside_from(self.mine_map(), self.width as int, sr as int, sc as int, 0, 0)
                        == free_outside_from(self.mine_map(), self.width as int, sr as int, sc as int, r as int, c as int),
                decreases self.width - c,
            {
                assert(self.mine_map()[r as int][c as int] == (self.cell_at(r as int, c as int).cell == CellType::Mine));
                let near = r + 1 >= sr && sr + 1 >= r && c + 1 >= sc && sc + 1 >= c;
                if !near && self.grid[r][c].cell != CellType::Mine {
                    return Some((r, c));
                }
                c = c + 1;
            }
            assert(free_outside_from(self.mine_map(), self.width as int, sr as int, sc as int, r as int, c as int)
                == free_outside_from(self.mine_map(), self.width as int, sr as int, sc as int, r + 1, 0));
            r = r + 1;
        }
        None
    }

    /// Turns the draws into mines: draw `k` names the cell among those still
    /// without a mine, counted in row-major order, that receives mine `k`.
    fn put_mines(&mut self, picks: &Vec<usize>)
        requires
            old(self).shaped(),
            old(self).unnumbered(),
            old(self).count(mine_pred()) == 0,
            picks@.len() < old(self).width * old(self).height,
            forall|k: int| 0 <= k < picks@.len() ==> #[trigger] picks@[k] + k < old(self).width * old(self).height,
        ensures
            final(self).shaped(),
            final(self).width == old(self).width,
            final(self).height == old(self).height,
            final(self).num_of_flags_left == old(self).num_of_flags_left,
            final(self).unnumbered(),
            final(self).count(mine_pred()) == picks@.len(),
            final(self).mine_map() == drawn_mines(old(self).width as int, old(self).height as int, picks@),
    {
        proof {
            assert forall|i: int, j: int| self.in_bounds(i, j) implies (#[trigger] self.cell_at(i, j)).cell
                != CellType::Mine by {
                if self.cell_at(i, j).cell == CellType::Mine {
                    lemma_grid_count_pos(self.grid@, i, j, mine_pred());
                }
            }
            assert(picks@.take(0).len() == 0);
            assert(self.mine_map() =~~= drawn_mines(self.width as int, self.height as int, picks@.take(0)));
        }
        let mut k: usize = 0;
        while k < picks.len()
            invariant
                self.shaped(),
                self.width == old(self).width,
                self.height == old(self).height,
                self.num_of_flags_left == old(self).num_of_flags_left,
                self.unnumbered(),
                k <= picks@.len(),
                self.count(mine_pred()) == k,
                self.mine_map() == drawn_mines(self.width as int, self.height as int, picks@.take(k as int)),
                picks@.len() < self.width * self.height,
                forall|k: int| 0 <= k < picks@.len() ==> #[trigger] picks@[k] + k < self.width * self.height,
            decreases picks@.len() - k,
        {
            proof {
                lemma_count_mine_free(self.grid@, self.width as int);
                assert(self.grid@.len() * self.width == self.width * self.height) by (nonlinear_arith)
                    requires self.grid@.len() == self.height;
                assert(picks@[k as int] + k < self.width * self.height);
            }
            let (r, c) = self.nth_free(picks[k]);
            let ghost prev = *self;
            self.set_content(r, c, CellType::Mine);
            proof {
                lemma_count_after_set(prev, *self, r as int, c as int, mine_pred());
                let t = picks@.take(k as int + 1);
                assert(t.drop_last() =~= picks@.take(k as int));
                assert(t.last() == picks@[k as int]);
                assert(self.mine_map() =~~= add_mine(prev.mine_map(), (r as int, c as int)));
            }
            k = k + 1;
        }
        proof {
            assert(picks@.take(k as int) =~= picks@);
        }
    }

    /// Moves the mine at (row, column), next to the start cell (sr, sc), to the
    /// first cell in row-major order that holds no mine and lies outside the start
    /// square. Where there is none the mine stays, unless it sits on the start cell
    /// itself: then it goes to the first cell without a mine.
    fn replace_mine(&mut self, row: usize, column: usize, sr: usize, sc: usize)
        requires
            old(self).shaped(),
            old(self).unnumbered(),
            old(self).in_bounds(row as int, column as int),
            old(self).in_bounds(sr as int, sc as int),
            adjacent(sr as int, sc as int, row as int, column as int),
            old(self).cell_at(row as int, column as int).cell == CellType::Mine,
            old(self).count(mine_pred()) < old(self).width * old(self).height,
        ensures
            final(self).shaped(),
            final(self).width == old(self).width,
            final(self).height == old(self).height,
            final(self).num_of_flags_left == old(self).num_of_flags_left,
            final(self).unnumbered(),
            final(self).count(mine_pred()) == old(self).count(mine_pred()),
            final(self).cell_at(sr as int, sc as int).cell != CellType::Mine || (!(row == sr && column == sc)
                && old(self).cell_at(sr as int, sc as int).cell == CellType::Mine),
            (final(self).cell_at(row as int, column as int).cell == CellType::Mine) == (old(self).outside_full(
                sr as int,
                sc as int,
            ) && !(row == sr && column == sc)),
            old(self).outside_full(sr as int, sc as int) ==> final(self).outside_full(sr as int, sc as int),
            final(self).mine_map() == move_mine(
                old(self).mine_map(),
                old(self).width as int,
                old(self).height as int,
                sr as int,
                sc as int,
                (row as int, column as int),
            ),
            forall|i: int, j: int|
                final(self).in_bounds(i, j) && (#[trigger] final(self).cell_at(i, j)).cell == CellType::Mine
                    && old(self).cell_at(i, j).cell != CellType::Mine ==> {
                    ||| old(self).first_free_outside_is(sr as int, sc as int, i, j)
                    ||| row == sr && column == sc && old(self).outside_full(sr as int, sc as int)
                        && count_before(old(self).grid@, i, j, free_pred()) == 0
                },
            forall|i: int, j: int|
                final(self).in_bounds(i, j) && !(i == row && j == column) && old(self).cell_at(i, j).cell
                    == CellType::Mine ==> (#[trigger] final(self).cell_at(i, j)).cell == CellType::Mine,
            forall|i: int, j: int|
                final(self).in_bounds(i, j) && adjacent(sr as int, sc as int, i, j) && (#[trigger] final(self).cell_at(i, j)).cell
                    == CellType::Mine && old(self).cell_at(i, j).cell != CellType::Mine ==> final(self).outside_full(
                    sr as int,
                    sc as int,
                ),
    {
        let ghost before = *self;
        match self.first_free_outside(sr, sc) {
            Some((r, c)) => {
                self.set_content(row, column, CellType::Empty);
                let ghost mid = *self;
                self.set_content(r, c, CellType::Mine);
                proof {
                    lemma_count_after_set(before, mid, row as int, column as int, mine_pred());
                    lemma_count_after_set(mid, *self, r as int, c as int, mine_pred());
                    assert(self.mine_map() =~~= add_mine(
                        remove_mine(before.mine_map(), (row as int, column as int)),
                        (r as int, c as int),
                    ));
                }
            },
            None => {
                if row == sr && column == sc {
                    proof {
                        lemma_count_mine_free(self.grid@, self.width as int);
                        assert(self.grid@.len() * self.width == self.width * self.height) by (nonlinear_arith)
                            requires self.grid@.len() == self.height;
                    }
                    let (r, c) = self.nth_free(0);
                    self.set_content(row, column, CellType::Empty);
                    let ghost mid = *self;
                    self.set_content(r, c, CellType::Mine);
                    proof {
                        lemma_count_after_set(before, mid, row as int, column as int, mine_pred());
                        lemma_count_after_set(mid, *self, r as int, c as int, mine_pred());
                        assert(self.mine_map() =~~= add_mine(
                            remove_mine(before.mine_map(), (row as int, column as int)),
                            (r as int, c as int),
                        ));
                    }
                }
            },
        }
    }

    /// Sets the number of a cell without a mine from the mines around it.
    fn set_num_for_square(&mut self, row: isize, column: isize)
        requires
            old(self).shaped(),
            old(self).in_bounds(row as int, column as int),
        ensures
            final(self).shaped(),
            final(self).width == old(self).width,
            final(self).height == old(self).height,
            final(self).num_of_flags_left == old(self).num_of_flags_left,
            forall|i: int, j: int|
                final(self).in_bounds(i, j) && !(i == row && j == column) ==> #[trigger] final(self).cell_at(i, j)
                    == old(self).cell_at(i, j),
            final(self).cell_at(row as int, column as int).state == old(self).cell_at(row as int, column as int).state,
            old(self).cell_at(row as int, column as int).cell == CellType::Mine ==> final(self).cell_at(
                row as int,
                column as int,
            ).cell == CellType::Mine,
            old(self).cell_at(row as int, column as int).cell != CellType::Mine ==> final(self).cell_at(
                row as int,
                column as int,
            ).cell == num_content(old(self).around(row as int, column as int, mine_pred())),
    {
        let (r, c) = (row as usize, column as usize);
        if self.grid[r][c].cell == CellType::Mine {
            return;
        }
        let n = self.count_adjacent(row, column, true);
        if n == 0 {
            self.set_content(r, c, CellType::Empty);
        } else {
            self.set_content(r, c, CellType::Num(n));
        }
    }

    /// Gives every cell without a mine its number, whatever it held before.
    pub fn put_nums(&mut self)
        requires
            old(self).shaped(),
        ensures
            final(self).shaped(),
            final(self).width == old(self).width,
            final(self).height == old(self).height,
            final(self).num_of_flags_left == old(self).num_of_flags_left,
            final(self).numbers_consistent(),
            forall|i: int, j: int|
                final(self).in_bounds(i, j) ==> {
                    &&& (#[trigger] final(self).cell_at(i, j)).state == old(self).cell_at(i, j).state
                    &&& (final(self).cell_at(i, j).cell == CellType::Mine) == (old(self).cell_at(i, j).cell
                        == CellType::Mine)
                },
    {
        let ghost entry = *self;
        let mut r: usize = 0;
        while r < self.height
            invariant
                entry == *old(self),
                self.shaped(),
                self.width == entry.width,
                self.height == entry.height,
                self.num_of_flags_left == entry.num_of_flags_left,
                r <= self.height,
                forall|i: int, j: int|
                    self.in_bounds(i, j) ==> {
                        &&& (#[trigger] self.cell_at(i, j)).state == entry.cell_at(i, j).state
                        &&& (self.cell_at(i, j).cell == CellType::Mine) == (entry.cell_at(i, j).cell
                            == CellType::Mine)
                        &&& i < r && self.cell_at(i, j).cell != CellType::Mine ==> self.cell_at(i, j).cell
                            == num_content(entry.around(i, j, mine_pred()))
                    },
            decreases self.height - r,
        {
            let mut c: usize = 0;
            while c < self.width
                invariant
                    self.shaped(),
                    self.width == entry.width,
                    self.height == entry.height,
                    self.num_of_flags_left == entry.num_of_flags_left,
                    r < self.height,
                    c <= self.width,
                    forall|i: int, j: int|
                        self.in_bounds(i, j) ==> {
                            &&& (#[trigger] self.cell_at(i, j)).state == entry.cell_at(i, j).state
                            &&& (self.cell_at(i, j).cell == CellType::Mine) == (entry.cell_at(i, j).cell
                                == CellType::Mine)
                            &&& (i < r || (i == r && j < c)) && self.cell_at(i, j).cell != CellType::Mine
                                ==> self.cell_at(i, j).cell == num_content(entry.around(i, j, mine_pred()))
                        },
                decreases self.width - c,
            {
                proof {
                    lemma_around_same_mines(entry, *self, r as int, c as int);
                }
                self.set_num_for_square(r as isize, c as isize);
                c = c + 1;
            }
            r = r + 1;
        }
        proof {
            assert forall|i: int, j: int|
                self.in_bounds(i, j) && (#[trigger] self.cell_at(i, j)).cell != CellType::Mine implies self.cell_at(i, j).cell
                    == num_content(self.around(i, j, mine_pred())) by {
                lemma_around_same_mines(entry, *self, i, j);
            }
        }
    }

    /// What holds of a board of `width` by `height` cells with `mines` mines just
    /// after the first move at (sr, sc).
    pub open spec fn fresh_board(&self, width: int, height: int, mines: int, sr: int, sc: int) -> bool {
        &&& self.wf()
        &&& self.width == width
        &&& self.height == height
        &&& self.count(mine_pred()) == mines
        &&& self.num_of_flags_left == mines
        &&& self.numbers_consistent()
        &&& self.cell_at(sr, sc).cell != CellType::Mine
        &&& self.zone_clear(sr, sc) || self.outside_full(sr, sc)
        &&& self.cell_at(sr, sc).state == CellState::Open
        &&& self.cascades(sr, sc) ==> self.settled(sr, sc)
        &&& forall|i: int, j: int|
            self.in_bounds(i, j) && (#[trigger] self.cell_at(i, j)).state == CellState::Open ==> exists|
                p: Seq<(int, int)>,
            | #[trigger] self.empty_walk(sr, sc, p) && p.last() == (i, j)
        &&& forall|i: int, j: int|
            self.in_bounds(i, j) ==> {
                &&& (#[trigger] self.cell_at(i, j)).state != CellState::Flagged
                &&& self.cell_at(i, j).state == CellState::Open ==> self.cell_at(i, j).cell != CellType::Mine
                &&& self.cell_at(i, j).state == CellState::Open && self.cell_at(i, j).cell == CellType::Empty
                    ==> self.settled(i, j)
            }
    }

    /// Builds a board from the draws in `picks` (see `put_mines`), clears the
    /// square around the start cell (see `replace_mine`), numbers the cells and
    /// opens the start cell.
    #[verifier::rlimit(40)]
    pub fn with_picks(width: usize, height: usize, picks: &Vec<usize>, start_row: usize, start_column: usize) -> (f: Field)
        requires
            width > 0,
            height > 0,
            width * height <= isize::MAX,
            picks@.len() < width * height,
            forall|k: int| 0 <= k < picks@.len() ==> #[trigger] picks@[k] + k < width * height,
            start_row < height,
            start_column < width,
        ensures
            f.fresh_board(width as int, height as int, picks@.len() as int, start_row as int, start_column as int),
            f.mine_map() == cleared_upto(
                drawn_mines(width as int, height as int, picks@),
                width as int,
                height as int,
                start_row as int,
                start_column as int,
                9,
            ),
    {
        let mut result = Field::blank(width, height, picks.len() as isize);
        proof {
            assert forall|r: int, j: int|
                0 <= r < result.grid@.len() && 0 <= j < result.grid@[r]@.len() implies !mine_pred()(
                #[trigger] result.grid@[r]@[j]) by {
                assert(result.cell_at(r, j) == result.grid@[r]@[j]);
            }
            lemma_grid_count_none(result.grid@, mine_pred());
        }
        result.put_mines(picks);
        let (sr, sc) = (start_row, start_column);
        let ghost m = result.count(mine_pred());
        let ghost drawn = result.mine_map();
        let mut dr: isize = -1;
        while dr <= 1
            invariant
                result.shaped(),
                result.width == width,
                result.height == height,
                result.num_of_flags_left == picks@.len(),
                result.unnumbered(),
                result.count(mine_pred()) == m,
                m == picks@.len(),
                m < width * height,
                sr < height,
                sc < width,
                -1 <= dr <= 2,
                result.mine_map() == cleared_upto(drawn, width as int, height as int, sr as int, sc as int, (dr + 1) * 3),
                sr + dr > sr ==> result.cell_at(sr as int, sc as int).cell != CellType::Mine,
                forall|i: int, j: int|
                    result.in_bounds(i, j) && adjacent(sr as int, sc as int, i, j) && i < sr + dr
                        ==> (#[trigger] result.cell_at(i, j)).cell != CellType::Mine || result.outside_full(
                        sr as int,
                        sc as int,
                    ),
            decreases 2 - dr,
        {
            let mut dc: isize = -1;
            while dc <= 1
                invariant
                    result.shaped(),
                    result.width == width,
                    result.height == height,
                    result.num_of_flags_left == picks@.len(),
                    result.unnumbered(),
                    result.count(mine_pred()) == m,
                    m < width * height,
                    sr < height,
                    sc < width,
                    -1 <= dr <= 1,
                    -1 <= dc <= 2,
                    result.mine_map() == cleared_upto(
                        drawn,
                        width as int,
                        height as int,
                        sr as int,
                        sc as int,
                        (dr + 1) * 3 + dc + 1,
                    ),
                    (sr + dr > sr || (dr == 0 && sc + dc > sc)) ==> result.cell_at(sr as int, sc as int).cell
                        != CellType::Mine,
                    forall|i: int, j: int|
                        result.in_bounds(i, j) && adjacent(sr as int, sc as int, i, j) && (i < sr + dr || (i
                            == sr + dr && j < sc + dc)) ==> (#[trigger] result.cell_at(i, j)).cell
                            != CellType::Mine || result.outside_full(sr as int, sc as int),
                decreases 2 - dc,
            {
                let (i, j) = (sr as isize + dr, sc as isize + dc);
                let ghost k = (dr + 1) * 3 + dc + 1;
                assert(square_cell(sr as int, sc as int, k) == (i as int, j as int));
                if i >= 0 && j >= 0 && i < height as isize && j < width as isize {
                    assert(result.mine_map()[i as int][j as int] == (result.cell_at(i as int, j as int).cell
                        == CellType::Mine));
                    if result.grid[i as usize][j as usize].cell == CellType::Mine {
                        result.replace_mine(i as usize, j as usize, sr, sc);
                    }
                }
                dc = dc + 1;
            }
            dr = dr + 1;
        }
        let ghost placed = result;
        result.put_nums();
        let ghost numbered = result;
        proof {
            lemma_count_same(placed, numbered, mine_pred());
            assert forall|r: int, j: int|
                0 <= r < numbered.grid@.len() && 0 <= j < numbered.grid@[r]@.len() implies !flagged_pred()(
                #[trigger] numbered.grid@[r]@[j]) && !unclosed_pred()(numbered.grid@[r]@[j]) by {
                assert(numbered.cell_at(r, j) == numbered.grid@[r]@[j]);
                assert(placed.cell_at(r, j).state == CellState::Closed);
            }
            lemma_grid_count_none(numbered.grid@, flagged_pred());
            lemma_grid_count_none(numbered.grid@, unclosed_pred());
        }
        let opened = result.open_at(sr as isize, sc as isize);
        proof {
            assert(result.mine_map() =~~= placed.mine_map());
            lemma_count_same(numbered, result, mine_pred());
            assert forall|i: int, j: int|
                result.in_bounds(i, j) && (#[trigger] result.cell_at(i, j)).state == CellState::Open implies exists|
                    p: Seq<(int, int)>,
                | #[trigger] result.empty_walk(sr as int, sc as int, p) && p.last() == (i, j) by {
                lemma_first_reveal_walk(numbered, result, sr as int, sc as int, i, j);
            }
            assert forall|i: int, j: int|
                result.in_bounds(i, j) && (#[trigger] result.cell_at(i, j)).cell != CellType::Mine implies result.cell_at(i, j).cell
                    == num_content(result.around(i, j, mine_pred())) by {
                lemma_around_same_mines(numbered, result, i, j);
                assert(numbered.cell_at(i, j).cell == result.cell_at(i, j).cell);
            }
        }
        result
    }

    /// Starts a game: `num_of_mines` mines placed at random, each uniformly among
    /// the cells still without one, then made safe around the start cell, which
    /// is opened.
    pub fn new(width: usize, height: usize, num_of_mines: usize, start_row: usize, start_column: usize) -> (f: Field)
        requires
            width > 0,
            height > 0,
            width * height <= isize::MAX,
            num_of_mines < width * height,
            start_row < height,
            start_column < width,
        ensures
            f.fresh_board(width as int, height as int, num_of_mines as int, start_row as int, start_column as int),
    {
        let cells = width * height;
        let mut picks: Vec<usize> = Vec::new();
        while picks.len() < num_of_mines
            invariant
                cells == width * height,
                num_of_mines < cells,
                picks@.len() <= num_of_mines,
                forall|k: int| 0 <= k < picks@.len() ==> #[trigger] picks@[k] + k < cells,
            decreases num_of_mines - picks@.len(),
        {
            let k = picks.len();
            picks.push(random_below(cells - k));
            assert(picks@[k as int] + k < cells);
        }
        Field::with_picks(width, height, &picks, start_row, start_column)
    }

    /// The number of mines that are not flagged.
    pub fn num_of_mines_left(&self) -> (n: usize)
        requires
            self.wf(),
        ensures
            n == self.count(hidden_mine_pred()),
    {
        self.count_cells(Ghost(hidden_mine_pred()), true)
    }

    /// The number of closed cells.
    pub fn num_of_closed_left(&self) -> (n: usize)
        requires
            self.wf(),
        ensures
            n == self.count(closed_pred()),
    {
        self.count_cells(Ghost(closed_pred()), false)
    }

    /// Whether the game is won.
    pub fn game_over(&self) -> (r: bool)
        requires
            self.wf(),
        ensures
            r == self.won(),
    {
        self.num_of_mines_left() == 0 && self.num_of_closed_left() == 0 && self.num_of_flags_left == 0
    }
}

} // verus!
