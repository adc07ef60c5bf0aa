use minesweeper::field::{CellState, CellType, Field};

fn mines_in(f: &Field) -> usize {
    f.grid.iter().map(|row| row.iter().filter(|c| c.cell == CellType::Mine).count()).sum()
}

fn expected_number(f: &Field, r: usize, c: usize) -> CellType {
    let mut n: u8 = 0;
    for dr in -1isize..=1 {
        for dc in -1isize..=1 {
            let (i, j) = (r as isize + dr, c as isize + dc);
            if (dr != 0 || dc != 0) && f.is_valid(i, j) && f.grid[i as usize][j as usize].cell == CellType::Mine {
                n += 1;
            }
        }
    }
    if n == 0 { CellType::Empty } else { CellType::Num(n) }
}

/// A 5x5 board with one mine at (0, 1), started from the far corner.
fn corner_board() -> Field {
    Field::with_picks(5, 5, &vec![1], 4, 4)
}

#[test]
fn beginner_board_first_move_is_safe() {
    let mut f = Field::new(9, 9, 10, 5, 5);
    assert_eq!(f.open_at(5, 5), Ok(()));
    assert_eq!(mines_in(&f), 10);
    assert_eq!(f.num_of_mines_left(), 10);
    assert_eq!(f.num_of_flags_left, 10);
    for r in 4..=6 {
        for c in 4..=6 {
            assert_ne!(f.grid[r][c].cell, CellType::Mine);
        }
    }
}

#[test]
fn constructed_boards_have_exact_mines_and_numbers() {
    for &(w, h, m) in &[(9usize, 9usize, 10usize), (16, 16, 40), (30, 16, 99), (4, 4, 7)] {
        let f = Field::new(w, h, m, 2, 2);
        assert_eq!(mines_in(&f), m);
        assert_eq!(f.grid.len(), h);
        assert!(f.grid.iter().all(|row| row.len() == w));
        assert_ne!(f.grid[2][2].cell, CellType::Mine);
        assert_eq!(f.grid[2][2].state, CellState::Open);
        for r in 0..h {
            for c in 0..w {
                let cell = f.grid[r][c];
                assert_ne!(cell.state, CellState::Flagged);
                if cell.cell != CellType::Mine {
                    assert_eq!(cell.cell, expected_number(&f, r, c));
                } else {
                    assert_eq!(cell.state, CellState::Closed);
                }
            }
        }
    }
}

#[test]
fn zero_mines_opens_everything() {
    let f = Field::new(6, 4, 0, 0, 0);
    assert_eq!(f.num_of_closed_left(), 0);
    assert_eq!(f.num_of_mines_left(), 0);
    assert!(f.game_over());
}

#[test]
fn cascade_stops_at_numbers() {
    let f = corner_board();
    assert_eq!(f.grid[0][1].cell, CellType::Mine);
    assert_eq!(f.grid[0][0].cell, CellType::Num(1));
    assert_eq!(f.grid[1][2].cell, CellType::Num(1));
    assert_eq!(f.grid[2][2].cell, CellType::Empty);
    assert_eq!(f.grid[0][0].state, CellState::Closed);
    assert_eq!(f.grid[0][1].state, CellState::Closed);
    assert_eq!(f.grid[0][2].state, CellState::Open);
    assert_eq!(f.grid[1][0].state, CellState::Open);
    assert_eq!(f.num_of_closed_left(), 2);
}

#[test]
fn flag_twice_restores_cell_and_counter() {
    let mut f = corner_board();
    let before = f.num_of_flags_left;
    f.flag_at(0, 0);
    assert_eq!(f.grid[0][0].state, CellState::Flagged);
    assert_eq!(f.num_of_flags_left, before - 1);
    f.flag_at(0, 0);
    assert_eq!(f.grid[0][0].state, CellState::Closed);
    assert_eq!(f.num_of_flags_left, before);
}

#[test]
fn flag_on_open_cell_is_noop() {
    let mut f = corner_board();
    f.flag_at(4, 4);
    assert_eq!(f.grid[4][4].state, CellState::Open);
    assert_eq!(f.num_of_flags_left, 1);
}

#[test]
fn flags_may_go_negative() {
    let mut f = corner_board();
    f.flag_at(0, 0);
    f.flag_at(0, 1);
    assert_eq!(f.num_of_flags_left, -1);
    assert!(!f.game_over());
}

#[test]
fn opening_a_mine_fails_and_changes_nothing() {
    let mut f = corner_board();
    assert_eq!(f.open_at(0, 1), Err(()));
    assert_eq!(f.grid[0][1].state, CellState::Closed);
    assert_eq!(f.grid[0][0].state, CellState::Closed);
    assert_eq!(f.num_of_closed_left(), 2);
}

#[test]
fn uncover_after_mine_hit_opens_only_mines() {
    let mut f = corner_board();
    assert!(f.open_at(0, 1).is_err());
    f.uncover_mines();
    assert_eq!(f.grid[0][1].state, CellState::Open);
    assert_eq!(f.grid[0][0].state, CellState::Closed);
    assert_eq!(f.num_of_closed_left(), 1);
}

#[test]
fn win_needs_every_mine_flagged_and_every_cell_open() {
    let mut f = corner_board();
    assert!(!f.game_over());
    f.flag_at(0, 1);
    assert_eq!(f.num_of_mines_left(), 0);
    assert!(!f.game_over());
    // (0, 0) shows 1 and has one flag around it: opening it cascades.
    assert_eq!(f.open_at(0, 0), Ok(()));
    assert_eq!(f.num_of_closed_left(), 0);
    assert!(f.game_over());
}

/// A 5x5 board with mines at (0, 1) and (1, 0), which shut (0, 0) in.
fn pocket_board() -> Field {
    Field::with_picks(5, 5, &vec![1, 4], 4, 4)
}

#[test]
fn chord_opens_neighbours_of_satisfied_number() {
    let mut f = pocket_board();
    assert_eq!(f.grid[0][1].cell, CellType::Mine);
    assert_eq!(f.grid[1][0].cell, CellType::Mine);
    assert_eq!(f.grid[1][1].cell, CellType::Num(2));
    assert_eq!(f.grid[1][1].state, CellState::Open);
    assert_eq!(f.grid[0][0].state, CellState::Closed);
    assert_eq!(f.num_of_closed_left(), 3);
    f.flag_at(0, 1);
    f.flag_at(1, 0);
    assert_eq!(f.open_at(1, 1), Ok(()));
    assert_eq!(f.grid[0][0].state, CellState::Open);
    assert_eq!(f.num_of_closed_left(), 0);
    assert!(f.game_over());
}

#[test]
fn unsatisfied_number_does_not_cascade() {
    let mut f = pocket_board();
    f.flag_at(0, 1);
    assert_eq!(f.open_at(1, 1), Ok(()));
    assert_eq!(f.grid[0][0].state, CellState::Closed);
    assert_eq!(f.num_of_closed_left(), 2);
}

#[test]
fn mine_next_to_start_moves_to_first_free_cell_outside() {
    // Draw 6 puts the mine at (1, 1), inside the square around (0, 0).
    let f = Field::with_picks(5, 5, &vec![6], 0, 0);
    assert_eq!(mines_in(&f), 1);
    assert_eq!(f.grid[1][1].cell, CellType::Num(1));
    assert_eq!(f.grid[0][2].cell, CellType::Mine);
    assert_eq!(f.grid[0][0].state, CellState::Open);
}

#[test]
fn dense_board_keeps_start_cell_safe() {
    // Eight mines on a 3x3 board: the first lands on the start cell (1, 1).
    let f = Field::with_picks(3, 3, &vec![4, 0, 0, 0, 0, 0, 0, 0], 1, 1);
    assert_eq!(mines_in(&f), 8);
    assert_eq!(f.grid[1][1].cell, CellType::Num(8));
    assert_eq!(f.grid[2][2].cell, CellType::Mine);
    assert_eq!(f.grid[1][1].state, CellState::Open);
    assert_eq!(f.num_of_closed_left(), 8);
}

#[test]
fn draws_pick_among_free_cells_in_row_major_order() {
    // Draws 0, 0, 0 take the first free cell each time: (0,0), (0,1), (0,2).
    let f = Field::with_picks(4, 4, &vec![0, 0, 0], 3, 3);
    assert_eq!(f.grid[0][0].cell, CellType::Mine);
    assert_eq!(f.grid[0][1].cell, CellType::Mine);
    assert_eq!(f.grid[0][2].cell, CellType::Mine);
    assert_eq!(f.grid[1][1].cell, CellType::Num(3));
    assert_eq!(f.grid[1][3].cell, CellType::Num(1));
}

#[test]
fn fixed_draws_give_exact_layout() {
    // Draws 6, 0, 10 put mines on (1, 1), (0, 0) and (2, 2). Starting at (0, 0),
    // the mine on (0, 0) moves to (0, 2) and the one on (1, 1) to (0, 3).
    let f = Field::with_picks(5, 5, &vec![6, 0, 10], 0, 0);
    let mines: Vec<(usize, usize)> = vec![(0, 2), (0, 3), (2, 2)];
    for r in 0..5 {
        for c in 0..5 {
            assert_eq!(f.grid[r][c].cell == CellType::Mine, mines.contains(&(r, c)), "cell ({}, {})", r, c);
        }
    }
    assert_eq!(f.grid[1][2].cell, CellType::Num(3));
    assert_eq!(f.grid[0][0].cell, CellType::Empty);
}

#[test]
fn put_nums_renumbers_every_cell() {
    let mut f = Field::with_picks(5, 5, &vec![6, 0, 10], 0, 0);
    let before = f.grid.clone();
    f.grid[4][4].cell = CellType::Num(7);
    f.grid[1][2].cell = CellType::Empty;
    f.put_nums();
    assert_eq!(f.grid, before);
}

#[test]
fn is_valid_checks_bounds() {
    let f = corner_board();
    assert!(f.is_valid(0, 0));
    assert!(f.is_valid(4, 4));
    assert!(!f.is_valid(-1, 0));
    assert!(!f.is_valid(0, 5));
    assert!(!f.is_valid(5, 0));
}
