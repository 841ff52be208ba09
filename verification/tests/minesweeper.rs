use ember_games::game_state::GameState;
use ember_games::minesweeper::components::{Board, BoardState, Cell, CellState};
use ember_games::minesweeper::difficulties::{fallback, DifficultyData};
use ember_games::minesweeper::game::Game;
use ember_games::minesweeper::systems::{
    check_win, chord, compute_adjacency, place_mines, reveal_cell, toggle_flag,
};
use ember_games::rng::next_state;

/// Cell positions drawn from a seeded xorshift generator, as many as
/// placement may take on a `w` x `h` board.
fn draws_for(seed: u32, w: usize, h: usize) -> Vec<(usize, usize)> {
    let mut s = seed;
    let mut v = Vec::new();
    for _ in 0..w * h * 20 {
        s = next_state(s);
        let c = (s as usize) % w;
        s = next_state(s);
        let r = (s as usize) % h;
        v.push((c, r));
    }
    v
}

fn at(b: &Board, c: usize, r: usize) -> Cell {
    b.cell(c, r).unwrap()
}

fn neighbors(b: &Board, c: usize, r: usize) -> Vec<(usize, usize)> {
    b.neighbor_coords_8(c, r)
}

/// A board with mines at explicit positions, adjacency computed, in play.
fn board_with(w: usize, h: usize, mines: &[(usize, usize)]) -> Board {
    let mut b = Board::new(w, h, mines.len());
    for &(c, r) in mines {
        b.cells[r * w + c].is_mine = true;
    }
    compute_adjacency(&mut b);
    b.mines_placed = true;
    b.state = BoardState::Playing;
    b
}

// --- components ---

#[test]
fn test_board_starts_ready_and_empty() {
    let b = Board::new(9, 9, 10);
    assert_eq!(b.state, BoardState::Ready);
    assert!(!b.mines_placed);
    assert_eq!(b.revealed_count, 0);
    assert_eq!(b.flagged_count, 0);
    assert_eq!(b.mines_remaining(), 10);
}

#[test]
fn test_safe_cell_count() {
    let b = Board::new(9, 9, 10);
    assert_eq!(b.safe_cell_count(), 71);
}

#[test]
fn test_all_cells_default_hidden() {
    let b = Board::new(3, 3, 1);
    for r in 0..3 {
        for c in 0..3 {
            let cell = at(&b, c, r);
            assert_eq!(cell.state, CellState::Hidden);
            assert!(!cell.is_mine);
        }
    }
}

#[test]
fn cell_off_the_board_is_none() {
    let b = Board::new(3, 2, 1);
    assert!(b.cell(3, 0).is_none());
    assert!(b.cell(0, 2).is_none());
    assert!(b.cell(2, 1).is_some());
}

#[test]
fn mines_remaining_goes_negative_when_over_flagged() {
    let mut b = board_with(3, 3, &[(0, 0)]);
    toggle_flag(&mut b, 1, 1);
    toggle_flag(&mut b, 2, 2);
    assert_eq!(b.mines_remaining(), -1);
}

#[test]
fn neighbor_order_and_edges() {
    let b = Board::new(3, 3, 0);
    assert_eq!(
        neighbors(&b, 1, 1),
        vec![(0, 0), (1, 0), (2, 0), (0, 1), (2, 1), (0, 2), (1, 2), (2, 2)]
    );
    assert_eq!(neighbors(&b, 0, 0), vec![(1, 0), (0, 1), (1, 1)]);
    assert_eq!(neighbors(&b, 2, 2), vec![(1, 1), (2, 1), (1, 2)]);
}

// --- difficulties ---

#[test]
fn test_fallback_has_one() {
    let list = fallback();
    assert_eq!(list.len(), 1);
    assert_eq!(list[0].width, 9);
    assert_eq!(list[0].height, 9);
    assert_eq!(list[0].mines, 10);
    assert_eq!(list[0].name, "Beginner");
}

// --- place_mines ---

#[test]
fn test_place_mines_count() {
    let mut b = Board::new(9, 9, 10);
    place_mines(&mut b, 4, 4, &draws_for(42, 9, 9));
    let count = b.cells.iter().filter(|c| c.is_mine).count();
    assert_eq!(count, 10);
    assert!(b.mines_placed);
    assert_eq!(b.state, BoardState::Playing);
}

#[test]
fn test_place_mines_first_click_safe() {
    let mut b = Board::new(9, 9, 10);
    place_mines(&mut b, 4, 4, &draws_for(7, 9, 9));
    assert!(!at(&b, 4, 4).is_mine);
    for (c, r) in neighbors(&b, 4, 4) {
        assert!(!at(&b, c, r).is_mine);
    }
}

#[test]
fn test_place_mines_corner_first_click_safe() {
    let mut b = Board::new(9, 9, 10);
    place_mines(&mut b, 0, 0, &draws_for(7, 9, 9));
    assert!(!at(&b, 0, 0).is_mine);
    for (c, r) in neighbors(&b, 0, 0) {
        assert!(!at(&b, c, r).is_mine);
    }
}

#[test]
fn test_place_mines_adjacent_counts() {
    let mut b = Board::new(9, 9, 10);
    place_mines(&mut b, 4, 4, &draws_for(99, 9, 9));
    for row in 0..9 {
        for col in 0..9 {
            let cell = at(&b, col, row);
            if cell.is_mine {
                continue;
            }
            let expected = neighbors(&b, col, row)
                .iter()
                .filter(|(c, r)| at(&b, *c, *r).is_mine)
                .count() as u8;
            assert_eq!(cell.adjacent, expected, "at ({col},{row})");
        }
    }
}

#[test]
fn place_mines_takes_draws_in_order_skipping_safe_and_repeats() {
    let mut b = Board::new(5, 5, 2);
    // (2, 2) and (1, 1) are in the safe zone, (4, 4) repeats.
    let draws = vec![(2, 2), (4, 4), (1, 1), (4, 4), (0, 4), (3, 0)];
    let used = place_mines(&mut b, 2, 2, &draws);
    assert_eq!(used, 5);
    assert!(at(&b, 4, 4).is_mine);
    assert!(at(&b, 0, 4).is_mine);
    assert!(!at(&b, 3, 0).is_mine);
    assert_eq!(b.cells.iter().filter(|c| c.is_mine).count(), 2);
    assert_eq!(at(&b, 3, 3).adjacent, 1);
    assert_eq!(at(&b, 1, 3).adjacent, 1);
    assert_eq!(at(&b, 0, 3).adjacent, 1);
}

#[test]
fn place_mines_stops_when_draws_run_out() {
    let mut b = Board::new(5, 5, 3);
    let used = place_mines(&mut b, 0, 0, &[(4, 4), (0, 0)]);
    assert_eq!(used, 2);
    assert_eq!(b.cells.iter().filter(|c| c.is_mine).count(), 1);
    assert!(b.mines_placed);
}

#[test]
fn test_first_click_never_hits_mine() {
    for seed in 0..200u32 {
        let mut b = Board::new(9, 9, 10);
        let (c, r) = (4, 4);
        place_mines(&mut b, c, r, &draws_for(seed.wrapping_mul(2654435761).wrapping_add(1), 9, 9));
        assert!(!at(&b, c, r).is_mine, "seed {seed} placed a mine on the first-click cell");
        for (nc, nr) in neighbors(&b, c, r) {
            assert!(!at(&b, nc, nr).is_mine, "seed {seed} placed a mine in the safe zone at ({nc},{nr})");
        }
    }
}

// --- reveal ---

#[test]
fn test_reveal_simple() {
    let mut b = board_with(3, 3, &[(0, 0)]);
    reveal_cell(&mut b, 1, 1);
    assert!(at(&b, 1, 1).is_revealed());
    assert_eq!(b.revealed_count, 1);
}

#[test]
fn test_reveal_flagged_is_noop() {
    let mut b = board_with(3, 3, &[(0, 0)]);
    toggle_flag(&mut b, 2, 2);
    reveal_cell(&mut b, 2, 2);
    assert!(at(&b, 2, 2).is_flagged());
    assert_eq!(b.revealed_count, 0);
}

#[test]
fn test_reveal_already_revealed_is_noop() {
    let mut b = board_with(3, 3, &[(0, 0)]);
    reveal_cell(&mut b, 1, 1);
    assert_eq!(b.revealed_count, 1);
    reveal_cell(&mut b, 1, 1);
    assert_eq!(b.revealed_count, 1, "second reveal must be a no-op");
}

#[test]
fn test_reveal_mine_loses() {
    let mut b = board_with(3, 3, &[(0, 0)]);
    reveal_cell(&mut b, 0, 0);
    assert_eq!(b.state, BoardState::Lost);
    assert_eq!(b.revealed_count, 1);
}

#[test]
fn reveal_off_the_board_is_noop() {
    let mut b = board_with(3, 3, &[(0, 0)]);
    reveal_cell(&mut b, 3, 0);
    assert_eq!(b.revealed_count, 0);
    assert_eq!(b.state, BoardState::Playing);
}

#[test]
fn test_flood_fill_empty_region() {
    let mut b = board_with(5, 5, &[(0, 0)]);
    reveal_cell(&mut b, 4, 4);
    assert_eq!(b.revealed_count, 24);
    assert_eq!(b.state, BoardState::Won);
}

#[test]
fn test_flood_fill_reveals_frontier_but_stops() {
    let mut b = board_with(5, 5, &[(0, 0)]);
    reveal_cell(&mut b, 4, 4);
    assert_eq!(b.revealed_count, 24);
    assert_eq!(b.state, BoardState::Won);
    assert!(at(&b, 1, 0).is_revealed());
    assert!(at(&b, 1, 1).is_revealed());
    assert!(!at(&b, 0, 0).is_revealed());
}

#[test]
fn test_flood_fill_does_not_cross_empty_wall() {
    let mut b = board_with(5, 5, &[(0, 0), (4, 4)]);
    reveal_cell(&mut b, 2, 2);
    assert!(!at(&b, 0, 0).is_revealed());
    assert!(!at(&b, 4, 4).is_revealed());
    assert_eq!(b.revealed_count, 23);
}

#[test]
fn flood_fill_stops_at_a_wall_of_numbers() {
    // A column of mines splits the board: the flood stays on its side.
    let mut b = board_with(5, 3, &[(2, 0), (2, 1), (2, 2)]);
    reveal_cell(&mut b, 0, 1);
    for r in 0..3 {
        assert!(at(&b, 0, r).is_revealed());
        assert!(at(&b, 1, r).is_revealed());
        assert!(!at(&b, 3, r).is_revealed());
        assert!(!at(&b, 4, r).is_revealed());
    }
    assert_eq!(b.revealed_count, 6);
    assert_eq!(b.state, BoardState::Playing);
}

#[test]
fn flood_fill_leaves_flags_alone() {
    let mut b = board_with(4, 1, &[]);
    toggle_flag(&mut b, 3, 0);
    reveal_cell(&mut b, 0, 0);
    assert!(at(&b, 3, 0).is_flagged());
    assert_eq!(b.revealed_count, 3);
    assert_eq!(b.flagged_count, 1);
    assert_eq!(b.state, BoardState::Playing);
}

#[test]
fn test_reveal_after_lost_is_noop() {
    let mut b = board_with(3, 3, &[(0, 0)]);
    reveal_cell(&mut b, 0, 0);
    assert_eq!(b.state, BoardState::Lost);
    let before = b.revealed_count;
    reveal_cell(&mut b, 1, 1);
    assert_eq!(b.revealed_count, before);
}

// --- flag ---

#[test]
fn test_toggle_flag() {
    let mut b = board_with(3, 3, &[(0, 0)]);
    toggle_flag(&mut b, 2, 2);
    assert!(at(&b, 2, 2).is_flagged());
    assert_eq!(b.flagged_count, 1);
    toggle_flag(&mut b, 2, 2);
    assert!(at(&b, 2, 2).is_hidden());
    assert_eq!(b.flagged_count, 0);
}

#[test]
fn test_flag_on_revealed_is_noop() {
    let mut b = board_with(3, 3, &[(0, 0)]);
    reveal_cell(&mut b, 2, 2);
    toggle_flag(&mut b, 2, 2);
    assert!(at(&b, 2, 2).is_revealed());
    assert_eq!(b.flagged_count, 0);
}

#[test]
fn flag_after_lost_is_noop() {
    let mut b = board_with(3, 3, &[(0, 0)]);
    reveal_cell(&mut b, 0, 0);
    toggle_flag(&mut b, 2, 2);
    assert!(at(&b, 2, 2).is_hidden());
    assert_eq!(b.flagged_count, 0);
}

// --- chord ---

#[test]
fn test_chord_reveals_when_flags_match() {
    let mut b = board_with(3, 3, &[(0, 0)]);
    reveal_cell(&mut b, 1, 1);
    assert!(at(&b, 1, 1).is_revealed());
    toggle_flag(&mut b, 0, 0);
    chord(&mut b, 1, 1);
    assert!(at(&b, 0, 1).is_revealed());
    assert!(at(&b, 1, 0).is_revealed());
}

#[test]
fn test_chord_does_nothing_without_flags() {
    let mut b = board_with(3, 3, &[(0, 0)]);
    reveal_cell(&mut b, 1, 1);
    chord(&mut b, 1, 1);
    assert!(at(&b, 0, 1).is_hidden());
    assert!(at(&b, 1, 0).is_hidden());
}

#[test]
fn test_chord_on_wrong_flag_count_is_noop() {
    let mut b = board_with(3, 3, &[(0, 0)]);
    reveal_cell(&mut b, 1, 1);
    toggle_flag(&mut b, 0, 1);
    chord(&mut b, 1, 1);
    assert_eq!(b.state, BoardState::Lost);
}

#[test]
fn chord_on_hidden_cell_is_noop() {
    let mut b = board_with(3, 3, &[(0, 0)]);
    toggle_flag(&mut b, 0, 0);
    chord(&mut b, 1, 1);
    assert_eq!(b.revealed_count, 0);
}

// --- win ---

#[test]
fn test_win_when_all_safe_revealed() {
    let mut b = board_with(2, 2, &[(0, 0)]);
    reveal_cell(&mut b, 1, 0);
    reveal_cell(&mut b, 0, 1);
    reveal_cell(&mut b, 1, 1);
    assert_eq!(b.state, BoardState::Won);
}

#[test]
fn check_win_needs_every_safe_cell() {
    let mut b = board_with(2, 2, &[(0, 0)]);
    reveal_cell(&mut b, 1, 0);
    check_win(&mut b);
    assert_eq!(b.state, BoardState::Playing);
}

#[test]
fn test_full_win_scenario() {
    let mut b = board_with(3, 3, &[(0, 0)]);
    for r in 0..3 {
        for c in 0..3 {
            if at(&b, c, r).is_mine {
                continue;
            }
            reveal_cell(&mut b, c, r);
        }
    }
    assert_eq!(b.state, BoardState::Won);
    assert_eq!(b.revealed_count, 8);
}

#[test]
fn test_full_lose_scenario() {
    let mut b = board_with(3, 3, &[(0, 0)]);
    reveal_cell(&mut b, 0, 0);
    assert_eq!(b.state, BoardState::Lost);
}

#[test]
fn test_flood_fill_on_large_empty_board() {
    let mut b = board_with(5, 5, &[(0, 0)]);
    reveal_cell(&mut b, 4, 4);
    assert_eq!(b.state, BoardState::Won);
    assert_eq!(b.revealed_count, 24);
}

#[test]
fn test_flag_then_chord_sequence() {
    let mut b = board_with(3, 3, &[(0, 0)]);
    reveal_cell(&mut b, 1, 1);
    assert!(at(&b, 1, 1).is_revealed());
    toggle_flag(&mut b, 0, 0);
    assert!(at(&b, 0, 0).is_flagged());
    chord(&mut b, 1, 1);
    assert_eq!(b.state, BoardState::Won);
}

// --- session ---

fn beginner() -> Vec<DifficultyData> {
    vec![DifficultyData { name: "Beginner".to_string(), width: 9, height: 9, mines: 10 }]
}

#[test]
fn session_starts_at_menu_and_falls_back() {
    let g = Game::new(Vec::new());
    assert_eq!(g.state, GameState::Start);
    assert_eq!(g.difficulties.len(), 1);
    assert_eq!(g.current_difficulty().name, "Beginner");
    assert!(!g.is_playable());
}

#[test]
fn session_first_click_places_mines_and_starts_timer() {
    let mut g = Game::new(beginner());
    g.start_game();
    assert_eq!(g.state, GameState::Playing);
    assert!(g.is_playable());
    assert!(!g.timer_running);
    g.handle_click(Some((4, 4)), true, false, false, &draws_for(3, 9, 9));
    assert!(g.board.mines_placed);
    assert!(at(&g.board, 4, 4).is_revealed());
    assert!(g.timer_running);
    assert_eq!(g.board.cells.iter().filter(|c| c.is_mine).count(), 10);
}

#[test]
fn session_click_outside_the_board_does_nothing() {
    let mut g = Game::new(beginner());
    g.start_game();
    g.handle_click(None, true, false, false, &draws_for(3, 9, 9));
    assert!(!g.board.mines_placed);
    g.handle_click(Some((9, 0)), true, false, false, &draws_for(3, 9, 9));
    assert!(!g.board.mines_placed);
    assert!(!g.timer_running);
}

#[test]
fn session_right_click_flags() {
    let mut g = Game::new(beginner());
    g.start_game();
    g.handle_click(Some((2, 3)), false, false, true, &[]);
    assert!(at(&g.board, 2, 3).is_flagged());
    assert_eq!(g.board.flagged_count, 1);
}

#[test]
fn session_lost_board_ends_the_game() {
    let mut g = Game::new(vec![DifficultyData { name: "Tiny".to_string(), width: 3, height: 3, mines: 1 }]);
    g.start_game();
    g.board = board_with(3, 3, &[(0, 0)]);
    g.timer_running = true;
    g.handle_click(Some((0, 0)), true, false, false, &[]);
    assert_eq!(g.board.state, BoardState::Lost);
    assert_eq!(g.state, GameState::GameOver);
    assert!(!g.timer_running);
    // No more moves once lost.
    assert!(!g.is_playable());
}

#[test]
fn session_won_board_wins_the_game() {
    let mut g = Game::new(vec![DifficultyData { name: "Tiny".to_string(), width: 3, height: 3, mines: 1 }]);
    g.start_game();
    g.board = board_with(3, 3, &[(0, 0)]);
    g.timer_running = true;
    g.handle_click(Some((2, 2)), true, false, false, &[]);
    assert_eq!(g.board.state, BoardState::Won);
    assert_eq!(g.state, GameState::Win);
    assert!(!g.timer_running);
}
