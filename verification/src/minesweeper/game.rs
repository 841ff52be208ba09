//! Top-level state of one Minesweeper session and its input decisions.
use vstd::prelude::*;

use super::components::{Board, BoardState, BoardView, CellState};
use super::difficulties::{DifficultyData, fallback};
use super::systems::{
    chord, chord_result, place_mines, placed_board, reveal_cell, reveal_result, toggle_flag,
    toggle_flag_result,
};
use crate::game_state::GameState;

verus! {

/// The board after a left click on (`col`, `row`): the first click places
/// the mines around it and reveals it; later, a click on a revealed cell
/// chords and a click elsewhere reveals.
pub open spec fn left_click_result(b: BoardView, col: int, row: int, draws: Seq<(usize, usize)>) -> BoardView {
    if !b.mines_placed {
        reveal_result(placed_board(b, draws, col, row), col, row)
    } else if b.at(col, row).state == CellState::Revealed {
        chord_result(b, col, row)
    } else {
        reveal_result(b, col, row)
    }
}

/// The board after the presses of one frame on (`col`, `row`): left, then
/// middle (chord), then right (flag).
pub open spec fn click_result(
    b: BoardView,
    col: int,
    row: int,
    left: bool,
    middle: bool,
    right: bool,
    draws: Seq<(usize, usize)>,
) -> BoardView {
    let b1 = if left {
        left_click_result(b, col, row, draws)
    } else {
        b
    };
    let b2 = if middle {
        chord_result(b1, col, row)
    } else {
        b1
    };
    if right {
        toggle_flag_result(b2, col, row)
    } else {
        b2
    }
}

/// Once the mines are down, a left click on a revealed cell chords it: the
/// board it gives is the one a chord on that cell gives, and the one a
/// middle click there gives.
pub proof fn lemma_left_click_on_number_chords(b: BoardView, col: int, row: int, draws: Seq<(usize, usize)>)
    requires
        b.mines_placed,
        b.on_board(col, row),
        b.at(col, row).state == CellState::Revealed,
    ensures
        click_result(b, col, row, true, false, false, draws) == chord_result(b, col, row),
        click_result(b, col, row, true, false, false, draws) == click_result(b, col, row, false, true, false, draws),
{
}

/// The session phase once the board's outcome is known: a won board wins
/// the session, a lost one ends it.
pub open spec fn phase_after(state: GameState, board: BoardState) -> GameState {
    match board {
        BoardState::Won => GameState::Win,
        BoardState::Lost => GameState::GameOver,
        _ => state,
    }
}

/// The pointer is over a cell of the board.
pub open spec fn target_on(b: BoardView, cell: Option<(usize, usize)>) -> bool {
    match cell {
        Some(p) => b.on_board(p.0 as int, p.1 as int),
        None => false,
    }
}

/// Column and row under the pointer.
pub open spec fn target(cell: Option<(usize, usize)>) -> (int, int) {
    match cell {
        Some(p) => (p.0 as int, p.1 as int),
        None => (0, 0),
    }
}

/// Top-level state for one Minesweeper session.
pub struct Game {
    pub state: GameState,
    pub difficulties: Vec<DifficultyData>,
    pub selected_difficulty: usize,
    /// Active board (valid when state == Playing / Win / GameOver).
    pub board: Board,
    pub timer_running: bool,
}

impl Game {
    /// The difficulties are playable, one of them is selected, and the
    /// board is consistent and holds its mines.
    pub open spec fn wf(&self) -> bool {
        &&& self.difficulties@.len() > 0
        &&& self.selected_difficulty < self.difficulties@.len()
        &&& forall|i: int| 0 <= i < self.difficulties@.len() ==> (#[trigger] self.difficulties@[i]).playable()
        &&& self.board.wf()
        &&& self.board.mine_count <= self.board.width * self.board.height
        &&& self.board.width * self.board.height * 20 <= usize::MAX
    }

    /// A session at the menu on the first difficulty, with a Beginner
    /// board; with no difficulty given, the Beginner one alone.
    pub fn new(difficulties: Vec<DifficultyData>) -> (g: Self)
        requires
            forall|i: int| 0 <= i < difficulties@.len() ==> (#[trigger] difficulties@[i]).playable(),
        ensures
            g.wf(),
            g.state == GameState::Start,
            g.selected_difficulty == 0,
            g.difficulties@ == (if difficulties@.len() > 0 {
                difficulties@
            } else {
                g.difficulties@
            }),
            difficulties@.len() == 0 ==> g.difficulties@.len() == 1 && g.difficulties@[0].width == 9
                && g.difficulties@[0].height == 9 && g.difficulties@[0].mines == 10,
            g.board@ == Board::new_view(9, 9, 10),
            !g.timer_running,
    {
        let difficulties = if difficulties.len() > 0 {
            difficulties
        } else {
            fallback()
        };
        Game {
            state: GameState::Start,
            difficulties,
            selected_difficulty: 0,
            board: Board::new(9, 9, 10),
            timer_running: false,
        }
    }

    /// The selected difficulty.
    pub fn current_difficulty(&self) -> (d: &DifficultyData)
        requires
            self.wf(),
        ensures
            *d == self.difficulties@[self.selected_difficulty as int],
    {
        &self.difficulties[self.selected_difficulty]
    }

    /// Start a new board at the selected difficulty.
    pub fn start_game(&mut self)
        requires
            old(self).wf(),
        ensures
            final(self).wf(),
            final(self).state == GameState::Playing,
            !final(self).timer_running,
            final(self).board@ == Board::new_view(
                old(self).difficulties@[old(self).selected_difficulty as int].width as int,
                old(self).difficulties@[old(self).selected_difficulty as int].height as int,
                old(self).difficulties@[old(self).selected_difficulty as int].mines as int,
            ),
            final(self).difficulties@ == old(self).difficulties@,
            final(self).selected_difficulty == old(self).selected_difficulty,
    {
        let d = &self.difficulties[self.selected_difficulty];
        let (w, h, m) = (d.width, d.height, d.mines);
        assert(self.difficulties@[self.selected_difficulty as int].playable());
        self.board = Board::new(w, h, m);
        self.timer_running = false;
        self.state = GameState::Playing;
    }

    /// The session is in play and the board still takes moves.
    pub fn is_playable(&self) -> (r: bool)
        ensures
            r == (self.state == GameState::Playing && (self.board.state == BoardState::Ready
                || self.board.state == BoardState::Playing)),
    {
        self.state == GameState::Playing && (self.board.state == BoardState::Ready
            || self.board.state == BoardState::Playing)
    }

    /// One frame of mouse input on the cell (`col`, `row`) under the
    /// pointer, if any: applied only while the board takes moves. The first
    /// left click places the mines, taking cell positions from `draws`, and
    /// starts the timer. Then a won or lost board ends the session.
    pub fn handle_click(
        &mut self,
        cell: Option<(usize, usize)>,
        left: bool,
        middle: bool,
        right: bool,
        draws: &[(usize, usize)],
    )
        requires
            old(self).wf(),
            forall|k: int|
                0 <= k < draws@.len() ==> (#[trigger] draws@[k]).0 < old(self).board.width
                    && draws@[k].1 < old(self).board.height,
        ensures
            final(self).wf(),
            final(self).difficulties@ == old(self).difficulties@,
            final(self).selected_difficulty == old(self).selected_difficulty,
            ({
                let go = old(self).state == GameState::Playing && (old(self).board.state
                    == BoardState::Ready || old(self).board.state == BoardState::Playing)
                    && target_on(old(self).board@, cell);
                let p = target(cell);
                let b = if go {
                    click_result(old(self).board@, p.0, p.1, left, middle, right, draws@)
                } else {
                    old(self).board@
                };
                let started = go && left && !old(self).board.mines_placed;
                &&& final(self).board@ == b
                &&& final(self).state == phase_after(old(self).state, b.state)
                &&& final(self).timer_running == ((old(self).timer_running || started) && !(
                b.state is Won || b.state is Lost))
            }),
    {
        if self.is_playable() {
            if let Some((col, row)) = cell {
                if col < self.board.width && row < self.board.height {
                    let started = apply_click(&mut self.board, col, row, left, middle, right, draws);
                    if started {
                        self.timer_running = true;
                    }
                }
            }
        }
        match self.board.state {
            BoardState::Won => {
                self.timer_running = false;
                self.state = GameState::Win;
            },
            BoardState::Lost => {
                self.timer_running = false;
                self.state = GameState::GameOver;
            },
            _ => {},
        }
    }
}

/// The presses of one frame on the cell (`col`, `row`); true when this
/// left click was the first, which places the mines.
fn apply_click(
    board: &mut Board,
    col: usize,
    row: usize,
    left: bool,
    middle: bool,
    right: bool,
    draws: &[(usize, usize)],
) -> (started: bool)
    requires
        old(board).wf(),
        old(board).mine_count <= old(board).width * old(board).height,
        old(board).width * old(board).height * 20 <= usize::MAX,
        col < old(board).width,
        row < old(board).height,
        forall|k: int|
            0 <= k < draws@.len() ==> (#[trigger] draws@[k]).0 < old(board).width && draws@[k].1
                < old(board).height,
    ensures
        final(board).wf(),
        final(board).mine_count <= final(board).width * final(board).height,
        final(board).width * final(board).height * 20 <= usize::MAX,
        final(board)@ == click_result(old(board)@, col as int, row as int, left, middle, right, draws@),
        started == (left && !old(board).mines_placed),
{
    let mut started = false;
    if left {
        started = !board.mines_placed;
        left_click(board, col, row, draws);
    }
    let ghost b1 = board@;
    if middle {
        chord(board, col, row);
    }
    let ghost b2 = board@;
    if right {
        toggle_flag(board, col, row);
    }
    started
}

/// A left click on (`col`, `row`).
fn left_click(board: &mut Board, col: usize, row: usize, draws: &[(usize, usize)])
    requires
        old(board).wf(),
        old(board).mine_count <= old(board).width * old(board).height,
        old(board).width * old(board).height * 20 <= usize::MAX,
        col < old(board).width,
        row < old(board).height,
        forall|k: int|
            0 <= k < draws@.len() ==> (#[trigger] draws@[k]).0 < old(board).width && draws@[k].1
                < old(board).height,
    ensures
        final(board).wf(),
        final(board).width == old(board).width,
        final(board).height == old(board).height,
        final(board).mine_count == old(board).mine_count,
        final(board)@ == left_click_result(old(board)@, col as int, row as int, draws@),
{
    if !board.mines_placed {
        place_mines(board, col, row, draws);
        reveal_cell(board, col, row);
    } else {
        let len = board.cells.len();
        proof {
            super::components::lemma_index_in_bounds(
                board.width as int,
                board.height as int,
                col as int,
                row as int,
            );
        }
        if board.cells[row * board.width + col].is_revealed() {
            chord(board, col, row);
        } else {
            reveal_cell(board, col, row);
        }
    }
}

} // verus!
