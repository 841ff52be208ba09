//! Game logic: mine placement, reveal, flag, chord, win/lose detection.
use vstd::prelude::*;

use super::components::{
    Board, BoardState, BoardView, Cell, CellState, cell_index, count_mines, count_state,
    lemma_count_mines_update, lemma_count_state_bound,
    lemma_count_state_total,
    lemma_count_state_update, lemma_index_in_bounds,
};

verus! {

// ============================================================================
// Neighborhood
// ============================================================================

/// (`x`, `y`) as a one-element list when it lies on the board, else empty.
pub open spec fn pos_if_on(b: BoardView, x: int, y: int) -> Seq<(usize, usize)> {
    if b.on_board(x, y) {
        seq![(x as usize, y as usize)]
    } else {
        Seq::empty()
    }
}

/// The on-board neighbors of (`c`, `r`), row by row from the row above.
pub open spec fn neighbor_coords(b: BoardView, c: int, r: int) -> Seq<(usize, usize)> {
    pos_if_on(b, c - 1, r - 1) + pos_if_on(b, c, r - 1) + pos_if_on(b, c + 1, r - 1) + pos_if_on(
        b,
        c - 1,
        r,
    ) + pos_if_on(b, c + 1, r) + pos_if_on(b, c - 1, r + 1) + pos_if_on(b, c, r + 1) + pos_if_on(
        b,
        c + 1,
        r + 1,
    )
}

/// (`x`, `y`) is an on-board neighbor of (`c`, `r`).
pub open spec fn is_neighbor(b: BoardView, c: int, r: int, x: int, y: int) -> bool {
    &&& b.on_board(x, y)
    &&& c - 1 <= x <= c + 1
    &&& r - 1 <= y <= r + 1
    &&& (x != c || y != r)
}

/// 1 when (`x`, `y`) is on the board and holds a mine.
pub open spec fn mine_at(b: BoardView, x: int, y: int) -> nat {
    if b.on_board(x, y) && b.at(x, y).is_mine { 1 } else { 0 }
}

/// Number of mines among the eight cells around (`c`, `r`).
pub open spec fn adjacent_mines(b: BoardView, c: int, r: int) -> nat {
    mine_at(b, c - 1, r - 1) + mine_at(b, c, r - 1) + mine_at(b, c + 1, r - 1) + mine_at(b, c - 1, r)
        + mine_at(b, c + 1, r) + mine_at(b, c - 1, r + 1) + mine_at(b, c, r + 1) + mine_at(
        b,
        c + 1,
        r + 1,
    )
}

/// The list of neighbors holds exactly the on-board neighbors.
pub proof fn lemma_neighbor_coords(b: BoardView, c: int, r: int)
    requires
        b.width <= usize::MAX,
        b.height <= usize::MAX,
    ensures
        neighbor_coords(b, c, r).len() <= 8,
        forall|k: int|
            0 <= k < neighbor_coords(b, c, r).len() ==> is_neighbor(
                b,
                c,
                r,
                (#[trigger] neighbor_coords(b, c, r)[k]).0 as int,
                neighbor_coords(b, c, r)[k].1 as int,
            ),
        forall|x: int, y: int|
            #[trigger] is_neighbor(b, c, r, x, y) ==> neighbor_coords(b, c, r).contains(
                (x as usize, y as usize),
            ),
{
    let s = neighbor_coords(b, c, r);
    let p1 = pos_if_on(b, c - 1, r - 1);
    let p2 = pos_if_on(b, c, r - 1);
    let p3 = pos_if_on(b, c + 1, r - 1);
    let p4 = pos_if_on(b, c - 1, r);
    let p5 = pos_if_on(b, c + 1, r);
    let p6 = pos_if_on(b, c - 1, r + 1);
    let p7 = pos_if_on(b, c, r + 1);
    let p8 = pos_if_on(b, c + 1, r + 1);
    lemma_pos_if_on(b, c, r, c - 1, r - 1);
    lemma_pos_if_on(b, c, r, c, r - 1);
    lemma_pos_if_on(b, c, r, c + 1, r - 1);
    lemma_pos_if_on(b, c, r, c - 1, r);
    lemma_pos_if_on(b, c, r, c + 1, r);
    lemma_pos_if_on(b, c, r, c - 1, r + 1);
    lemma_pos_if_on(b, c, r, c, r + 1);
    lemma_pos_if_on(b, c, r, c + 1, r + 1);
    lemma_all_neighbors_add(b, c, r, p1, p2);
    lemma_all_neighbors_add(b, c, r, p1 + p2, p3);
    lemma_all_neighbors_add(b, c, r, p1 + p2 + p3, p4);
    lemma_all_neighbors_add(b, c, r, p1 + p2 + p3 + p4, p5);
    lemma_all_neighbors_add(b, c, r, p1 + p2 + p3 + p4 + p5, p6);
    lemma_all_neighbors_add(b, c, r, p1 + p2 + p3 + p4 + p5 + p6, p7);
    lemma_all_neighbors_add(b, c, r, p1 + p2 + p3 + p4 + p5 + p6 + p7, p8);
    assert forall|x: int, y: int| #[trigger] is_neighbor(b, c, r, x, y) implies s.contains(
        (x as usize, y as usize),
    ) by {
        let p = (x as usize, y as usize);
        let s1 = pos_if_on(b, c - 1, r - 1);
        let s2 = s1 + pos_if_on(b, c, r - 1);
        let s3 = s2 + pos_if_on(b, c + 1, r - 1);
        let s4 = s3 + pos_if_on(b, c - 1, r);
        let s5 = s4 + pos_if_on(b, c + 1, r);
        let s6 = s5 + pos_if_on(b, c - 1, r + 1);
        let s7 = s6 + pos_if_on(b, c, r + 1);
        let s8 = s7 + pos_if_on(b, c + 1, r + 1);
        assert(s8 == s);
        if y == r - 1 && x == c - 1 {
            assert(s1[0] == p);
            assert(s[0] == p);
        } else if y == r - 1 && x == c {
            assert(s2[s1.len() as int] == p);
            assert(s[s1.len() as int] == p);
        } else if y == r - 1 {
            assert(s3[s2.len() as int] == p);
            assert(s[s2.len() as int] == p);
        } else if y == r && x == c - 1 {
            assert(s4[s3.len() as int] == p);
            assert(s[s3.len() as int] == p);
        } else if y == r {
            assert(s5[s4.len() as int] == p);
            assert(s[s4.len() as int] == p);
        } else if x == c - 1 {
            assert(s6[s5.len() as int] == p);
            assert(s[s5.len() as int] == p);
        } else if x == c {
            assert(s7[s6.len() as int] == p);
            assert(s[s6.len() as int] == p);
        } else {
            assert(s8[s7.len() as int] == p);
            assert(s[s7.len() as int] == p);
        }
    }
}

/// Every position of `s` is an on-board neighbor of (`c`, `r`).
pub open spec fn all_neighbors(b: BoardView, c: int, r: int, s: Seq<(usize, usize)>) -> bool {
    forall|k: int| 0 <= k < s.len() ==> is_neighbor(b, c, r, (#[trigger] s[k]).0 as int, s[k].1 as int)
}

proof fn lemma_pos_if_on(b: BoardView, c: int, r: int, x: int, y: int)
    requires
        b.width <= usize::MAX,
        b.height <= usize::MAX,
        c - 1 <= x <= c + 1,
        r - 1 <= y <= r + 1,
        x != c || y != r,
    ensures
        all_neighbors(b, c, r, pos_if_on(b, x, y)),
{
}

proof fn lemma_all_neighbors_add(b: BoardView, c: int, r: int, s: Seq<(usize, usize)>, t: Seq<(usize, usize)>)
    requires
        all_neighbors(b, c, r, s),
        all_neighbors(b, c, r, t),
    ensures
        all_neighbors(b, c, r, s + t),
{
    assert forall|k: int| 0 <= k < (s + t).len() implies is_neighbor(
        b,
        c,
        r,
        (#[trigger] (s + t)[k]).0 as int,
        (s + t)[k].1 as int,
    ) by {
        if k < s.len() {
            assert((s + t)[k] == s[k]);
        } else {
            assert((s + t)[k] == t[k - s.len()]);
        }
    }
}

impl Board {
    /// The on-board neighbors of (`col`, `row`), row by row from the row above.
    pub fn neighbor_coords_8(&self, col: usize, row: usize) -> (v: Vec<(usize, usize)>)
        requires
            self.wf(),
            col < self.width,
            row < self.height,
        ensures
            v@ == neighbor_coords(self@, col as int, row as int),
    {
        let mut v: Vec<(usize, usize)> = Vec::with_capacity(8);
        let w = self.width;
        let h = self.height;
        let ghost b = self@;
        let ghost c = col as int;
        let ghost r = row as int;
        if row > 0 {
            if col > 0 {
                v.push((col - 1, row - 1));
            }
            v.push((col, row - 1));
            if col + 1 < w {
                v.push((col + 1, row - 1));
            }
        }
        assert(v@ =~= pos_if_on(b, c - 1, r - 1) + pos_if_on(b, c, r - 1) + pos_if_on(b, c + 1, r - 1));
        let ghost v1 = v@;
        if col > 0 {
            v.push((col - 1, row));
        }
        if col + 1 < w {
            v.push((col + 1, row));
        }
        assert(v@ =~= v1 + pos_if_on(b, c - 1, r) + pos_if_on(b, c + 1, r));
        let ghost v2 = v@;
        if row + 1 < h {
            if col > 0 {
                v.push((col - 1, row + 1));
            }
            v.push((col, row + 1));
            if col + 1 < w {
                v.push((col + 1, row + 1));
            }
        }
        assert(v@ =~= v2 + pos_if_on(b, c - 1, r + 1) + pos_if_on(b, c, r + 1) + pos_if_on(b, c + 1, r + 1));
        v
    }
}

// ============================================================================
// Flag
// ============================================================================

/// The board after toggling the flag at (`col`, `row`): only on a playable
/// board, on the board, and on a hidden or flagged cell.
pub open spec fn toggle_flag_result(b: BoardView, col: int, row: int) -> BoardView {
    if !(b.state is Ready || b.state is Playing) || !b.on_board(col, row) {
        b
    } else {
        let i = cell_index(b.width, col, row);
        let c = b.cells[i];
        match c.state {
            CellState::Hidden => BoardView {
                cells: b.cells.update(i, Cell { state: CellState::Flagged, ..c }),
                flagged_count: b.flagged_count + 1,
                ..b
            },
            CellState::Flagged => BoardView {
                cells: b.cells.update(i, Cell { state: CellState::Hidden, ..c }),
                flagged_count: b.flagged_count - 1,
                ..b
            },
            CellState::Revealed => b,
        }
    }
}

/// Toggle the flag on a hidden cell. No-op if the cell is revealed.
pub fn toggle_flag(board: &mut Board, col: usize, row: usize)
    requires
        old(board).wf(),
    ensures
        final(board).wf(),
        final(board)@ == toggle_flag_result(old(board)@, col as int, row as int),
        final(board).width == old(board).width,
        final(board).height == old(board).height,
        final(board).mine_count == old(board).mine_count,
{
    if !(board.state == BoardState::Ready || board.state == BoardState::Playing) {
        return;
    }
    if col >= board.width || row >= board.height {
        return;
    }
    let n = board.cells.len();
    proof {
        lemma_index_in_bounds(board.width as int, board.height as int, col as int, row as int);
        lemma_count_state_total(board.cells@);
    }
    let i = row * board.width + col;
    let cell = board.cells[i];
    let ghost s0 = board.cells@;
    match cell.state {
        CellState::Hidden => {
            let nc = Cell { state: CellState::Flagged, ..cell };
            board.cells.set(i, nc);
            proof {
                lemma_count_state_update(s0, i as int, nc, CellState::Flagged);
                lemma_count_state_update(s0, i as int, nc, CellState::Revealed);
                lemma_count_state_update(s0, i as int, nc, CellState::Hidden);
            }
            board.flagged_count = board.flagged_count + 1;
        },
        CellState::Flagged => {
            let nc = Cell { state: CellState::Hidden, ..cell };
            board.cells.set(i, nc);
            proof {
                lemma_count_state_update(s0, i as int, nc, CellState::Flagged);
                lemma_count_state_update(s0, i as int, nc, CellState::Revealed);
            }
            board.flagged_count = board.flagged_count - 1;
        },
        CellState::Revealed => {},
    }
}

// ============================================================================
// Win
// ============================================================================

/// Every safe cell revealed: the board is won.
pub open spec fn with_win_check(b: BoardView) -> BoardView {
    if b.revealed_count == b.width * b.height - b.mine_count {
        BoardView { state: BoardState::Won, ..b }
    } else {
        b
    }
}

/// If every safe cell is revealed, transition to Won.
pub fn check_win(board: &mut Board)
    requires
        old(board).wf(),
        old(board).mine_count <= old(board).width * old(board).height,
    ensures
        final(board).wf(),
        final(board)@ == with_win_check(old(board)@),
{
    if board.revealed_count == board.safe_cell_count() {
        board.state = BoardState::Won;
    }
}


// ============================================================================
// Reveal
// ============================================================================

/// The same cell, face up.
pub open spec fn revealed(c: Cell) -> Cell {
    Cell { state: CellState::Revealed, ..c }
}

/// A revealed cell at (`x`, `y`) opens its neighbors: no mine and no adjacent mine.
pub open spec fn expands(b: BoardView, x: int, y: int) -> bool {
    !b.at(x, y).is_mine && b.at(x, y).adjacent == 0
}

/// The flood goes from (`x`, `y`) to (`tx`, `ty`): the first opens its
/// neighbors and the second is a hidden neighbor.
pub open spec fn flood_step(b: BoardView, x: int, y: int, tx: int, ty: int) -> bool {
    &&& expands(b, x, y)
    &&& is_neighbor(b, x, y, tx, ty)
    &&& b.at(tx, ty).state == CellState::Hidden
}

/// The flood goes from `p[j]` to `p[j + 1]`.
pub open spec fn step_at(b: BoardView, p: Seq<(int, int)>, j: int) -> bool {
    flood_step(b, p[j].0, p[j].1, p[j + 1].0, p[j + 1].1)
}

/// `p` is a path the flood follows from (`sc`, `sr`).
pub open spec fn flood_path(b: BoardView, sc: int, sr: int, p: Seq<(int, int)>) -> bool {
    &&& p.len() > 0
    &&& p[0] == (sc, sr)
    &&& forall|j: int| 0 <= j < p.len() - 1 ==> #[trigger] step_at(b, p, j)
}

/// Column of the cell stored at position `i`.
pub open spec fn col_of(b: BoardView, i: int) -> int {
    i % b.width
}

/// Row of the cell stored at position `i`.
pub open spec fn row_of(b: BoardView, i: int) -> int {
    i / b.width
}

/// The cell at position `i` is uncovered by a flood fill started at
/// (`sc`, `sr`): some flood path leads there.
pub open spec fn in_flood(b: BoardView, sc: int, sr: int, i: int) -> bool {
    exists|p: Seq<(int, int)>| #[trigger]
        flood_path(b, sc, sr, p) && p.last() == (col_of(b, i), row_of(b, i))
}

/// The cells after a flood fill from (`sc`, `sr`): every cell it reaches is face up.
pub open spec fn flood_cells(b: BoardView, sc: int, sr: int) -> Seq<Cell> {
    Seq::new(
        b.cells.len(),
        |i: int|
            if in_flood(b, sc, sr, i) {
                revealed(b.cells[i])
            } else {
                b.cells[i]
            },
    )
}

/// The board after revealing (`col`, `row`): nothing happens off the
/// board, on a finished board or on a cell that is not hidden; a mine is
/// shown and the game is lost; a cell without adjacent mine floods its
/// region; any other cell is shown alone. Then the win check runs.
pub open spec fn reveal_result(b: BoardView, col: int, row: int) -> BoardView {
    let i = cell_index(b.width, col, row);
    let c = b.cells[i];
    if !(b.state is Ready || b.state is Playing) || !b.on_board(col, row) || c.state
        != CellState::Hidden {
        b
    } else if c.is_mine {
        BoardView {
            cells: b.cells.update(i, revealed(c)),
            revealed_count: b.revealed_count + 1,
            state: BoardState::Lost,
            ..b
        }
    } else if c.adjacent == 0 {
        let cells = flood_cells(b, col, row);
        with_win_check(
            BoardView { cells, revealed_count: count_state(cells, CellState::Revealed) as int, ..b },
        )
    } else {
        with_win_check(
            BoardView {
                cells: b.cells.update(i, revealed(c)),
                revealed_count: b.revealed_count + 1,
                ..b
            },
        )
    }
}

/// Coordinates and positions correspond one to one on the board.
proof fn lemma_coords(b: BoardView, x: int, y: int)
    requires
        b.on_board(x, y),
    ensures
        col_of(b, cell_index(b.width, x, y)) == x,
        row_of(b, cell_index(b.width, x, y)) == y,
        0 <= cell_index(b.width, x, y) < b.width * b.height,
{
    let i = cell_index(b.width, x, y);
    assert(i == x + y * b.width) by (nonlinear_arith)
        requires
            i == y * b.width + x,
    ;
    vstd::arithmetic::div_mod::lemma_fundamental_div_mod_converse(i, b.width, y, x);
    lemma_index_in_bounds(b.width, b.height, x, y);
}

/// A position of the board has on-board coordinates, and is their index.
proof fn lemma_position(b: BoardView, i: int)
    requires
        0 <= i < b.width * b.height,
        b.width > 0,
    ensures
        b.on_board(col_of(b, i), row_of(b, i)),
        cell_index(b.width, col_of(b, i), row_of(b, i)) == i,
{
    vstd::arithmetic::div_mod::lemma_fundamental_div_mod(i, b.width);
    assert(row_of(b, i) < b.height) by (nonlinear_arith)
        requires
            0 <= i < b.width * b.height,
            b.width > 0,
            i == b.width * (i / b.width) + i % b.width,
            0 <= i % b.width < b.width,
    ;
    assert(row_of(b, i) >= 0) by (nonlinear_arith)
        requires
            0 <= i,
            b.width > 0,
    ;
    assert(cell_index(b.width, col_of(b, i), row_of(b, i)) == i) by (nonlinear_arith)
        requires
            i == b.width * (i / b.width) + i % b.width,
    ;
}

/// The uncovered cell at (`x`, `y`) has every neighbor that was hidden before the flood uncovered.
pub open spec fn closed_at(b: BoardView, n: Set<int>, x: int, y: int) -> bool {
    forall|u: int, v: int|
        #[trigger] is_neighbor(b, x, y, u, v) && b.at(u, v).state == CellState::Hidden
            ==> n.contains(cell_index(b.width, u, v))
}

/// Every uncovered cell that opens its neighbors has them all uncovered.
pub open spec fn all_closed(b: BoardView, n: Set<int>) -> bool {
    forall|x: int, y: int|
        b.on_board(x, y) && #[trigger] n.contains(cell_index(b.width, x, y)) && expands(b, x, y)
            ==> closed_at(b, n, x, y)
}

/// Along a flood path, every cell lies on the board and is uncovered,
/// when the start is uncovered and nothing is left open.
proof fn lemma_path_covered(b: BoardView, sc: int, sr: int, n: Set<int>, p: Seq<(int, int)>, j: int)
    requires
        b.on_board(sc, sr),
        n.contains(cell_index(b.width, sc, sr)),
        all_closed(b, n),
        flood_path(b, sc, sr, p),
        0 <= j < p.len(),
    ensures
        b.on_board(p[j].0, p[j].1),
        n.contains(cell_index(b.width, p[j].0, p[j].1)),
    decreases j,
{
    if j > 0 {
        lemma_path_covered(b, sc, sr, n, p, j - 1);
        assert(step_at(b, p, j - 1));
        let x = p[j - 1].0;
        let y = p[j - 1].1;
        assert(closed_at(b, n, x, y));
        assert(is_neighbor(b, x, y, p[j].0, p[j].1));
    }
}

/// A flood path to a hidden neighbor of an opening cell extends by one step.
proof fn lemma_path_extend(b: BoardView, sc: int, sr: int, p: Seq<(int, int)>, tx: int, ty: int)
    requires
        flood_path(b, sc, sr, p),
        flood_step(b, p.last().0, p.last().1, tx, ty),
    ensures
        flood_path(b, sc, sr, p.push((tx, ty))),
{
    let q = p.push((tx, ty));
    assert forall|j: int| 0 <= j < q.len() - 1 implies #[trigger] step_at(b, q, j) by {
        if j < p.len() - 1 {
            assert(step_at(b, p, j));
        }
    }
}

/// Cell state of every stack entry: on the board, uncovered, and opening its neighbors.
pub open spec fn stack_ok(b: BoardView, n: Set<int>, stack: Seq<(usize, usize)>) -> bool {
    forall|k: int|
        0 <= k < stack.len() ==> {
            let x = (#[trigger] stack[k]).0 as int;
            let y = stack[k].1 as int;
            &&& b.on_board(x, y)
            &&& n.contains(cell_index(b.width, x, y))
            &&& expands(b, x, y)
        }
}

/// (`x`, `y`) waits on the stack.
pub open spec fn on_stack(stack: Seq<(usize, usize)>, x: int, y: int) -> bool {
    exists|k: int| 0 <= k < stack.len() && #[trigger] stack[k] == (x as usize, y as usize)
}

/// Every uncovered opening cell either waits on the stack, is the cell
/// being worked on, or has all its hidden neighbors uncovered.
pub open spec fn pending_or_closed(
    b: BoardView,
    n: Set<int>,
    stack: Seq<(usize, usize)>,
    cur: (int, int),
) -> bool {
    forall|x: int, y: int|
        b.on_board(x, y) && #[trigger] n.contains(cell_index(b.width, x, y)) && expands(b, x, y)
            ==> on_stack(stack, x, y) || (x, y) == cur || closed_at(b, n, x, y)
}

/// Flood fill from (`col`, `row`), whose cell has just been turned face up
/// on a board that was `b` before: every hidden cell that a flood path
/// reaches is turned face up.
fn flood_from(board: &mut Board, col: usize, row: usize, Ghost(b): Ghost<BoardView>)
    requires
        old(board).wf(),
        b.on_board(col as int, row as int),
        b.width == old(board).width,
        b.height == old(board).height,
        b.cells.len() == b.width * b.height,
        expands(b, col as int, row as int),
        b.at(col as int, row as int).state == CellState::Hidden,
        old(board).cells@ == b.cells.update(
            cell_index(b.width, col as int, row as int),
            revealed(b.at(col as int, row as int)),
        ),
    ensures
        final(board).wf(),
        final(board).cells@ == flood_cells(b, col as int, row as int),
        final(board).width == old(board).width,
        final(board).height == old(board).height,
        final(board).mine_count == old(board).mine_count,
        final(board).mines_placed == old(board).mines_placed,
        final(board).state == old(board).state,
        final(board).flagged_count == old(board).flagged_count,
{
    let ghost sc = col as int;
    let ghost sr = row as int;
    let ghost start = cell_index(b.width, sc, sr);
    let ghost mut n: Set<int> = Set::empty().insert(start);
    proof {
        lemma_coords(b, sc, sr);
        let p = seq![(sc, sr)];
        assert(flood_path(b, sc, sr, p));
        assert(in_flood(b, sc, sr, start));
        assert forall|i: int| 0 <= i < board.cells@.len() implies #[trigger] board.cells@[i] == (
        if n.contains(i) {
            revealed(b.cells[i])
        } else {
            b.cells[i]
        }) by {}
    }
    let mut stack: Vec<(usize, usize)> = Vec::new();
    stack.push((col, row));
    proof {
        assert(stack@[0] == (col, row));
        assert forall|x: int, y: int|
            b.on_board(x, y) && #[trigger] n.contains(cell_index(b.width, x, y)) && expands(b, x, y)
                implies on_stack(stack@, x, y) || (x, y) == (-1int, -1int) || closed_at(b, n, x, y) by {
            lemma_coords(b, x, y);
            assert(x == sc && y == sr);
            assert(stack@[0] == (x as usize, y as usize));
        }
    }
    while stack.len() > 0
        invariant
            board.wf(),
            board.width == b.width,
            board.height == b.height,
            board.mine_count == old(board).mine_count,
            board.mines_placed == old(board).mines_placed,
            board.state == old(board).state,
            board.flagged_count == old(board).flagged_count,
            b.on_board(sc, sr),
            b.cells.len() == b.width * b.height,
            start == cell_index(b.width, sc, sr),
            board.cells@.len() == b.cells.len(),
            forall|i: int|
                0 <= i < board.cells@.len() ==> #[trigger] board.cells@[i] == (if n.contains(i) {
                    revealed(b.cells[i])
                } else {
                    b.cells[i]
                }),
            forall|i: int| #[trigger]
                n.contains(i) ==> 0 <= i < b.cells.len() && b.cells[i].state == CellState::Hidden
                    && in_flood(b, sc, sr, i),
            n.contains(start),
            stack_ok(b, n, stack@),
            pending_or_closed(b, n, stack@, (-1int, -1int)),
        decreases 2 * count_state(board.cells@, CellState::Hidden) + stack@.len(),
    {
        let ghost m0 = 2 * count_state(board.cells@, CellState::Hidden) + stack@.len() - 1;
        let ghost stack0 = stack@;
        let (c, r) = stack.pop().unwrap();
        proof {
            assert(stack0[stack0.len() - 1] == (c, r));
            assert(stack_ok(b, n, stack@)) by {
                assert forall|k: int| 0 <= k < stack@.len() implies #[trigger] stack@[k] == stack0[k] by {}
            }
            assert(pending_or_closed(b, n, stack@, (c as int, r as int))) by {
                assert forall|x: int, y: int|
                    b.on_board(x, y) && #[trigger] n.contains(cell_index(b.width, x, y)) && expands(b, x, y)
                        implies on_stack(stack@, x, y) || (x, y) == (c as int, r as int) || closed_at(b, n, x, y) by {
                    if on_stack(stack0, x, y) {
                        let k = choose|k: int| 0 <= k < stack0.len() && #[trigger] stack0[k] == (x as usize, y as usize);
                        if k < stack@.len() {
                            assert(stack@[k] == stack0[k]);
                        }
                    }
                }
            }
        }
        let coords = board.neighbor_coords_8(c, r);
        proof {
            lemma_neighbor_coords(b, c as int, r as int);
            assert(coords@ == neighbor_coords(b, c as int, r as int));
        }
        let mut j: usize = 0;
        while j < coords.len()
            invariant
                board.wf(),
                board.width == b.width,
                board.height == b.height,
                board.mine_count == old(board).mine_count,
                board.mines_placed == old(board).mines_placed,
                board.state == old(board).state,
                board.flagged_count == old(board).flagged_count,
                b.on_board(sc, sr),
                b.cells.len() == b.width * b.height,
                start == cell_index(b.width, sc, sr),
                board.cells@.len() == b.cells.len(),
                forall|i: int|
                    0 <= i < board.cells@.len() ==> #[trigger] board.cells@[i] == (if n.contains(i) {
                        revealed(b.cells[i])
                    } else {
                        b.cells[i]
                    }),
                forall|i: int| #[trigger]
                    n.contains(i) ==> 0 <= i < b.cells.len() && b.cells[i].state == CellState::Hidden
                        && in_flood(b, sc, sr, i),
                n.contains(start),
                stack_ok(b, n, stack@),
                pending_or_closed(b, n, stack@, (c as int, r as int)),
                b.on_board(c as int, r as int),
                n.contains(cell_index(b.width, c as int, r as int)),
                expands(b, c as int, r as int),
                j <= coords@.len(),
                coords@ == neighbor_coords(b, c as int, r as int),
                all_neighbors(b, c as int, r as int, coords@),
                forall|k: int|
                    0 <= k < j ==> (b.at((#[trigger] coords@[k]).0 as int, coords@[k].1 as int).state
                        == CellState::Hidden ==> n.contains(
                        cell_index(b.width, coords@[k].0 as int, coords@[k].1 as int),
                    )),
                2 * count_state(board.cells@, CellState::Hidden) + stack@.len() <= m0,
            decreases coords@.len() - j,
        {
            let (nc, nr) = coords[j];
            let len = board.cells.len();
            proof {
                assert(is_neighbor(b, c as int, r as int, nc as int, nr as int));
                lemma_index_in_bounds(b.width, b.height, nc as int, nr as int);
                lemma_coords(b, nc as int, nr as int);
            }
            let idx = nr * board.width + nc;
            let nb = board.cells[idx];
            if nb.is_hidden() {
                let ghost s0 = board.cells@;
                let ghost n0 = n;
                let nv = Cell { state: CellState::Revealed, ..nb };
                board.cells.set(idx, nv);
                proof {
                    lemma_count_state_update(s0, idx as int, nv, CellState::Revealed);
                    lemma_count_state_update(s0, idx as int, nv, CellState::Flagged);
                    lemma_count_state_update(s0, idx as int, nv, CellState::Hidden);
                    lemma_count_state_bound(board.cells@, CellState::Revealed);
                    assert(!n0.contains(idx as int));
                    assert(b.cells[idx as int] == nb);
                    n = n0.insert(idx as int);
                    // a flood path reaches the new cell through (c, r)
                    let ci = cell_index(b.width, c as int, r as int);
                    lemma_coords(b, c as int, r as int);
                    assert(in_flood(b, sc, sr, ci));
                    let p = choose|p: Seq<(int, int)>| #[trigger]
                        flood_path(b, sc, sr, p) && p.last() == (col_of(b, ci), row_of(b, ci));
                    lemma_path_extend(b, sc, sr, p, nc as int, nr as int);
                    assert(flood_path(b, sc, sr, p.push((nc as int, nr as int))));
                    assert(p.push((nc as int, nr as int)).last() == (col_of(b, idx as int), row_of(b, idx as int)));
                    assert(in_flood(b, sc, sr, idx as int));
                }
                board.revealed_count = board.revealed_count + 1;
                if !nb.is_mine && nb.adjacent == 0 {
                    let ghost st0 = stack@;
                    stack.push((nc, nr));
                    proof {
                        assert(stack@[st0.len() as int] == (nc, nr));
                        assert(stack_ok(b, n, stack@)) by {
                            assert forall|k: int| 0 <= k < st0.len() implies #[trigger] stack@[k] == st0[k] by {}
                        }
                        assert(pending_or_closed(b, n, stack@, (c as int, r as int))) by {
                            assert forall|x: int, y: int|
                                b.on_board(x, y) && #[trigger] n.contains(cell_index(b.width, x, y)) && expands(b, x, y)
                                    implies on_stack(stack@, x, y) || (x, y) == (c as int, r as int) || closed_at(b, n, x, y) by {
                                let xi = cell_index(b.width, x, y);
                                if xi == idx as int {
                                    lemma_coords(b, x, y);
                                    assert(stack@[st0.len() as int] == (x as usize, y as usize));
                                } else {
                                    assert(n0.contains(xi));
                                    if on_stack(st0, x, y) {
                                        let k = choose|k: int| 0 <= k < st0.len() && #[trigger] st0[k] == (x as usize, y as usize);
                                        assert(stack@[k] == st0[k]);
                                    } else if (x, y) != (c as int, r as int) {
                                        assert(closed_at(b, n0, x, y));
                                    }
                                }
                            }
                        }
                    }
                } else {
                    proof {
                        assert(stack_ok(b, n, stack@));
                        assert(pending_or_closed(b, n, stack@, (c as int, r as int))) by {
                            assert forall|x: int, y: int|
                                b.on_board(x, y) && #[trigger] n.contains(cell_index(b.width, x, y)) && expands(b, x, y)
                                    implies on_stack(stack@, x, y) || (x, y) == (c as int, r as int) || closed_at(b, n, x, y) by {
                                let xi = cell_index(b.width, x, y);
                                if xi == idx as int {
                                    lemma_coords(b, x, y);
                                } else {
                                    assert(n0.contains(xi));
                                    if !on_stack(stack@, x, y) && (x, y) != (c as int, r as int) {
                                        assert(closed_at(b, n0, x, y));
                                    }
                                }
                            }
                        }
                    }
                }
            } else {
                proof {
                    if b.at(nc as int, nr as int).state == CellState::Hidden {
                        assert(n.contains(idx as int));
                    }
                }
            }
            j = j + 1;
        }
        proof {
            assert(closed_at(b, n, c as int, r as int)) by {
                assert forall|u: int, v: int|
                    #[trigger] is_neighbor(b, c as int, r as int, u, v) && b.at(u, v).state == CellState::Hidden
                        implies n.contains(cell_index(b.width, u, v)) by {
                    assert(coords@.contains((u as usize, v as usize)));
                    let k = choose|k: int| 0 <= k < coords@.len() && coords@[k] == (u as usize, v as usize);
                    assert(coords@[k] == (u as usize, v as usize));
                }
            }
        }
    }
    proof {
        assert(all_closed(b, n)) by {
            assert forall|x: int, y: int|
                b.on_board(x, y) && #[trigger] n.contains(cell_index(b.width, x, y)) && expands(b, x, y)
                    implies closed_at(b, n, x, y) by {
                if on_stack(stack@, x, y) {
                    let k = choose|k: int| 0 <= k < stack@.len() && #[trigger] stack@[k] == (x as usize, y as usize);
                }
            }
        }
        assert(board.cells@ =~= flood_cells(b, sc, sr)) by {
            assert forall|i: int| 0 <= i < b.cells.len() implies #[trigger] board.cells@[i] == flood_cells(b, sc, sr)[i] by {
                if in_flood(b, sc, sr, i) {
                    let p = choose|p: Seq<(int, int)>| #[trigger]
                        flood_path(b, sc, sr, p) && p.last() == (col_of(b, i), row_of(b, i));
                    lemma_path_covered(b, sc, sr, n, p, p.len() - 1);
                    lemma_position(b, i);
                }
            }
        }
    }
}

/// Reveal a cell. Handles flood fill when `adjacent == 0`.
///
/// No-op if out of bounds, already revealed, flagged, or the board is not
/// in a playable state. Sets the board to `Lost` if a mine is revealed.
pub fn reveal_cell(board: &mut Board, col: usize, row: usize)
    requires
        old(board).wf(),
        old(board).mine_count <= old(board).width * old(board).height,
    ensures
        final(board).wf(),
        final(board)@ == reveal_result(old(board)@, col as int, row as int),
        final(board).width == old(board).width,
        final(board).height == old(board).height,
        final(board).mine_count == old(board).mine_count,
{
    if !(board.state == BoardState::Ready || board.state == BoardState::Playing) {
        return;
    }
    if col >= board.width || row >= board.height {
        return;
    }
    let len = board.cells.len();
    proof {
        lemma_index_in_bounds(board.width as int, board.height as int, col as int, row as int);
    }
    let i = row * board.width + col;
    let cell = board.cells[i];
    if cell.is_revealed() || cell.is_flagged() {
        return;
    }
    let ghost b = board@;
    let ghost s0 = board.cells@;
    let nv = Cell { state: CellState::Revealed, ..cell };
    board.cells.set(i, nv);
    proof {
        lemma_count_state_update(s0, i as int, nv, CellState::Revealed);
        lemma_count_state_update(s0, i as int, nv, CellState::Flagged);
        lemma_count_state_bound(board.cells@, CellState::Revealed);
    }
    board.revealed_count = board.revealed_count + 1;
    if cell.is_mine {
        board.state = BoardState::Lost;
        return;
    }
    if cell.adjacent == 0 {
        flood_from(board, col, row, Ghost(b));
        assert(board@ =~= BoardView {
            cells: flood_cells(b, col as int, row as int),
            revealed_count: count_state(flood_cells(b, col as int, row as int), CellState::Revealed) as int,
            ..b
        });
    } else {
        assert(board@ =~= BoardView {
            cells: b.cells.update(i as int, revealed(cell)),
            revealed_count: b.revealed_count + 1,
            ..b
        });
    }
    check_win(board);
}

// ============================================================================
// Chord
// ============================================================================

/// The positions of `s` whose cell on `b` is in state `st`, in order.
pub open spec fn positions_in(b: BoardView, s: Seq<(usize, usize)>, st: CellState) -> Seq<(usize, usize)> {
    s.filter(|p: (usize, usize)| b.at(p.0 as int, p.1 as int).state == st)
}

/// Reveal the positions of `s` in order, stopping once a mine goes off.
pub open spec fn reveal_each(b: BoardView, s: Seq<(usize, usize)>) -> BoardView
    decreases s.len(),
{
    if s.len() == 0 {
        b
    } else {
        let b1 = reveal_result(b, s[0].0 as int, s[0].1 as int);
        if b1.state == BoardState::Lost {
            b1
        } else {
            reveal_each(b1, s.drop_first())
        }
    }
}

/// The board after a chord on (`col`, `row`): on a board in play, a
/// revealed cell with adjacent mines and exactly as many flagged neighbors
/// reveals its hidden neighbors in order; anything else changes nothing.
pub open spec fn chord_result(b: BoardView, col: int, row: int) -> BoardView {
    let c = b.at(col, row);
    let ns = neighbor_coords(b, col, row);
    if !(b.state is Playing) || !b.on_board(col, row) || c.state != CellState::Revealed
        || c.adjacent == 0 || positions_in(b, ns, CellState::Flagged).len() != c.adjacent {
        b
    } else {
        reveal_each(b, positions_in(b, ns, CellState::Hidden))
    }
}

/// Chord: if a revealed cell has as many flagged neighbors as its
/// `adjacent` count, reveal all its other hidden neighbors.
pub fn chord(board: &mut Board, col: usize, row: usize)
    requires
        old(board).wf(),
        old(board).mine_count <= old(board).width * old(board).height,
    ensures
        final(board).wf(),
        final(board)@ == chord_result(old(board)@, col as int, row as int),
        final(board).width == old(board).width,
        final(board).height == old(board).height,
        final(board).mine_count == old(board).mine_count,
{
    if board.state != BoardState::Playing {
        return;
    }
    if col >= board.width || row >= board.height {
        return;
    }
    let len = board.cells.len();
    proof {
        lemma_index_in_bounds(board.width as int, board.height as int, col as int, row as int);
    }
    let cell = board.cells[row * board.width + col];
    if !cell.is_revealed() || cell.adjacent == 0 {
        return;
    }
    let ghost b = board@;
    let coords = board.neighbor_coords_8(col, row);
    proof {
        lemma_neighbor_coords(b, col as int, row as int);
    }
    let mut flagged: usize = 0;
    let mut to_reveal: Vec<(usize, usize)> = Vec::new();
    let mut j: usize = 0;
    while j < coords.len()
        invariant
            board@ == b,
            board.wf(),
            j <= coords@.len(),
            coords@ == neighbor_coords(b, col as int, row as int),
            all_neighbors(b, col as int, row as int, coords@),
            coords@.len() <= 8,
            flagged == positions_in(b, coords@.take(j as int), CellState::Flagged).len(),
            flagged <= j,
            to_reveal@ == positions_in(b, coords@.take(j as int), CellState::Hidden),
        decreases coords@.len() - j,
    {
        let (c, r) = coords[j];
        proof {
            assert(is_neighbor(b, col as int, row as int, c as int, r as int));
            lemma_index_in_bounds(b.width, b.height, c as int, r as int);
            assert(coords@.take(j + 1).drop_last() =~= coords@.take(j as int));
            reveal(Seq::filter);
        }
        let len = board.cells.len();
        let n = board.cells[r * board.width + c];
        if n.is_flagged() {
            flagged = flagged + 1;
        }
        if n.is_hidden() {
            to_reveal.push((c, r));
        }
        j = j + 1;
    }
    proof {
        assert(coords@.take(coords@.len() as int) =~= coords@);
    }
    if flagged != cell.adjacent as usize {
        return;
    }
    let mut k: usize = 0;
    proof {
        assert(to_reveal@.skip(0) =~= to_reveal@);
    }
    while k < to_reveal.len()
        invariant
            board.wf(),
            board.mine_count <= board.width * board.height,
            board.width == b.width,
            board.height == b.height,
            board.mine_count == b.mine_count,
            b == old(board)@,
            k <= to_reveal@.len(),
            reveal_each(board@, to_reveal@.skip(k as int)) == reveal_each(b, to_reveal@),
            chord_result(old(board)@, col as int, row as int) == reveal_each(b, to_reveal@),
        decreases to_reveal@.len() - k,
    {
        let (c, r) = to_reveal[k];
        let ghost before = board@;
        proof {
            assert(to_reveal@.skip(k as int)[0] == (c, r));
            assert(to_reveal@.skip(k as int).drop_first() =~= to_reveal@.skip(k + 1));
        }
        reveal_cell(board, c, r);
        proof {
            let s = to_reveal@.skip(k as int);
            assert(s.len() > 0);
            assert(reveal_each(before, s) == (if board@.state == BoardState::Lost {
                board@
            } else {
                reveal_each(board@, s.drop_first())
            }));
        }
        if board.state == BoardState::Lost {
            return;
        }
        k = k + 1;
    }
    proof {
        assert(to_reveal@.skip(k as int) =~= Seq::<(usize, usize)>::empty());
    }
}

// ============================================================================
// Mine placement
// ============================================================================

/// Number of mines on the positions of `s`.
pub open spec fn mines_among(b: BoardView, s: Seq<(usize, usize)>) -> nat
    decreases s.len(),
{
    if s.len() == 0 {
        0
    } else {
        mines_among(b, s.drop_last()) + mine_at(b, s.last().0 as int, s.last().1 as int)
    }
}

proof fn lemma_mines_among_add(b: BoardView, s: Seq<(usize, usize)>, t: Seq<(usize, usize)>)
    ensures
        mines_among(b, s + t) == mines_among(b, s) + mines_among(b, t),
    decreases t.len(),
{
    if t.len() == 0 {
        assert(s + t =~= s);
    } else {
        lemma_mines_among_add(b, s, t.drop_last());
        assert((s + t).drop_last() =~= s + t.drop_last());
    }
}

proof fn lemma_mines_among_pos(b: BoardView, x: int, y: int)
    requires
        b.width <= usize::MAX,
        b.height <= usize::MAX,
    ensures
        mines_among(b, pos_if_on(b, x, y)) == mine_at(b, x, y),
{
    reveal_with_fuel(mines_among, 2);
    if b.on_board(x, y) {
        assert(pos_if_on(b, x, y).drop_last() =~= Seq::<(usize, usize)>::empty());
    }
}

/// Counting the mines along the neighbor list gives the adjacent-mine count.
proof fn lemma_mines_among_neighbors(b: BoardView, c: int, r: int)
    requires
        b.width <= usize::MAX,
        b.height <= usize::MAX,
    ensures
        mines_among(b, neighbor_coords(b, c, r)) == adjacent_mines(b, c, r),
{
    let p1 = pos_if_on(b, c - 1, r - 1);
    let p2 = pos_if_on(b, c, r - 1);
    let p3 = pos_if_on(b, c + 1, r - 1);
    let p4 = pos_if_on(b, c - 1, r);
    let p5 = pos_if_on(b, c + 1, r);
    let p6 = pos_if_on(b, c - 1, r + 1);
    let p7 = pos_if_on(b, c, r + 1);
    let p8 = pos_if_on(b, c + 1, r + 1);
    lemma_mines_among_pos(b, c - 1, r - 1);
    lemma_mines_among_pos(b, c, r - 1);
    lemma_mines_among_pos(b, c + 1, r - 1);
    lemma_mines_among_pos(b, c - 1, r);
    lemma_mines_among_pos(b, c + 1, r);
    lemma_mines_among_pos(b, c - 1, r + 1);
    lemma_mines_among_pos(b, c, r + 1);
    lemma_mines_among_pos(b, c + 1, r + 1);
    lemma_mines_among_add(b, p1, p2);
    lemma_mines_among_add(b, p1 + p2, p3);
    lemma_mines_among_add(b, p1 + p2 + p3, p4);
    lemma_mines_among_add(b, p1 + p2 + p3 + p4, p5);
    lemma_mines_among_add(b, p1 + p2 + p3 + p4 + p5, p6);
    lemma_mines_among_add(b, p1 + p2 + p3 + p4 + p5 + p6, p7);
    lemma_mines_among_add(b, p1 + p2 + p3 + p4 + p5 + p6 + p7, p8);
}

/// The cells with every mine-free cell holding its adjacent-mine count.
pub open spec fn adjacency_cells(b: BoardView) -> Seq<Cell> {
    Seq::new(
        b.cells.len(),
        |i: int|
            if b.cells[i].is_mine {
                b.cells[i]
            } else {
                Cell { adjacent: adjacent_mines(b, col_of(b, i), row_of(b, i)) as u8, ..b.cells[i] }
            },
    )
}

/// Number of mines around (`col`, `row`).
fn count_adjacent(board: &Board, col: usize, row: usize) -> (n: u8)
    requires
        board.wf(),
        col < board.width,
        row < board.height,
    ensures
        n == adjacent_mines(board@, col as int, row as int),
{
    let coords = board.neighbor_coords_8(col, row);
    let ghost b = board@;
    proof {
        lemma_neighbor_coords(b, col as int, row as int);
        lemma_mines_among_neighbors(b, col as int, row as int);
    }
    let mut n: u8 = 0;
    let mut j: usize = 0;
    while j < coords.len()
        invariant
            board@ == b,
            board.wf(),
            j <= coords@.len(),
            coords@.len() <= 8,
            coords@ == neighbor_coords(b, col as int, row as int),
            all_neighbors(b, col as int, row as int, coords@),
            n == mines_among(b, coords@.take(j as int)),
            n <= j,
        decreases coords@.len() - j,
    {
        let (c, r) = coords[j];
        let len = board.cells.len();
        proof {
            assert(is_neighbor(b, col as int, row as int, c as int, r as int));
            lemma_index_in_bounds(b.width, b.height, c as int, r as int);
            assert(coords@.take(j + 1).drop_last() =~= coords@.take(j as int));
        }
        if board.cells[r * board.width + c].is_mine {
            n = n + 1;
        }
        j = j + 1;
    }
    proof {
        assert(coords@.take(coords@.len() as int) =~= coords@);
    }
    n
}

/// Store in every mine-free cell the number of mines around it.
pub fn compute_adjacency(board: &mut Board)
    requires
        old(board).wf(),
    ensures
        final(board).wf(),
        final(board)@ == (BoardView { cells: adjacency_cells(old(board)@), ..old(board)@ }),
{
    let ghost b = board@;
    let n = board.cells.len();
    let w = board.width;
    let mut i: usize = 0;
    while i < n
        invariant
            n == b.cells.len(),
            w == b.width,
            board.wf(),
            board@ == (BoardView { cells: board@.cells, ..b }),
            board.cells@.len() == n,
            forall|k: int|
                0 <= k < n ==> (#[trigger] board.cells@[k]).is_mine == b.cells[k].is_mine
                    && board.cells@[k].state == b.cells[k].state,
            forall|k: int| 0 <= k < i ==> #[trigger] board.cells@[k] == adjacency_cells(b)[k],
            forall|k: int| i <= k < n ==> #[trigger] board.cells@[k] == b.cells[k],
        decreases n - i,
    {
        let cell = board.cells[i];
        if !cell.is_mine {
            proof {
                assert(b.width > 0) by (nonlinear_arith)
                    requires
                        0 <= i < b.width * b.height,
                        b.width >= 0,
                        b.height >= 0,
                ;
                lemma_position(b, i as int);
            }
            let col = i % w;
            let row = i / w;
            let cnt = count_adjacent(board, col, row);
            proof {
                // only adjacency counts have changed so far, so the mines around are the same
                assert forall|x: int, y: int| #[trigger] mine_at(board@, x, y) == mine_at(b, x, y) by {
                    if b.on_board(x, y) {
                        lemma_coords(b, x, y);
                    }
                }
            }
            let ghost s0 = board.cells@;
            let nv = Cell { adjacent: cnt, ..cell };
            board.cells.set(i, nv);
            proof {
                lemma_count_state_update(s0, i as int, nv, CellState::Revealed);
                lemma_count_state_update(s0, i as int, nv, CellState::Flagged);
            }
        }
        i = i + 1;
    }
    proof {
        assert(board.cells@ =~= adjacency_cells(b));
    }
}

/// Two cell lists with the same mines have the same mine count.
proof fn lemma_count_mines_same(s: Seq<Cell>, t: Seq<Cell>)
    requires
        s.len() == t.len(),
        forall|i: int| 0 <= i < s.len() ==> (#[trigger] s[i]).is_mine == t[i].is_mine,
    ensures
        count_mines(s) == count_mines(t),
    decreases s.len(),
{
    if s.len() > 0 {
        lemma_count_mines_same(s.drop_last(), t.drop_last());
    }
}

/// (`c`, `r`) lies in the 3x3 block around the first click at (`sc`, `sr`),
/// which stays free of mines.
pub open spec fn in_safe_zone(sc: int, sr: int, c: int, r: int) -> bool {
    sc - 1 <= c <= sc + 1 && sr - 1 <= r <= sr + 1
}

/// Some draw among the first `m` falls on (`c`, `r`).
pub open spec fn drawn(draws: Seq<(usize, usize)>, m: int, c: int, r: int) -> bool {
    exists|k: int| 0 <= k < m && #[trigger] draws[k] == (c as usize, r as usize)
}

/// Draw `k` lays a mine: outside the safe zone, on a cell without a mine
/// that no earlier draw fell on.
pub open spec fn lays_mine(b: BoardView, draws: Seq<(usize, usize)>, sc: int, sr: int, k: int) -> bool {
    let c = draws[k].0 as int;
    let r = draws[k].1 as int;
    &&& !in_safe_zone(sc, sr, c, r)
    &&& !b.at(c, r).is_mine
    &&& !drawn(draws, k, c, r)
}

/// Number of mines laid by the first `m` draws.
pub open spec fn laid(b: BoardView, draws: Seq<(usize, usize)>, sc: int, sr: int, m: int) -> nat
    decreases m,
{
    if m <= 0 {
        0
    } else {
        laid(b, draws, sc, sr, m - 1) + if lays_mine(b, draws, sc, sr, m - 1) {
            1nat
        } else {
            0nat
        }
    }
}

/// Draws taken from the `m`-th on: placement stops once the board's mine
/// count is laid, or when `bound` draws have been taken.
pub open spec fn used_from(b: BoardView, draws: Seq<(usize, usize)>, sc: int, sr: int, bound: int, m: int) -> int
    decreases bound - m,
{
    if m >= bound || laid(b, draws, sc, sr, m) >= b.mine_count {
        m
    } else {
        used_from(b, draws, sc, sr, bound, m + 1)
    }
}

/// Number of draws placement takes: at most twenty per cell, and at most
/// as many as there are.
pub open spec fn draws_used(b: BoardView, draws: Seq<(usize, usize)>, sc: int, sr: int) -> int {
    let limit = b.width * b.height * 20;
    let bound = if draws.len() < limit { draws.len() as int } else { limit };
    used_from(b, draws, sc, sr, bound, 0)
}

/// The cells once the first `m` draws are placed: a cell outside the safe
/// zone that one of them falls on holds a mine.
pub open spec fn mined_cells(b: BoardView, draws: Seq<(usize, usize)>, sc: int, sr: int, m: int) -> Seq<Cell> {
    Seq::new(
        b.cells.len(),
        |i: int|
            Cell {
                is_mine: b.cells[i].is_mine || (!in_safe_zone(sc, sr, col_of(b, i), row_of(b, i))
                    && drawn(draws, m, col_of(b, i), row_of(b, i))),
                ..b.cells[i]
            },
    )
}

/// The board once mines are placed from `draws` around a first click at
/// (`sc`, `sr`): mines laid, counts computed, the game under way.
pub open spec fn placed_board(b: BoardView, draws: Seq<(usize, usize)>, sc: int, sr: int) -> BoardView {
    let mined = BoardView { cells: mined_cells(b, draws, sc, sr, draws_used(b, draws, sc, sr)), ..b };
    BoardView {
        cells: adjacency_cells(mined),
        mines_placed: true,
        state: BoardState::Playing,
        ..b
    }
}

/// Place `board.mine_count` mines, excluding the safe zone around
/// (`safe_col`, `safe_row`) (that cell and its 8 neighbors), taking cell
/// positions from `draws` in order; then compute the `adjacent` count of
/// every cell without a mine. Returns how many draws were taken.
///
/// Called once, on the first reveal.
pub fn place_mines(board: &mut Board, safe_col: usize, safe_row: usize, draws: &[(usize, usize)]) -> (used: usize)
    requires
        old(board).wf(),
        safe_col < old(board).width,
        safe_row < old(board).height,
        old(board).width * old(board).height * 20 <= usize::MAX,
        forall|k: int|
            0 <= k < draws@.len() ==> (#[trigger] draws@[k]).0 < old(board).width && draws@[k].1
                < old(board).height,
    ensures
        final(board).wf(),
        used == draws_used(old(board)@, draws@, safe_col as int, safe_row as int),
        final(board)@ == placed_board(old(board)@, draws@, safe_col as int, safe_row as int),
        count_mines(final(board).cells@) == count_mines(old(board).cells@) + laid(
            old(board)@,
            draws@,
            safe_col as int,
            safe_row as int,
            used as int,
        ),
        laid(old(board)@, draws@, safe_col as int, safe_row as int, used as int)
            == old(board).mine_count || used == draws@.len() || used == old(board).width
            * old(board).height * 20,
        final(board).width == old(board).width,
        final(board).height == old(board).height,
        final(board).mine_count == old(board).mine_count,
{
    let ghost b = board@;
    let ghost sc = safe_col as int;
    let ghost sr = safe_row as int;
    let total = board.width * board.height;
    let limit = total * 20;
    let bound = if draws.len() < limit {
        draws.len()
    } else {
        limit
    };
    let len = board.cells.len();
    let mut placed: usize = 0;
    let mut k: usize = 0;
    proof {
        assert(board.cells@ =~= mined_cells(b, draws@, sc, sr, 0));
    }
    while placed < board.mine_count && k < bound
        invariant
            board.wf(),
            board@ == (BoardView { cells: board@.cells, ..b }),
            len == b.cells.len(),
            len == b.width * b.height,
            bound == (if draws@.len() < b.width * b.height * 20 {
                draws@.len() as int
            } else {
                b.width * b.height * 20
            }),
            k <= bound,
            bound <= draws@.len(),
            placed == laid(b, draws@, sc, sr, k as int),
            placed <= b.mine_count,
            count_mines(board.cells@) == count_mines(b.cells) + placed,
            used_from(b, draws@, sc, sr, bound as int, k as int) == draws_used(b, draws@, sc, sr),
            board.cells@ == mined_cells(b, draws@, sc, sr, k as int),
            forall|j: int|
                0 <= j < draws@.len() ==> (#[trigger] draws@[j]).0 < b.width && draws@[j].1 < b.height,
            b.on_board(sc, sr),
            sc == safe_col,
            sr == safe_row,
        decreases bound - k,
    {
        let (c, r) = draws[k];
        proof {
            lemma_index_in_bounds(b.width, b.height, c as int, r as int);
            lemma_coords(b, c as int, r as int);
        }
        let safe = c + 1 >= safe_col && c <= safe_col + 1 && r + 1 >= safe_row && r <= safe_row + 1;
        let idx = r * board.width + c;
        let ghost s0 = board.cells@;
        let ghost cur = b.at(c as int, r as int);
        if !safe && !board.cells[idx].is_mine {
            let cell = board.cells[idx];
            let nv = Cell { is_mine: true, ..cell };
            board.cells.set(idx, nv);
            proof {
                lemma_count_state_update(s0, idx as int, nv, CellState::Revealed);
                lemma_count_state_update(s0, idx as int, nv, CellState::Flagged);
                lemma_count_mines_update(s0, idx as int, nv);
                assert(lays_mine(b, draws@, sc, sr, k as int));
            }
            placed = placed + 1;
        } else {
            proof {
                if !safe {
                    assert(!lays_mine(b, draws@, sc, sr, k as int));
                }
            }
        }
        proof {
            assert(draws@[k as int] == (c, r));
            assert(board.cells@ =~= mined_cells(b, draws@, sc, sr, k + 1)) by {
                assert forall|i: int| 0 <= i < len implies #[trigger] board.cells@[i] == mined_cells(
                    b,
                    draws@,
                    sc,
                    sr,
                    k + 1,
                )[i] by {
                    lemma_position(b, i);
                    let x = col_of(b, i);
                    let y = row_of(b, i);
                    if drawn(draws@, k + 1, x, y) && !drawn(draws@, k as int, x, y) {
                        assert(draws@[k as int] == (x as usize, y as usize));
                        assert(i == idx);
                    }
                    if i == idx {
                        assert(drawn(draws@, k + 1, x, y));
                    }
                }
            }
        }
        k = k + 1;
    }
    proof {
        assert(board@ =~= (BoardView { cells: mined_cells(b, draws@, sc, sr, draws_used(b, draws@, sc, sr)), ..b }));
    }
    let ghost before = board.cells@;
    compute_adjacency(board);
    proof {
        lemma_count_mines_same(before, board.cells@);
    }
    board.mines_placed = true;
    board.state = BoardState::Playing;
    k
}

// ============================================================================
// Laws
// ============================================================================

/// Every cell without a mine shows the number of mines around it.
pub open spec fn counts_consistent(b: BoardView) -> bool {
    forall|x: int, y: int|
        b.on_board(x, y) && !#[trigger] b.at(x, y).is_mine ==> b.at(x, y).adjacent == adjacent_mines(
            b,
            x,
            y,
        )
}

/// The first click and its neighbors never receive a mine: placement
/// leaves every cell of the safe zone as mine-free as it was.
pub proof fn lemma_first_click_safe(
    b: BoardView,
    draws: Seq<(usize, usize)>,
    sc: int,
    sr: int,
    x: int,
    y: int,
)
    requires
        b.cells.len() == b.width * b.height,
        b.on_board(x, y),
        in_safe_zone(sc, sr, x, y),
        !b.at(x, y).is_mine,
    ensures
        !placed_board(b, draws, sc, sr).at(x, y).is_mine,
{
    lemma_coords(b, x, y);
}

/// After placement, every cell without a mine shows the number of mines around it.
pub proof fn lemma_placed_counts(b: BoardView, draws: Seq<(usize, usize)>, sc: int, sr: int)
    requires
        b.cells.len() == b.width * b.height,
    ensures
        counts_consistent(placed_board(b, draws, sc, sr)),
{
    let m = BoardView { cells: mined_cells(b, draws, sc, sr, draws_used(b, draws, sc, sr)), ..b };
    let p = placed_board(b, draws, sc, sr);
    assert forall|u: int, v: int| #[trigger] mine_at(p, u, v) == mine_at(m, u, v) by {
        if b.on_board(u, v) {
            lemma_coords(b, u, v);
        }
    }
    assert forall|x: int, y: int|
        b.on_board(x, y) && !#[trigger] p.at(x, y).is_mine implies p.at(x, y).adjacent
        == adjacent_mines(p, x, y) by {
        lemma_coords(b, x, y);
        assert(mine_at(p, x - 1, y - 1) == mine_at(m, x - 1, y - 1));
        assert(mine_at(p, x, y - 1) == mine_at(m, x, y - 1));
        assert(mine_at(p, x + 1, y - 1) == mine_at(m, x + 1, y - 1));
        assert(mine_at(p, x - 1, y) == mine_at(m, x - 1, y));
        assert(mine_at(p, x + 1, y) == mine_at(m, x + 1, y));
        assert(mine_at(p, x - 1, y + 1) == mine_at(m, x - 1, y + 1));
        assert(mine_at(p, x, y + 1) == mine_at(m, x, y + 1));
        assert(mine_at(p, x + 1, y + 1) == mine_at(m, x + 1, y + 1));
    }
}

/// Around a cell with no adjacent mine, no neighbor holds a mine.
proof fn lemma_no_mine_near_zero(b: BoardView, u: int, v: int, x: int, y: int)
    requires
        is_neighbor(b, u, v, x, y),
        adjacent_mines(b, u, v) == 0,
    ensures
        mine_at(b, x, y) == 0,
{
}

/// The cell a flood reaches is the start, or one flood step away from an
/// opening cell.
proof fn lemma_flood_last_step(b: BoardView, sc: int, sr: int, i: int) -> (prev: (int, int))
    requires
        in_flood(b, sc, sr, i),
        b.on_board(sc, sr),
    ensures
        b.on_board(prev.0, prev.1),
        (col_of(b, i), row_of(b, i)) == (sc, sr) || flood_step(b, prev.0, prev.1, col_of(b, i), row_of(b, i)),
{
    let p = choose|p: Seq<(int, int)>| #[trigger]
        flood_path(b, sc, sr, p) && p.last() == (col_of(b, i), row_of(b, i));
    if p.len() > 1 {
        let j = p.len() - 2;
        assert(step_at(b, p, j));
        if j > 0 {
            assert(step_at(b, p, j - 1));
        }
        p[j]
    } else {
        assert(p.last() == p[0]);
        (sc, sr)
    }
}

/// On a board whose counts are right, a flood fill never turns up a mine.
#[verifier::spinoff_prover]
pub proof fn lemma_flood_avoids_mines(b: BoardView, sc: int, sr: int, i: int)
    requires
        b.cells.len() == b.width * b.height,
        counts_consistent(b),
        b.on_board(sc, sr),
        expands(b, sc, sr),
        in_flood(b, sc, sr, i),
        0 <= i < b.cells.len(),
    ensures
        !b.cells[i].is_mine,
{
    assert(b.width > 0) by (nonlinear_arith)
        requires
            0 <= i < b.width * b.height,
            b.width >= 0,
            b.height >= 0,
    ;
    lemma_position(b, i);
    let x = col_of(b, i);
    let y = row_of(b, i);
    let prev = lemma_flood_last_step(b, sc, sr, i);
    if (x, y) != (sc, sr) {
        let u = prev.0;
        let v = prev.1;
        assert(!b.at(u, v).is_mine);
        assert(b.at(u, v).adjacent == adjacent_mines(b, u, v));
        lemma_no_mine_near_zero(b, u, v, x, y);
    }
}

/// Toggling the flag twice on the same cell gives the board back.
pub proof fn lemma_toggle_flag_twice(b: BoardView, col: int, row: int)
    requires
        b.cells.len() == b.width * b.height,
    ensures
        toggle_flag_result(toggle_flag_result(b, col, row), col, row) == b,
{
    if (b.state is Ready || b.state is Playing) && b.on_board(col, row) {
        lemma_index_in_bounds(b.width, b.height, col, row);
        let i = cell_index(b.width, col, row);
        let t = toggle_flag_result(b, col, row);
        assert(t.cells[i].state != CellState::Revealed ==> t.cells.update(
            i,
            Cell { state: b.cells[i].state, ..t.cells[i] },
        ) =~= b.cells);
    }
}

/// Once the board is won or lost, revealing, flagging and chording change nothing.
pub proof fn lemma_finished_board_is_frozen(b: BoardView, col: int, row: int)
    requires
        b.state is Won || b.state is Lost,
    ensures
        reveal_result(b, col, row) == b,
        toggle_flag_result(b, col, row) == b,
        chord_result(b, col, row) == b,
{
}

/// A chord fires only on an exact flag count: when a cell's flagged
/// neighbors are fewer or more than its number, chording it leaves the
/// board as it was; so does chording a cell that is not revealed, or a
/// board that is not in play.
pub proof fn lemma_chord_needs_exact_flags(b: BoardView, col: int, row: int)
    ensures
        positions_in(b, neighbor_coords(b, col, row), CellState::Flagged).len() != b.at(col, row).adjacent
            ==> chord_result(b, col, row) == b,
        b.at(col, row).state != CellState::Revealed ==> chord_result(b, col, row) == b,
        !(b.state is Playing) ==> chord_result(b, col, row) == b,
{
}

/// Revealing a mine loses the game; revealing the last hidden safe cell wins it.
pub proof fn lemma_reveal_outcome(b: BoardView, col: int, row: int)
    requires
        b.state is Ready || b.state is Playing,
        b.on_board(col, row),
        b.at(col, row).state == CellState::Hidden,
    ensures
        b.at(col, row).is_mine ==> reveal_result(b, col, row).state == BoardState::Lost,
        !b.at(col, row).is_mine ==> (reveal_result(b, col, row).state == BoardState::Won
            <==> reveal_result(b, col, row).revealed_count == b.width * b.height - b.mine_count),
{
}

} // verus!
