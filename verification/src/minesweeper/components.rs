//! Board data model: cells, board, and the counts they keep.
use vstd::prelude::*;

verus! {

/// Visual/logical state of a single cell.
#[derive(Debug, Clone, Copy, PartialEq, Eq, Structural)]
pub enum CellState {
    Hidden,
    Revealed,
    Flagged,
}

/// One cell of the board.
#[derive(Debug, Clone, Copy, PartialEq, Eq, Structural)]
pub struct Cell {
    pub is_mine: bool,
    /// 0..=8, number of adjacent mines. Computed at placement time.
    pub adjacent: u8,
    pub state: CellState,
}

impl Cell {
    /// A hidden, mine-free cell with no count.
    pub fn default() -> (c: Self)
        ensures
            !c.is_mine,
            c.adjacent == 0,
            c.state == CellState::Hidden,
    {
        Self { is_mine: false, adjacent: 0, state: CellState::Hidden }
    }

    pub fn is_hidden(&self) -> (r: bool)
        ensures
            r == (self.state == CellState::Hidden),
    {
        self.state == CellState::Hidden
    }

    pub fn is_revealed(&self) -> (r: bool)
        ensures
            r == (self.state == CellState::Revealed),
    {
        self.state == CellState::Revealed
    }

    pub fn is_flagged(&self) -> (r: bool)
        ensures
            r == (self.state == CellState::Flagged),
    {
        self.state == CellState::Flagged
    }
}

/// High-level state of the board itself.
#[derive(Debug, Clone, Copy, PartialEq, Eq, Structural)]
pub enum BoardState {
    /// Waiting for the first click. Mines not placed yet.
    Ready,
    Playing,
    Won,
    Lost,
}

/// Number of cells of `s` in state `st`.
pub open spec fn count_state(s: Seq<Cell>, st: CellState) -> nat
    decreases s.len(),
{
    if s.len() == 0 {
        0
    } else {
        count_state(s.drop_last(), st) + if s.last().state == st { 1nat } else { 0nat }
    }
}

/// Number of mines among the cells of `s`.
pub open spec fn count_mines(s: Seq<Cell>) -> nat
    decreases s.len(),
{
    if s.len() == 0 {
        0
    } else {
        count_mines(s.drop_last()) + if s.last().is_mine { 1nat } else { 0nat }
    }
}

/// Replacing one cell changes each state count by what left and what came.
pub proof fn lemma_count_state_update(s: Seq<Cell>, i: int, c: Cell, st: CellState)
    requires
        0 <= i < s.len(),
    ensures
        count_state(s.update(i, c), st) + (if s[i].state == st { 1int } else { 0int })
            == count_state(s, st) + (if c.state == st { 1int } else { 0int }),
    decreases s.len(),
{
    if i < s.len() - 1 {
        lemma_count_state_update(s.drop_last(), i, c, st);
        assert(s.update(i, c).drop_last() =~= s.drop_last().update(i, c));
    } else {
        assert(s.update(i, c).drop_last() =~= s.drop_last());
    }
}

/// Replacing one cell changes the mine count by what left and what came.
pub proof fn lemma_count_mines_update(s: Seq<Cell>, i: int, c: Cell)
    requires
        0 <= i < s.len(),
    ensures
        count_mines(s.update(i, c)) + (if s[i].is_mine { 1int } else { 0int })
            == count_mines(s) + (if c.is_mine { 1int } else { 0int }),
    decreases s.len(),
{
    if i < s.len() - 1 {
        lemma_count_mines_update(s.drop_last(), i, c);
        assert(s.update(i, c).drop_last() =~= s.drop_last().update(i, c));
    } else {
        assert(s.update(i, c).drop_last() =~= s.drop_last());
    }
}

/// No cell of `s` has state `st`: the count is zero.
pub proof fn lemma_count_state_none(s: Seq<Cell>, st: CellState)
    requires
        forall|i: int| 0 <= i < s.len() ==> s[i].state != st,
    ensures
        count_state(s, st) == 0,
    decreases s.len(),
{
    if s.len() > 0 {
        lemma_count_state_none(s.drop_last(), st);
    }
}

/// A state count never exceeds the number of cells.
pub proof fn lemma_count_state_bound(s: Seq<Cell>, st: CellState)
    ensures
        count_state(s, st) <= s.len(),
    decreases s.len(),
{
    if s.len() > 0 {
        lemma_count_state_bound(s.drop_last(), st);
    }
}

/// The three state counts add up to the number of cells.
pub proof fn lemma_count_state_total(s: Seq<Cell>)
    ensures
        count_state(s, CellState::Hidden) + count_state(s, CellState::Revealed) + count_state(
            s,
            CellState::Flagged,
        ) == s.len(),
    decreases s.len(),
{
    if s.len() > 0 {
        lemma_count_state_total(s.drop_last());
    }
}

/// The entire board. `cells` is stored row by row: the cell at column
/// `col`, row `row` is `cells[row * width + col]`.
pub struct Board {
    pub cells: Vec<Cell>,
    pub width: usize,
    pub height: usize,
    pub mine_count: usize,
    pub mines_placed: bool,
    pub revealed_count: usize,
    pub flagged_count: usize,
    pub state: BoardState,
}

/// A hidden, mine-free cell with no count.
pub open spec fn is_fresh(c: Cell) -> bool {
    !c.is_mine && c.adjacent == 0 && c.state == CellState::Hidden
}

/// Position in the row-major cell list.
pub open spec fn cell_index(width: int, col: int, row: int) -> int {
    row * width + col
}

impl Board {
    /// The cell at (`col`, `row`), for coordinates on the board.
    pub open spec fn at(&self, col: int, row: int) -> Cell {
        self.cells@[cell_index(self.width as int, col, row)]
    }

    /// The cell list matches the dimensions, and the revealed and flagged
    /// counters agree with the cells.
    pub open spec fn wf(&self) -> bool {
        &&& self.cells@.len() == self.width * self.height
        &&& self.revealed_count == count_state(self.cells@, CellState::Revealed)
        &&& self.flagged_count == count_state(self.cells@, CellState::Flagged)
    }

    /// A fresh `width` x `height` board awaiting `mine_count` mines: every
    /// cell hidden and mine-free, nothing counted yet.
    pub open spec fn new_view(width: int, height: int, mine_count: int) -> BoardView {
        BoardView {
            cells: Seq::new(
                (width * height) as nat,
                |i: int| Cell { is_mine: false, adjacent: 0, state: CellState::Hidden },
            ),
            width,
            height,
            mine_count,
            mines_placed: false,
            revealed_count: 0,
            flagged_count: 0,
            state: BoardState::Ready,
        }
    }

    /// Create an empty board (no mines yet — first-click safety).
    pub fn new(width: usize, height: usize, mine_count: usize) -> (b: Self)
        requires
            width * height <= usize::MAX,
        ensures
            b.wf(),
            b.width == width,
            b.height == height,
            b.mine_count == mine_count,
            !b.mines_placed,
            b.revealed_count == 0,
            b.flagged_count == 0,
            b.state == BoardState::Ready,
            forall|i: int| 0 <= i < b.cells@.len() ==> is_fresh(#[trigger] b.cells@[i]),
            b@ == Board::new_view(width as int, height as int, mine_count as int),
    {
        let n = width * height;
        let mut cells: Vec<Cell> = Vec::with_capacity(n);
        let mut i: usize = 0;
        while i < n
            invariant
                i <= n,
                cells@.len() == i,
                forall|k: int| 0 <= k < i ==> is_fresh(#[trigger] cells@[k]),
            decreases n - i,
        {
            cells.push(Cell::default());
            i = i + 1;
        }
        proof {
            lemma_count_state_none(cells@, CellState::Revealed);
            lemma_count_state_none(cells@, CellState::Flagged);
            assert(cells@ =~= Board::new_view(width as int, height as int, mine_count as int).cells);
        }
        Self {
            cells,
            width,
            height,
            mine_count,
            mines_placed: false,
            revealed_count: 0,
            flagged_count: 0,
            state: BoardState::Ready,
        }
    }

    /// Number of safe cells (total minus mines).
    pub fn safe_cell_count(&self) -> (n: usize)
        requires
            self.wf(),
            self.mine_count <= self.width * self.height,
        ensures
            n == self.width * self.height - self.mine_count,
    {
        self.cells.len() - self.mine_count
    }

    /// Mines remaining to be flagged. Can go negative if over-flagged.
    pub fn mines_remaining(&self) -> (n: i32)
        requires
            self.mine_count <= i32::MAX,
            self.flagged_count <= i32::MAX,
        ensures
            n == self.mine_count - self.flagged_count,
    {
        self.mine_count as i32 - self.flagged_count as i32
    }

    /// The cell at (`col`, `row`), `None` off the board.
    pub fn cell(&self, col: usize, row: usize) -> (c: Option<Cell>)
        requires
            self.wf(),
        ensures
            c == (if col < self.width && row < self.height {
                Some(self.at(col as int, row as int))
            } else {
                None
            }),
    {
        if col < self.width && row < self.height {
            let n = self.cells.len();
            proof {
                lemma_index_in_bounds(self.width as int, self.height as int, col as int, row as int);
            }
            assert(row * self.width + col < n);
            Some(self.cells[row * self.width + col])
        } else {
            None
        }
    }
}

/// A coordinate on a `width` x `height` board has its index within the cell list.
pub proof fn lemma_index_in_bounds(width: int, height: int, col: int, row: int)
    requires
        0 <= col < width,
        0 <= row < height,
    ensures
        0 <= cell_index(width, col, row) < width * height,
        cell_index(width, col, row) + 1 <= width * height,
{
    assert(row * width + col < width * height) by (nonlinear_arith)
        requires
            0 <= col < width,
            0 <= row < height,
    ;
    assert(0 <= row * width) by (nonlinear_arith)
        requires
            0 <= row,
            0 <= width,
    ;
}

/// Distinct coordinates have distinct indices.
pub proof fn lemma_index_injective(width: int, c1: int, r1: int, c2: int, r2: int)
    requires
        0 <= c1 < width,
        0 <= c2 < width,
        0 <= r1,
        0 <= r2,
        cell_index(width, c1, r1) == cell_index(width, c2, r2),
    ensures
        c1 == c2,
        r1 == r2,
{
    assert(r1 == r2 && c1 == c2) by (nonlinear_arith)
        requires
            0 <= c1 < width,
            0 <= c2 < width,
            0 <= r1,
            0 <= r2,
            r1 * width + c1 == r2 * width + c2,
    ;
}


/// Abstract value of a board.
#[verifier::ext_equal]
pub struct BoardView {
    pub cells: Seq<Cell>,
    pub width: int,
    pub height: int,
    pub mine_count: int,
    pub mines_placed: bool,
    pub revealed_count: int,
    pub flagged_count: int,
    pub state: BoardState,
}

impl View for Board {
    type V = BoardView;

    open spec fn view(&self) -> BoardView {
        BoardView {
            cells: self.cells@,
            width: self.width as int,
            height: self.height as int,
            mine_count: self.mine_count as int,
            mines_placed: self.mines_placed,
            revealed_count: self.revealed_count as int,
            flagged_count: self.flagged_count as int,
            state: self.state,
        }
    }
}

impl BoardView {
    /// (`col`, `row`) lies on the board.
    pub open spec fn on_board(self, col: int, row: int) -> bool {
        0 <= col < self.width && 0 <= row < self.height
    }

    /// The cell at (`col`, `row`).
    pub open spec fn at(self, col: int, row: int) -> Cell {
        self.cells[cell_index(self.width, col, row)]
    }
}

} // verus!
