//! Game logic: rules, moves, super-moves, undo/redo, win detection,
//! hints and the drag state machine.
//!
//! **Column representation**: `columns[col][0]` is the card visually at the
//! top of the column, `columns[col][len-1]` the card visually at the bottom.
//! Only the bottom-most contiguous run of a column can be picked up, and a
//! stack dropped on a column is appended at its end.
use vstd::multiset::Multiset;
use vstd::prelude::*;

use super::cards::{Card, Color, Rank, Suit, Zone, suit_color, suit_index};
use super::deck::{canonical_card, deal};
use crate::game_state::GameState;
use crate::shuffle::{picks_valid, shuffled};

verus! {

// ============================================================================
// Abstract model
// ============================================================================

/// The cards on the table: eight columns, four free cells, four foundations.
#[verifier::ext_equal]
pub struct Layout {
    pub columns: Seq<Seq<Card>>,
    pub free_cells: Seq<Option<Card>>,
    pub foundations: Seq<Seq<Card>>,
}

/// What an undo/redo snapshot records.
#[verifier::ext_equal]
pub struct SnapshotView {
    pub layout: Layout,
    pub moves: u32,
}

/// Abstract drag state.
#[verifier::ext_equal]
pub enum DragView {
    Idle,
    Pressing { origin: Zone, card: Card },
    Dragging { origin: Zone, start_index: usize, cards: Seq<Card> },
}

/// Abstract state of a FreeCell session.
#[verifier::ext_equal]
pub struct GameView {
    pub state: GameState,
    pub layout: Layout,
    pub drag: DragView,
    pub moves: u32,
    pub timer_running: bool,
    pub seed: u32,
    pub history: Seq<SnapshotView>,
    pub future: Seq<SnapshotView>,
    pub hint: Option<Hint>,
}

impl Layout {
    /// Eight columns, four free cells, four foundations.
    pub open spec fn wf(self) -> bool {
        &&& self.columns.len() == 8
        &&& self.free_cells.len() == 4
        &&& self.foundations.len() == 4
    }
}

pub open spec fn seqs_of(v: Seq<Vec<Card>>) -> Seq<Seq<Card>> {
    v.map_values(|c: Vec<Card>| c@)
}

// ----------------------------------------------------------------------------
// Rules
// ----------------------------------------------------------------------------

/// A card may go on a column when the column is empty, or when its bottom
/// card is one rank higher and of the other color.
pub open spec fn can_place_on_column(l: Layout, card: Card, col: int) -> bool {
    &&& 0 <= col < 8
    &&& (l.columns[col].len() == 0 || {
        let top = l.columns[col].last();
        &&& top.rank.0 == card.rank.0 + 1
        &&& suit_color(top.suit) != suit_color(card.suit)
    })
}

/// A card may go on the foundation of its own suit: an ace on an empty
/// foundation, otherwise the next rank.
pub open spec fn can_place_on_foundation(l: Layout, card: Card, f: int) -> bool {
    &&& 0 <= f < 4
    &&& suit_index(card.suit) == f
    &&& if l.foundations[f].len() == 0 {
        card.rank.0 == 1
    } else {
        l.foundations[f].last().rank.0 + 1 == card.rank.0
    }
}

/// A free cell accepts a card when it is empty.
pub open spec fn can_place_in_cell(l: Layout, cell: int) -> bool {
    0 <= cell < 4 && l.free_cells[cell] is None
}

/// Number of `None` entries among the first `k` free cells.
pub open spec fn empty_cells_upto(cells: Seq<Option<Card>>, k: int) -> nat
    decreases k,
{
    if k <= 0 {
        0
    } else {
        empty_cells_upto(cells, k - 1) + if cells[k - 1] is None { 1nat } else { 0nat }
    }
}

/// Number of empty columns among the first `k`.
pub open spec fn empty_columns_upto(cols: Seq<Seq<Card>>, k: int) -> nat
    decreases k,
{
    if k <= 0 {
        0
    } else {
        empty_columns_upto(cols, k - 1) + if cols[k - 1].len() == 0 { 1nat } else { 0nat }
    }
}

pub open spec fn pow2(n: nat) -> nat
    decreases n,
{
    if n == 0 { 1 } else { 2 * pow2((n - 1) as nat) }
}

/// Longest stack that can be moved at once: (1 + empty cells) * 2^(empty columns).
pub open spec fn max_super_move(l: Layout) -> nat {
    (1 + empty_cells_upto(l.free_cells, 4)) * pow2(empty_columns_upto(l.columns, 8))
}

/// A run of `n` cards starting at `start` can be picked up: for a column
/// it must reach the column's bottom; free cells and foundations always.
pub open spec fn is_accessible(l: Layout, from: Zone, start: int, n: int) -> bool {
    match from {
        Zone::Column(col) => col < 8 && start + n == l.columns[col as int].len(),
        Zone::FreeCell(_) | Zone::Foundation(_) => true,
    }
}

/// Descending ranks with alternating colors, and not empty.
pub open spec fn valid_sequence(s: Seq<Card>) -> bool {
    &&& s.len() > 0
    &&& forall|i: int| 0 <= i < s.len() - 1 ==> #[trigger] stacks_on(s[i + 1], s[i])
}

/// `below` may sit under `above` in a run: one rank lower, other color.
pub open spec fn stacks_on(below: Card, above: Card) -> bool {
    &&& above.rank.0 == below.rank.0 + 1
    &&& suit_color(above.suit) != suit_color(below.suit)
}

/// `cards` is exactly what the zone holds at `start`.
pub open spec fn source_matches(l: Layout, zone: Zone, cards: Seq<Card>, start: int) -> bool {
    &&& cards.len() > 0
    &&& match zone {
        Zone::Column(col) => {
            &&& col < 8
            &&& start + cards.len() <= l.columns[col as int].len()
            &&& l.columns[col as int].subrange(start, start + cards.len()) == cards
        },
        Zone::FreeCell(cell) => cell < 4 && cards.len() == 1 && l.free_cells[cell as int]
            == Some(cards[0]),
        Zone::Foundation(f) => {
            &&& f < 4
            &&& cards.len() == 1
            &&& l.foundations[f as int].len() > 0
            &&& l.foundations[f as int].last() == cards[0]
        },
    }
}

/// The full legality check of moving `cards`, taken at `start` in `from`, to `to`.
pub open spec fn validate_move(l: Layout, from: Zone, to: Zone, cards: Seq<Card>, start: int) -> bool {
    &&& is_accessible(l, from, start, cards.len() as int)
    &&& source_matches(l, from, cards, start)
    &&& (cards.len() > 1 ==> valid_sequence(cards) && cards.len() <= max_super_move(l))
    &&& match to {
        Zone::Column(col) => can_place_on_column(l, cards[0], col as int),
        Zone::Foundation(f) => cards.len() == 1 && can_place_on_foundation(l, cards[0], f as int),
        Zone::FreeCell(c) => cards.len() == 1 && can_place_in_cell(l, c as int),
    }
}

/// The layout without the `n` cards taken at `start` in `zone`.
pub open spec fn remove_from(l: Layout, zone: Zone, start: int, n: int) -> Layout {
    match zone {
        Zone::Column(col) => {
            let c = l.columns[col as int];
            Layout {
                columns: l.columns.update(col as int, c.subrange(0, start) + c.subrange(start + n, c.len() as int)),
                ..l
            }
        },
        Zone::FreeCell(cell) => Layout { free_cells: l.free_cells.update(cell as int, None), ..l },
        Zone::Foundation(f) => Layout {
            foundations: l.foundations.update(f as int, l.foundations[f as int].drop_last()),
            ..l
        },
    }
}

/// `n` cards at `start` can be taken out of `zone`.
pub open spec fn removable(l: Layout, zone: Zone, start: int, n: int) -> bool {
    match zone {
        Zone::Column(col) => col < 8 && 0 <= start && 0 <= n && start + n <= l.columns[col as int].len(),
        Zone::FreeCell(cell) => cell < 4 && n == 1,
        Zone::Foundation(f) => f < 4 && n == 1 && l.foundations[f as int].len() > 0,
    }
}

/// The zone names one of the eight columns, four cells or four foundations.
pub open spec fn zone_in_range(zone: Zone) -> bool {
    match zone {
        Zone::Column(col) => col < 8,
        Zone::FreeCell(cell) => cell < 4,
        Zone::Foundation(f) => f < 4,
    }
}

/// The layout with `cards` added to `zone`.
pub open spec fn push_onto(l: Layout, zone: Zone, cards: Seq<Card>) -> Layout {
    match zone {
        Zone::Column(col) => Layout {
            columns: l.columns.update(col as int, l.columns[col as int] + cards),
            ..l
        },
        Zone::FreeCell(cell) => if cards.len() == 1 {
            Layout { free_cells: l.free_cells.update(cell as int, Some(cards[0])), ..l }
        } else {
            l
        },
        Zone::Foundation(f) => if cards.len() == 1 {
            Layout {
                foundations: l.foundations.update(f as int, l.foundations[f as int].push(cards[0])),
                ..l
            }
        } else {
            l
        },
    }
}

/// The layout after moving `cards` from `from` (at `start`) to `to`.
pub open spec fn apply_move(l: Layout, from: Zone, to: Zone, cards: Seq<Card>, start: int) -> Layout {
    push_onto(remove_from(l, from, start, cards.len() as int), to, cards)
}

/// All four foundations are complete.
pub open spec fn is_won(l: Layout) -> bool {
    forall|f: int| 0 <= f < 4 ==> #[trigger] l.foundations[f].len() == 13
}

/// What a snapshot of the session records.
pub open spec fn snapshot_of(v: GameView) -> SnapshotView {
    SnapshotView { layout: v.layout, moves: v.moves }
}

/// The session after the win check: a completed table ends the game and stops the timer.
pub open spec fn with_win_check(v: GameView) -> GameView {
    if is_won(v.layout) {
        GameView { state: GameState::Win, timer_running: false, ..v }
    } else {
        v
    }
}

/// A drop of `cards` taken at `start` in `from` onto `to` is accepted.
pub open spec fn drop_succeeds(v: GameView, from: Zone, to: Zone, cards: Seq<Card>, start: int) -> bool {
    cards.len() > 0 && from != to && validate_move(v.layout, from, to, cards, start)
}

/// The session after an accepted drop: the move is applied, the previous
/// position is recorded for undo, the redo list is cleared, the move is
/// counted, the hint is cleared and the timer runs (until a win).
pub open spec fn after_drop(v: GameView, from: Zone, to: Zone, cards: Seq<Card>, start: int) -> GameView {
    with_win_check(
        GameView {
            layout: apply_move(v.layout, from, to, cards, start),
            history: v.history.push(snapshot_of(v)),
            future: Seq::empty(),
            moves: (v.moves + 1) as u32,
            hint: None,
            timer_running: true,
            ..v
        },
    )
}

/// The session after undoing one move (requires a non-empty history).
pub open spec fn after_undo(v: GameView) -> GameView {
    let prev = v.history.last();
    GameView {
        layout: prev.layout,
        moves: prev.moves,
        history: v.history.drop_last(),
        future: v.future.push(snapshot_of(v)),
        hint: None,
        state: if v.state == GameState::Win { GameState::Playing } else { v.state },
        ..v
    }
}

/// The session after redoing one move (requires a non-empty redo list).
pub open spec fn after_redo(v: GameView) -> GameView {
    let next = v.future.last();
    with_win_check(
        GameView {
            layout: next.layout,
            moves: next.moves,
            history: v.history.push(snapshot_of(v)),
            future: v.future.drop_last(),
            hint: None,
            ..v
        },
    )
}

/// The longest run that can be dragged from `c` starting at `idx`: the card
/// at `idx`, followed by the cards below it while each is one rank lower
/// and of the other color than the card above it.
pub open spec fn run_from(c: Seq<Card>, idx: int) -> Seq<Card>
    decreases c.len() - idx,
{
    if idx < 0 || idx >= c.len() {
        Seq::empty()
    } else if idx + 1 < c.len() && stacks_on(c[idx + 1], c[idx]) {
        seq![c[idx]] + run_from(c, idx + 1)
    } else {
        seq![c[idx]]
    }
}

/// The cards a drag starting on (`zone`, `idx`) picks up.
pub open spec fn drag_run(l: Layout, zone: Zone, idx: int) -> Seq<Card> {
    match zone {
        Zone::FreeCell(i) => match l.free_cells[i as int] {
            Some(c) => seq![c],
            None => Seq::empty(),
        },
        Zone::Foundation(i) => if l.foundations[i as int].len() > 0 {
            seq![l.foundations[i as int].last()]
        } else {
            Seq::empty()
        },
        Zone::Column(col) => run_from(l.columns[col as int], idx),
    }
}

/// Position of the first occurrence of `card` in `s`, or 0 when absent.
pub open spec fn first_index(s: Seq<Card>, card: Card) -> int
    decreases s.len(),
{
    if s.len() == 0 {
        0
    } else if s[0] == card {
        0
    } else if s.drop_first().contains(card) {
        1 + first_index(s.drop_first(), card)
    } else {
        0
    }
}

/// Where a dragged card sits in its zone: its position in a column, 0 elsewhere.
pub open spec fn index_in_zone(l: Layout, zone: Zone, card: Card) -> int {
    match zone {
        Zone::Column(col) => first_index(l.columns[col as int], card),
        _ => 0,
    }
}

/// The bottom card of column `col` can go to its foundation.
pub open spec fn foundation_move_from(l: Layout, col: int) -> bool {
    &&& l.columns[col].len() > 0
    &&& can_place_on_foundation(l, l.columns[col].last(), suit_index(l.columns[col].last().suit) as int)
}

/// The bottom card of column `from` can go onto column `to`.
pub open spec fn column_move(l: Layout, from: int, to: int) -> bool {
    &&& l.columns[from].len() > 0
    &&& from != to
    &&& can_place_on_column(l, l.columns[from].last(), to)
}

/// `hint` is the first useful move in the search order: foundation moves
/// (by column), then column moves (by source, then destination column),
/// then the first empty free cell for the first non-empty column.
pub open spec fn is_first_hint(l: Layout, hint: Hint) -> bool {
    match hint.from {
        Zone::Column(c) => {
            &&& c < 8
            &&& l.columns[c as int].len() > 0
            &&& hint.card == l.columns[c as int].last()
            &&& match hint.to {
                Zone::Foundation(f) => {
                    &&& foundation_move_from(l, c as int)
                    &&& f == suit_index(hint.card.suit)
                    &&& forall|k: int| 0 <= k < c ==> !#[trigger] foundation_move_from(l, k)
                },
                Zone::Column(t) => {
                    &&& t < 8
                    &&& column_move(l, c as int, t as int)
                    &&& forall|k: int| 0 <= k < 8 ==> !#[trigger] foundation_move_from(l, k)
                    &&& forall|a: int, b: int|
                        0 <= a < 8 && 0 <= b < 8 && (a < c || (a == c && b < t)) ==> !#[trigger] column_move(l, a, b)
                },
                Zone::FreeCell(cell) => {
                    &&& can_place_in_cell(l, cell as int)
                    &&& forall|k: int| 0 <= k < cell ==> !#[trigger] can_place_in_cell(l, k)
                    &&& forall|k: int| 0 <= k < c ==> (#[trigger] l.columns[k]).len() == 0
                    &&& forall|k: int| 0 <= k < 8 ==> !#[trigger] foundation_move_from(l, k)
                    &&& forall|a: int, b: int| 0 <= a < 8 && 0 <= b < 8 ==> !#[trigger] column_move(l, a, b)
                },
            }
        },
        _ => false,
    }
}

/// No hint exists: no foundation move, no column move, and no empty free
/// cell next to a non-empty column.
pub open spec fn no_hint(l: Layout) -> bool {
    &&& forall|k: int| 0 <= k < 8 ==> !#[trigger] foundation_move_from(l, k)
    &&& forall|a: int, b: int| 0 <= a < 8 && 0 <= b < 8 ==> !#[trigger] column_move(l, a, b)
    &&& ((forall|k: int| 0 <= k < 8 ==> (#[trigger] l.columns[k]).len() == 0) || (forall|k: int|
        0 <= k < 4 ==> !#[trigger] can_place_in_cell(l, k)))
}

/// Column `col` of a 52-card deal: columns 0..4 get 7 cards, columns 4..8 get 6.
pub open spec fn dealt_column(deck: Seq<Card>, col: int) -> Seq<Card> {
    if col < 4 {
        deck.subrange(7 * col, 7 * col + 7)
    } else {
        deck.subrange(28 + 6 * (col - 4), 28 + 6 * (col - 4) + 6)
    }
}

/// The table right after dealing `deck`.
pub open spec fn dealt_layout(deck: Seq<Card>) -> Layout {
    Layout {
        columns: Seq::new(8, |col: int| dealt_column(deck, col)),
        free_cells: Seq::new(4, |i: int| None::<Card>),
        foundations: Seq::new(4, |i: int| Seq::<Card>::empty()),
    }
}

// ============================================================================
// Concrete state
// ============================================================================

/// Snapshot of the mutable game state, used for undo/redo.
pub struct GameSnapshot {
    pub columns: Vec<Vec<Card>>,
    pub free_cells: Vec<Option<Card>>,
    pub foundations: Vec<Vec<Card>>,
    pub moves: u32,
}

impl View for GameSnapshot {
    type V = SnapshotView;

    open spec fn view(&self) -> SnapshotView {
        SnapshotView {
            layout: Layout {
                columns: seqs_of(self.columns@),
                free_cells: self.free_cells@,
                foundations: seqs_of(self.foundations@),
            },
            moves: self.moves,
        }
    }
}

/// A visual hint for the player: a legal move, never executed by itself.
#[derive(Debug, Clone, Copy, PartialEq, Eq, Structural)]
pub struct Hint {
    pub from: Zone,
    pub to: Zone,
    pub card: Card,
}

/// The drag state. Pointer positions live with the caller.
pub enum DragState {
    /// Nothing in progress.
    Idle,
    /// Mouse is down on a card, but not yet dragging.
    Pressing { origin: Zone, card: Card },
    /// Mouse is moving with a stack of cards taken at `start_index`.
    Dragging { origin: Zone, start_index: usize, cards: Vec<Card> },
}

impl View for DragState {
    type V = DragView;

    open spec fn view(&self) -> DragView {
        match self {
            DragState::Idle => DragView::Idle,
            DragState::Pressing { origin, card } => DragView::Pressing { origin: *origin, card: *card },
            DragState::Dragging { origin, start_index, cards } => DragView::Dragging {
                origin: *origin,
                start_index: *start_index,
                cards: cards@,
            },
        }
    }
}

impl DragState {
    pub fn is_idle(&self) -> (r: bool)
        ensures
            r == (self@ is Idle),
    {
        match self {
            DragState::Idle => true,
            _ => false,
        }
    }

    pub fn is_pressing(&self) -> (r: bool)
        ensures
            r == (self@ is Pressing),
    {
        match self {
            DragState::Pressing { .. } => true,
            _ => false,
        }
    }

    pub fn is_dragging(&self) -> (r: bool)
        ensures
            r == (self@ is Dragging),
    {
        match self {
            DragState::Dragging { .. } => true,
            _ => false,
        }
    }
}

/// State of one FreeCell session.
pub struct Game {
    pub state: GameState,
    pub columns: Vec<Vec<Card>>,
    pub free_cells: Vec<Option<Card>>,
    pub foundations: Vec<Vec<Card>>,
    pub drag: DragState,
    pub moves: u32,
    pub timer_running: bool,
    pub seed: u32,
    pub history: Vec<GameSnapshot>,
    pub future: Vec<GameSnapshot>,
    pub hint: Option<Hint>,
}

impl View for Game {
    type V = GameView;

    open spec fn view(&self) -> GameView {
        GameView {
            state: self.state,
            layout: Layout {
                columns: seqs_of(self.columns@),
                free_cells: self.free_cells@,
                foundations: seqs_of(self.foundations@),
            },
            drag: self.drag@,
            moves: self.moves,
            timer_running: self.timer_running,
            seed: self.seed,
            history: self.history@.map_values(|s: GameSnapshot| s@),
            future: self.future@.map_values(|s: GameSnapshot| s@),
            hint: self.hint,
        }
    }
}

impl GameView {
    /// The board has its eight columns, four cells and four foundations,
    /// and so has every recorded snapshot.
    pub open spec fn wf(self) -> bool {
        &&& self.layout.wf()
        &&& match self.drag {
            DragView::Idle => true,
            DragView::Pressing { origin, .. } => zone_in_range(origin),
            DragView::Dragging { origin, .. } => zone_in_range(origin),
        }
        &&& forall|i: int| 0 <= i < self.history.len() ==> (#[trigger] self.history[i]).layout.wf()
        &&& forall|i: int| 0 <= i < self.future.len() ==> (#[trigger] self.future[i]).layout.wf()
    }
}

impl Game {
    pub open spec fn wf(&self) -> bool {
        self@.wf()
    }
}


// ============================================================================
// Helpers on concrete values
// ============================================================================

/// A copy of a pile of cards.
fn copy_cards(v: &Vec<Card>) -> (r: Vec<Card>)
    ensures
        r@ == v@,
{
    let mut r: Vec<Card> = Vec::with_capacity(v.len());
    let mut i: usize = 0;
    while i < v.len()
        invariant
            i <= v.len(),
            r@ == v@.subrange(0, i as int),
        decreases v.len() - i,
    {
        r.push(v[i]);
        i = i + 1;
        assert(r@ =~= v@.subrange(0, i as int));
    }
    assert(v@.subrange(0, v.len() as int) =~= v@);
    r
}

/// A copy of a row of piles.
fn copy_piles(v: &Vec<Vec<Card>>) -> (r: Vec<Vec<Card>>)
    ensures
        seqs_of(r@) == seqs_of(v@),
{
    let mut r: Vec<Vec<Card>> = Vec::with_capacity(v.len());
    let mut i: usize = 0;
    while i < v.len()
        invariant
            i <= v.len(),
            r@.len() == i,
            forall|k: int| 0 <= k < i ==> (#[trigger] r@[k])@ == v@[k]@,
        decreases v.len() - i,
    {
        let c = copy_cards(&v[i]);
        r.push(c);
        i = i + 1;
    }
    assert(seqs_of(r@) =~= seqs_of(v@));
    r
}

/// A copy of the free cells.
fn copy_cells(v: &Vec<Option<Card>>) -> (r: Vec<Option<Card>>)
    ensures
        r@ == v@,
{
    let mut r: Vec<Option<Card>> = Vec::with_capacity(v.len());
    let mut i: usize = 0;
    while i < v.len()
        invariant
            i <= v.len(),
            r@ == v@.subrange(0, i as int),
        decreases v.len() - i,
    {
        r.push(v[i]);
        i = i + 1;
        assert(r@ =~= v@.subrange(0, i as int));
    }
    assert(v@.subrange(0, v.len() as int) =~= v@);
    r
}

/// `n` empty piles.
fn empty_piles(n: usize) -> (r: Vec<Vec<Card>>)
    ensures
        r@.len() == n,
        forall|i: int| 0 <= i < n ==> (#[trigger] r@[i])@ == Seq::<Card>::empty(),
{
    let mut r: Vec<Vec<Card>> = Vec::with_capacity(n);
    let mut i: usize = 0;
    while i < n
        invariant
            i <= n,
            r@.len() == i,
            forall|k: int| 0 <= k < i ==> (#[trigger] r@[k])@ == Seq::<Card>::empty(),
        decreases n - i,
    {
        let e: Vec<Card> = Vec::new();
        r.push(e);
        i = i + 1;
    }
    r
}

/// Four empty free cells.
fn empty_cells() -> (r: Vec<Option<Card>>)
    ensures
        r@.len() == 4,
        forall|i: int| 0 <= i < 4 ==> r@[i] is None,
{
    let mut r: Vec<Option<Card>> = Vec::with_capacity(4);
    r.push(None);
    r.push(None);
    r.push(None);
    r.push(None);
    r
}

/// The cards of `c` from `start` on begin with exactly `cards`.
fn run_matches(c: &Vec<Card>, start: usize, cards: &[Card]) -> (r: bool)
    ensures
        r == (start + cards@.len() <= c@.len() && c@.subrange(
            start as int,
            start + cards@.len(),
        ) == cards@),
{
    if start > c.len() || cards.len() > c.len() - start {
        return false;
    }
    let n = cards.len();
    let mut k: usize = 0;
    while k < n
        invariant
            n == cards@.len(),
            k <= n,
            start + n <= c@.len(),
            c@.len() == c.len(),
            forall|m: int| 0 <= m < k ==> c@[start + m] == #[trigger] cards@[m],
        decreases n - k,
    {
        if c[start + k] != cards[k] {
            assert(c@.subrange(start as int, start + n)[k as int] != cards@[k as int]);
            return false;
        }
        k = k + 1;
    }
    assert(c@.subrange(start as int, start + n) =~= cards@);
    true
}

/// Descending ranks with alternating colors, and not empty.
pub fn is_valid_sequence(cards: &[Card]) -> (r: bool)
    ensures
        r == valid_sequence(cards@),
{
    let n = cards.len();
    if n == 0 {
        return false;
    }
    let mut i: usize = 0;
    while i + 1 < n
        invariant
            n == cards@.len(),
            n > 0,
            i < n,
            forall|k: int| 0 <= k < i ==> #[trigger] stacks_on(cards@[k + 1], cards@[k]),
        decreases n - i,
    {
        let a = cards[i];
        let b = cards[i + 1];
        if (a.rank.0 as u16) != (b.rank.0 as u16) + 1 {
            assert(!stacks_on(cards@[i + 1], cards@[i as int]));
            return false;
        }
        if a.color() == b.color() {
            assert(!stacks_on(cards@[i + 1], cards@[i as int]));
            return false;
        }
        i = i + 1;
    }
    true
}

impl Game {
    /// A fresh session on the start screen, with an empty table.
    pub fn new() -> (g: Self)
        ensures
            g.wf(),
            g@.state == GameState::Start,
            g@.layout.columns =~= Seq::new(8, |i: int| Seq::<Card>::empty()),
            g@.layout.free_cells =~= Seq::new(4, |i: int| None::<Card>),
            g@.layout.foundations =~= Seq::new(4, |i: int| Seq::<Card>::empty()),
            g@.drag == DragView::Idle,
            g@.moves == 0,
            !g@.timer_running,
            g@.seed == 1,
            g@.history.len() == 0,
            g@.future.len() == 0,
            g@.hint is None,
    {
        let g = Self {
            state: GameState::Start,
            columns: empty_piles(8),
            free_cells: empty_cells(),
            foundations: empty_piles(4),
            drag: DragState::Idle,
            moves: 0,
            timer_running: false,
            seed: 1,
            history: Vec::new(),
            future: Vec::new(),
            hint: None,
        };
        assert(g@.layout.columns =~= Seq::new(8, |i: int| Seq::<Card>::empty()));
        assert(g@.layout.foundations =~= Seq::new(4, |i: int| Seq::<Card>::empty()));
        g
    }

    pub fn can_place_on_column(&self, card: Card, col: usize) -> (r: bool)
        requires
            self.wf(),
        ensures
            r == can_place_on_column(self@.layout, card, col as int),
    {
        if col >= 8 {
            return false;
        }
        let c = &self.columns[col];
        if c.len() == 0 {
            true
        } else {
            let top = c[c.len() - 1];
            (top.rank.0 as u16) == (card.rank.0 as u16) + 1 && top.color() != card.color()
        }
    }

    pub fn can_place_on_foundation(&self, card: Card, foundation: usize) -> (r: bool)
        requires
            self.wf(),
        ensures
            r == can_place_on_foundation(self@.layout, card, foundation as int),
    {
        if foundation >= 4 {
            return false;
        }
        if card.suit.index() != foundation {
            return false;
        }
        let f = &self.foundations[foundation];
        if f.len() == 0 {
            card.rank == Rank::ace()
        } else {
            (f[f.len() - 1].rank.0 as u16) + 1 == (card.rank.0 as u16)
        }
    }

    pub fn can_place_in_cell(&self, cell: usize) -> (r: bool)
        requires
            self.wf(),
        ensures
            r == can_place_in_cell(self@.layout, cell as int),
    {
        cell < 4 && self.free_cells[cell].is_none()
    }

    /// (1 + empty free cells) * 2^(empty columns).
    pub fn max_super_move(&self) -> (r: usize)
        requires
            self.wf(),
        ensures
            r == max_super_move(self@.layout),
    {
        let mut empty_cells: usize = 0;
        let mut i: usize = 0;
        while i < 4
            invariant
                self.wf(),
                i <= 4,
                empty_cells == empty_cells_upto(self@.layout.free_cells, i as int),
                empty_cells <= i,
            decreases 4 - i,
        {
            if self.free_cells[i].is_none() {
                empty_cells = empty_cells + 1;
            }
            i = i + 1;
        }
        let mut factor: usize = 1;
        let mut j: usize = 0;
        while j < 8
            invariant
                self.wf(),
                j <= 8,
                factor == pow2(empty_columns_upto(self@.layout.columns, j as int)),
                empty_columns_upto(self@.layout.columns, j as int) <= j,
                factor <= 256,
            decreases 8 - j,
        {
            assert(self@.layout.columns[j as int] == self.columns@[j as int]@);
            if self.columns[j].len() == 0 {
                proof {
                    lemma_pow2_bound(empty_columns_upto(self@.layout.columns, j as int));
                    lemma_pow2_bound(empty_columns_upto(self@.layout.columns, j as int) + 1);
                }
                factor = factor * 2;
            }
            j = j + 1;
        }
        proof {
            lemma_pow2_bound(empty_columns_upto(self@.layout.columns, 8));
        }
        assert((1 + empty_cells) * factor <= 5 * 256) by (nonlinear_arith)
            requires
                empty_cells <= 4,
                factor <= 256,
        ;
        (1 + empty_cells) * factor
    }

    /// True if the contiguous run of `n` cards starting at `start_idx` in
    /// `from` can be picked up: for a column only the bottom-most run.
    pub fn is_accessible(&self, from: Zone, start_idx: usize, n: usize) -> (r: bool)
        requires
            self.wf(),
        ensures
            r == is_accessible(self@.layout, from, start_idx as int, n as int),
    {
        match from {
            Zone::Column(col) => {
                if col >= 8 {
                    return false;
                }
                let len = self.columns[col].len();
                start_idx <= len && n == len - start_idx
            },
            Zone::FreeCell(_) | Zone::Foundation(_) => true,
        }
    }
}

/// 2^n grows with n and stays within 256 up to n = 8.
proof fn lemma_pow2_bound(n: nat)
    ensures
        pow2(n) >= 1,
        n <= 8 ==> pow2(n) <= 256,
{
    lemma_pow2_mono(n, 8);
    reveal_with_fuel(pow2, 9);
    assert(pow2(8) == 256);
    lemma_pow2_mono(0, n);
}

/// 2^n is monotonic.
proof fn lemma_pow2_mono(n: nat, m: nat)
    ensures
        n <= m ==> pow2(n) <= pow2(m),
    decreases m,
{
    if n < m {
        lemma_pow2_mono(n, (m - 1) as nat);
    }
}


impl Game {
    /// `cards` is exactly what `zone` holds at `start_idx`.
    fn source_matches(&self, zone: Zone, cards: &[Card], start_idx: usize) -> (r: bool)
        requires
            self.wf(),
        ensures
            r == source_matches(self@.layout, zone, cards@, start_idx as int),
    {
        if cards.len() == 0 {
            return false;
        }
        match zone {
            Zone::Column(col) => {
                if col >= 8 {
                    return false;
                }
                run_matches(&self.columns[col], start_idx, cards)
            },
            Zone::FreeCell(cell) => {
                if cell >= 4 || cards.len() != 1 {
                    return false;
                }
                match self.free_cells[cell] {
                    Some(c) => c == cards[0],
                    None => false,
                }
            },
            Zone::Foundation(f) => {
                if f >= 4 || cards.len() != 1 {
                    return false;
                }
                let fd = &self.foundations[f];
                if fd.len() == 0 {
                    return false;
                }
                fd[fd.len() - 1] == cards[0]
            },
        }
    }

    /// The full legality check of a move.
    fn validate_move(&self, from: Zone, to: Zone, cards: &[Card], start_idx: usize) -> (r: bool)
        requires
            self.wf(),
        ensures
            r == validate_move(self@.layout, from, to, cards@, start_idx as int),
    {
        // 1. Cards must be accessible (bottom-most run of the source).
        if !self.is_accessible(from, start_idx, cards.len()) {
            return false;
        }
        // 2. Cards must actually match the source slice.
        if !self.source_matches(from, cards, start_idx) {
            return false;
        }
        // 3. Multi-card moves must form a valid sequence and respect the
        // super-move limit.
        if cards.len() > 1 {
            if !is_valid_sequence(cards) {
                return false;
            }
            if cards.len() > self.max_super_move() {
                return false;
            }
        }
        // 4. Destination must accept the first card.
        let first = cards[0];
        match to {
            Zone::Column(col) => self.can_place_on_column(first, col),
            Zone::Foundation(f) => cards.len() == 1 && self.can_place_on_foundation(first, f),
            Zone::FreeCell(c) => cards.len() == 1 && self.can_place_in_cell(c),
        }
    }

    /// Take `n` cards at `start_idx` out of `zone` (a validated source).
    fn remove_cards(&mut self, zone: Zone, start_idx: usize, n: usize) -> (removed: Vec<Card>)
        requires
            old(self).wf(),
            removable(old(self)@.layout, zone, start_idx as int, n as int),
        ensures
            final(self)@ == (GameView {
                layout: remove_from(old(self)@.layout, zone, start_idx as int, n as int),
                ..old(self)@
            }),
            final(self).wf(),
    {
        match zone {
            Zone::Column(col) => {
                let ghost c0 = self.columns@[col as int]@;
                let mut taken = self.columns[col].split_off(start_idx);
                let mut rest = taken.split_off(n);
                self.columns[col].append(&mut rest);
                assert(self.columns@[col as int]@ =~= c0.subrange(0, start_idx as int) + c0.subrange(
                    start_idx + n,
                    c0.len() as int,
                ));
                assert(self@.layout.columns =~= remove_from(old(self)@.layout, zone, start_idx as int, n as int).columns);
                taken
            },
            Zone::FreeCell(cell) => {
                let c = self.free_cells[cell];
                self.free_cells.set(cell, None);
                let mut taken: Vec<Card> = Vec::new();
                if let Some(card) = c {
                    taken.push(card);
                }
                assert(self@.layout.free_cells =~= remove_from(old(self)@.layout, zone, start_idx as int, n as int).free_cells);
                taken
            },
            Zone::Foundation(f) => {
                let ghost f0 = self.foundations@[f as int]@;
                let top = self.foundations[f].pop();
                assert(self.foundations@[f as int]@ =~= f0.drop_last());
                assert(self@.layout.foundations =~= remove_from(old(self)@.layout, zone, start_idx as int, n as int).foundations);
                let mut taken: Vec<Card> = Vec::new();
                if let Some(card) = top {
                    taken.push(card);
                }
                taken
            },
        }
    }

    /// Put `cards` onto `zone` (a validated destination).
    fn push_cards(&mut self, zone: Zone, cards: &[Card])
        requires
            old(self).wf(),
            zone_in_range(zone),
        ensures
            final(self)@ == (GameView { layout: push_onto(old(self)@.layout, zone, cards@), ..old(self)@ }),
            final(self).wf(),
    {
        match zone {
            Zone::Column(col) => {
                let ghost c0 = self.columns@[col as int]@;
                let mut k: usize = 0;
                while k < cards.len()
                    invariant
                        col < 8,
                        k <= cards.len(),
                        self.columns@.len() == 8,
                        self.columns@[col as int]@ == c0 + cards@.subrange(0, k as int),
                        forall|j: int| 0 <= j < 8 && j != col ==> self.columns@[j] == old(self).columns@[j],
                        self.free_cells == old(self).free_cells,
                        self.foundations == old(self).foundations,
                        self.history == old(self).history,
                        self.future == old(self).future,
                        self.drag == old(self).drag,
                        self.state == old(self).state,
                        self.moves == old(self).moves,
                        self.timer_running == old(self).timer_running,
                        self.seed == old(self).seed,
                        self.hint == old(self).hint,
                        c0 == old(self)@.layout.columns[col as int],
                    decreases cards.len() - k,
                {
                    self.columns[col].push(cards[k]);
                    k = k + 1;
                    assert(self.columns@[col as int]@ =~= c0 + cards@.subrange(0, k as int));
                }
                assert(cards@.subrange(0, cards.len() as int) =~= cards@);
                assert(self@.layout.columns =~= push_onto(old(self)@.layout, zone, cards@).columns);
            },
            Zone::FreeCell(cell) => {
                if cards.len() == 1 {
                    self.free_cells.set(cell, Some(cards[0]));
                }
                assert(self@.layout.free_cells =~= push_onto(old(self)@.layout, zone, cards@).free_cells);
            },
            Zone::Foundation(f) => {
                if cards.len() == 1 {
                    let ghost f0 = self.foundations@[f as int]@;
                    self.foundations[f].push(cards[0]);
                    assert(self.foundations@[f as int]@ =~= f0.push(cards@[0]));
                }
                assert(self@.layout.foundations =~= push_onto(old(self)@.layout, zone, cards@).foundations);
            },
        }
    }

    /// Record the current position.
    fn snapshot(&self) -> (snap: GameSnapshot)
        requires
            self.wf(),
        ensures
            snap@ == snapshot_of(self@),
            snap@.layout.wf(),
    {
        GameSnapshot {
            columns: copy_piles(&self.columns),
            free_cells: copy_cells(&self.free_cells),
            foundations: copy_piles(&self.foundations),
            moves: self.moves,
        }
    }

    /// Return to a recorded position.
    fn restore(&mut self, snap: GameSnapshot)
        ensures
            final(self)@ == (GameView { layout: snap@.layout, moves: snap@.moves, ..old(self)@ }),
    {
        self.columns = snap.columns;
        self.free_cells = snap.free_cells;
        self.foundations = snap.foundations;
        self.moves = snap.moves;
    }

    /// All foundations complete: the game is won and the timer stops.
    fn check_win(&mut self)
        requires
            old(self).wf(),
        ensures
            final(self)@ == with_win_check(old(self)@),
    {
        let mut f: usize = 0;
        let mut all = true;
        while f < 4
            invariant
                self.wf(),
                f <= 4,
                all == forall|k: int| 0 <= k < f ==> #[trigger] self@.layout.foundations[k].len() == 13,
            decreases 4 - f,
        {
            assert(self@.layout.foundations[f as int] == self.foundations@[f as int]@);
            if self.foundations[f].len() != 13 {
                all = false;
            }
            f = f + 1;
        }
        if all {
            self.state = GameState::Win;
            self.timer_running = false;
        }
    }

    /// Try to move `cards`, taken at `start_idx` in `from`, onto `to`.
    /// On success the previous position is recorded for undo and the move
    /// is counted; on refusal nothing changes.
    pub fn try_drop(&mut self, from: Zone, to: Zone, cards: &[Card], start_idx: usize) -> (ok: bool)
        requires
            old(self).wf(),
            old(self).moves < u32::MAX,
        ensures
            final(self).wf(),
            ok == drop_succeeds(old(self)@, from, to, cards@, start_idx as int),
            ok ==> final(self)@ == after_drop(old(self)@, from, to, cards@, start_idx as int),
            !ok ==> final(self)@ == old(self)@,
    {
        if cards.len() == 0 || from == to {
            return false;
        }
        if !self.validate_move(from, to, cards, start_idx) {
            return false;
        }
        let ghost v0 = self@;
        let snap = self.snapshot();
        self.history.push(snap);
        self.future.clear();
        assert(self@.history =~= v0.history.push(snapshot_of(v0)));
        assert(self@.future =~= Seq::<SnapshotView>::empty());
        self.remove_cards(from, start_idx, cards.len());
        self.push_cards(to, cards);
        self.moves = self.moves + 1;
        self.hint = None;
        if !self.timer_running {
            self.timer_running = true;
        }
        self.check_win();
        true
    }
}


impl Game {
    /// Go back one move. Returns false (and changes nothing) when there is
    /// nothing to undo.
    pub fn undo(&mut self) -> (ok: bool)
        requires
            old(self).wf(),
        ensures
            final(self).wf(),
            ok == (old(self)@.history.len() > 0),
            ok ==> final(self)@ == after_undo(old(self)@),
            !ok ==> final(self)@ == old(self)@,
    {
        if let Some(prev) = self.history.pop() {
            let ghost v0 = old(self)@;
            assert(self@.history =~= v0.history.drop_last());
            assert(prev@ == v0.history[v0.history.len() - 1]);
            let snap = self.snapshot();
            self.future.push(snap);
            self.restore(prev);
            self.hint = None;
            if self.state == GameState::Win {
                self.state = GameState::Playing;
            }
            assert(self@.history =~= v0.history.drop_last());
            assert(self@.future =~= v0.future.push(snapshot_of(v0)));
            assert(self@ =~= after_undo(v0));
            true
        } else {
            false
        }
    }

    /// Replay one undone move. Returns false (and changes nothing) when
    /// there is nothing to redo.
    pub fn redo(&mut self) -> (ok: bool)
        requires
            old(self).wf(),
        ensures
            final(self).wf(),
            ok == (old(self)@.future.len() > 0),
            ok ==> final(self)@ == after_redo(old(self)@),
            !ok ==> final(self)@ == old(self)@,
    {
        if let Some(next) = self.future.pop() {
            let ghost v0 = old(self)@;
            assert(self@.future =~= v0.future.drop_last());
            assert(next@ == v0.future[v0.future.len() - 1]);
            let snap = self.snapshot();
            self.history.push(snap);
            self.restore(next);
            self.hint = None;
            assert(self@.history =~= v0.history.push(snapshot_of(v0)));
            assert(self@.future =~= v0.future.drop_last());
            self.check_win();
            true
        } else {
            false
        }
    }
}


impl Game {
    /// Lay a 52-card deck out in the eight columns (4 x 7 then 4 x 6) and
    /// empty the free cells and foundations.
    fn deal_cards(&mut self, cards: Vec<Card>)
        requires
            old(self).wf(),
            cards@.len() == 52,
        ensures
            final(self).wf(),
            final(self)@ == (GameView { layout: dealt_layout(cards@), ..old(self)@ }),
    {
        let mut columns: Vec<Vec<Card>> = Vec::with_capacity(8);
        let mut i: usize = 0;
        let mut col: usize = 0;
        while col < 8
            invariant
                cards@.len() == 52,
                col <= 8,
                columns@.len() == col,
                i == (if col <= 4 { 7 * col } else { 28 + 6 * (col - 4) }),
                forall|k: int| 0 <= k < col ==> (#[trigger] columns@[k])@ == dealt_column(cards@, k),
            decreases 8 - col,
        {
            let count: usize = if col < 4 { 7 } else { 6 };
            let mut pile: Vec<Card> = Vec::with_capacity(count);
            let mut j: usize = 0;
            while j < count
                invariant
                    cards@.len() == 52,
                    col < 8,
                    count == (if col < 4 { 7usize } else { 6usize }),
                    i == (if col <= 4 { 7 * col } else { 28 + 6 * (col - 4) }),
                    j <= count,
                    pile@ == cards@.subrange(i as int, i + j),
                decreases count - j,
            {
                pile.push(cards[i + j]);
                j = j + 1;
                assert(pile@ =~= cards@.subrange(i as int, i + j));
            }
            assert(pile@ == dealt_column(cards@, col as int));
            columns.push(pile);
            i = i + count;
            col = col + 1;
        }
        self.columns = columns;
        self.free_cells = empty_cells();
        self.foundations = empty_piles(4);
        assert(self@.layout =~= dealt_layout(cards@));
    }

    /// Start a new game: deal the deck shuffled by `picks` (the draws of
    /// the generator seeded with `seed`), clear the history and play.
    pub fn start_game(&mut self, seed: u32, picks: &Vec<usize>)
        requires
            old(self).wf(),
            picks_valid(52, picks@),
        ensures
            final(self).wf(),
            final(self)@ == (GameView {
                state: GameState::Playing,
                layout: dealt_layout(shuffled(Seq::new(52, |i: int| canonical_card(i)), picks@)),
                drag: DragView::Idle,
                moves: 0,
                timer_running: false,
                seed,
                history: Seq::empty(),
                future: Seq::empty(),
                hint: None,
            }),
    {
        let cards = deal(picks);
        self.deal_cards(cards);
        self.seed = seed;
        self.drag = DragState::Idle;
        self.moves = 0;
        self.timer_running = false;
        self.history.clear();
        self.future.clear();
        self.hint = None;
        self.state = GameState::Playing;
        assert(self@.history =~= Seq::<SnapshotView>::empty());
        assert(self@.future =~= Seq::<SnapshotView>::empty());
    }

    /// The cards a drag starting on (`zone`, `idx`) picks up: the free
    /// cell's card, the top of a foundation, or the longest valid run of a
    /// column starting at `idx`.
    pub fn drag_cards(&self, zone: Zone, idx: usize) -> (cards: Vec<Card>)
        requires
            self.wf(),
            zone_in_range(zone),
        ensures
            cards@ == drag_run(self@.layout, zone, idx as int),
    {
        match zone {
            Zone::FreeCell(i) => {
                let mut v: Vec<Card> = Vec::new();
                if let Some(c) = self.free_cells[i] {
                    v.push(c);
                }
                assert(v@ =~= drag_run(self@.layout, zone, idx as int));
                v
            },
            Zone::Foundation(i) => {
                let mut v: Vec<Card> = Vec::new();
                let f = &self.foundations[i];
                if f.len() > 0 {
                    v.push(f[f.len() - 1]);
                }
                assert(v@ =~= drag_run(self@.layout, zone, idx as int));
                v
            },
            Zone::Column(col) => {
                let c = &self.columns[col];
                let len = c.len();
                if idx >= len {
                    return Vec::new();
                }
                let mut seq: Vec<Card> = Vec::new();
                seq.push(c[idx]);
                let mut k: usize = idx + 1;
                while k < len
                    invariant
                        len == c@.len(),
                        idx < k <= len,
                        seq@.len() == k - idx,
                        seq@ == c@.subrange(idx as int, k as int),
                        forall|m: int| idx <= m < k - 1 ==> #[trigger] stacks_on(c@[m + 1], c@[m]),
                    ensures
                        idx < k <= len,
                        seq@ == c@.subrange(idx as int, k as int),
                        forall|m: int| idx <= m < k - 1 ==> #[trigger] stacks_on(c@[m + 1], c@[m]),
                        k == len || !stacks_on(c@[k as int], c@[k - 1]),
                    decreases len - k,
                {
                    let top = seq[seq.len() - 1];
                    let below = c[k];
                    if (below.rank.0 as u16) + 1 == (top.rank.0 as u16) && below.color() != top.color() {
                        seq.push(below);
                        k = k + 1;
                        assert(seq@ =~= c@.subrange(idx as int, k as int));
                    } else {
                        assert(!stacks_on(c@[k as int], c@[k - 1]));
                        break;
                    }
                }
                proof {
                    lemma_run_from(c@, idx as int, k as int);
                }
                assert(c@ == self@.layout.columns[col as int]);
                seq
            },
        }
    }

    /// The position of `card` in `zone`: its first position in a column,
    /// 0 for free cells and foundations (and for a card not found).
    fn index_of_card(&self, zone: Zone, card: Card) -> (idx: usize)
        requires
            self.wf(),
            zone_in_range(zone),
        ensures
            idx == index_in_zone(self@.layout, zone, card),
    {
        match zone {
            Zone::FreeCell(_) | Zone::Foundation(_) => 0,
            Zone::Column(col) => {
                let c = &self.columns[col];
                let mut k: usize = 0;
                while k < c.len()
                    invariant
                        self.wf(),
                        col < 8,
                        zone == Zone::Column(col),
                        c@ == self@.layout.columns[col as int],
                        k <= c@.len(),
                        forall|m: int| 0 <= m < k ==> c@[m] != card,
                    decreases c@.len() - k,
                {
                    if c[k] == card {
                        assert(c@ == self@.layout.columns[col as int]);
                        proof {
                            lemma_first_index_at(c@, card, k as int);
                        }
                        assert(first_index(c@, card) == k);
                        assert(index_in_zone(self@.layout, zone, card) == first_index(c@, card));
                        return k;
                    }
                    k = k + 1;
                }
                proof {
                    lemma_first_index_absent(c@, card);
                }
                assert(c@ == self@.layout.columns[col as int]);
                0
            },
        }
    }
}

/// A run that stops at `end` (the end of the pile or a break in the
/// sequence) is the longest run from `idx`.
proof fn lemma_run_from(c: Seq<Card>, idx: int, end: int)
    requires
        0 <= idx < end <= c.len(),
        forall|m: int| idx <= m < end - 1 ==> #[trigger] stacks_on(c[m + 1], c[m]),
        end == c.len() || !stacks_on(c[end], c[end - 1]),
    ensures
        run_from(c, idx) == c.subrange(idx, end),
    decreases end - idx,
{
    if idx + 1 < end {
        lemma_run_from(c, idx + 1, end);
        assert(stacks_on(c[idx + 1], c[idx]));
        assert(run_from(c, idx) =~= seq![c[idx]] + c.subrange(idx + 1, end));
        assert(c.subrange(idx, end) =~= seq![c[idx]] + c.subrange(idx + 1, end));
    } else {
        assert(run_from(c, idx) =~= c.subrange(idx, end));
    }
}

/// The first occurrence of `card` is at `k` when `s[k]` is `card` and no earlier item is.
proof fn lemma_first_index_at(s: Seq<Card>, card: Card, k: int)
    requires
        0 <= k < s.len(),
        s[k] == card,
        forall|m: int| 0 <= m < k ==> s[m] != card,
    ensures
        first_index(s, card) == k,
    decreases k,
{
    if k > 0 {
        assert(s.drop_first()[k - 1] == card);
        assert(s.drop_first().contains(card));
        lemma_first_index_at(s.drop_first(), card, k - 1);
    }
}

/// Without any occurrence, `first_index` falls back to 0.
proof fn lemma_first_index_absent(s: Seq<Card>, card: Card)
    requires
        forall|m: int| 0 <= m < s.len() ==> s[m] != card,
    ensures
        first_index(s, card) == 0,
{
    if s.len() > 0 {
        assert(!s.drop_first().contains(card)) by {
            if s.drop_first().contains(card) {
                let m = choose|m: int| 0 <= m < s.drop_first().len() && s.drop_first()[m] == card;
                assert(s[m + 1] == card);
            }
        }
    }
}


/// The column index of a zone, for zones that are columns.
pub open spec fn hint_source_len(l: Layout, hint: Hint) -> int {
    match hint.from {
        Zone::Column(c) => l.columns[c as int].len() - 1,
        _ => 0,
    }
}

/// Every hint the search can produce describes a move that `try_drop`
/// accepts: the single bottom card of its column, onto its destination.
pub proof fn lemma_hint_is_legal(v: GameView, hint: Hint)
    requires
        v.wf(),
        is_first_hint(v.layout, hint),
    ensures
        drop_succeeds(v, hint.from, hint.to, seq![hint.card], hint_source_len(v.layout, hint)),
{
    let l = v.layout;
    if let Zone::Column(c) = hint.from {
        let col = l.columns[c as int];
        let start = col.len() - 1;
        assert(col.subrange(start, start + 1) =~= seq![hint.card]);
        assert(source_matches(l, hint.from, seq![hint.card], start));
        assert(is_accessible(l, hint.from, start, 1));
    }
}

impl Game {
    /// Find one useful legal move without changing anything: a move to a
    /// foundation first, then a move to another column, then a move to
    /// an empty free cell. `None` outside of play.
    pub fn find_hint(&self) -> (h: Option<Hint>)
        requires
            self.wf(),
        ensures
            self@.state != GameState::Playing ==> h is None,
            self@.state == GameState::Playing ==> match h {
                Some(hint) => is_first_hint(self@.layout, hint),
                None => no_hint(self@.layout),
            },
            h matches Some(hint) ==> drop_succeeds(
                self@,
                hint.from,
                hint.to,
                seq![hint.card],
                hint_source_len(self@.layout, hint),
            ),
    {
        if self.state != GameState::Playing {
            return None;
        }
        let ghost l = self@.layout;
        // 1. Prefer a move to a foundation.
        let mut from: usize = 0;
        while from < 8
            invariant
                self.wf(),
                l == self@.layout,
                self@.state == GameState::Playing,
                from <= 8,
                forall|k: int| 0 <= k < from ==> !#[trigger] foundation_move_from(l, k),
            decreases 8 - from,
        {
            let c = &self.columns[from];
            assert(c@ == l.columns[from as int]);
            if c.len() > 0 {
                let card = c[c.len() - 1];
                let foundation = card.suit.index();
                if self.can_place_on_foundation(card, foundation) {
                    let hint = Hint { from: Zone::Column(from), to: Zone::Foundation(foundation), card };
                    proof {
                        lemma_hint_is_legal(self@, hint);
                    }
                    return Some(hint);
                }
            }
            from = from + 1;
        }
        // 2. Then a move to another column.
        let mut from: usize = 0;
        while from < 8
            invariant
                self.wf(),
                l == self@.layout,
                self@.state == GameState::Playing,
                from <= 8,
                forall|k: int| 0 <= k < 8 ==> !#[trigger] foundation_move_from(l, k),
                forall|a: int, b: int| 0 <= a < from && 0 <= b < 8 ==> !#[trigger] column_move(l, a, b),
            decreases 8 - from,
        {
            let c = &self.columns[from];
            assert(c@ == l.columns[from as int]);
            if c.len() > 0 {
                let card = c[c.len() - 1];
                let mut to: usize = 0;
                while to < 8
                    invariant
                        self.wf(),
                        l == self@.layout,
                        self@.state == GameState::Playing,
                        from < 8,
                        to <= 8,
                        l.columns[from as int].len() > 0,
                        card == l.columns[from as int].last(),
                        forall|k: int| 0 <= k < 8 ==> !#[trigger] foundation_move_from(l, k),
                        forall|a: int, b: int|
                            0 <= a < from && 0 <= b < 8 ==> !#[trigger] column_move(l, a, b),
                        forall|b: int| 0 <= b < to ==> !#[trigger] column_move(l, from as int, b),
                    decreases 8 - to,
                {
                    if from != to && self.can_place_on_column(card, to) {
                        let hint = Hint { from: Zone::Column(from), to: Zone::Column(to), card };
                        assert(column_move(l, from as int, to as int));
                        assert(is_first_hint(l, hint));
                        proof {
                            lemma_hint_is_legal(self@, hint);
                        }
                        return Some(hint);
                    }
                    to = to + 1;
                }
            }
            from = from + 1;
        }
        // 3. Finally, suggest an empty free cell.
        let mut from: usize = 0;
        while from < 8
            invariant
                self.wf(),
                l == self@.layout,
                self@.state == GameState::Playing,
                from <= 8,
                forall|k: int| 0 <= k < 8 ==> !#[trigger] foundation_move_from(l, k),
                forall|a: int, b: int| 0 <= a < 8 && 0 <= b < 8 ==> !#[trigger] column_move(l, a, b),
                forall|k: int|
                    0 <= k < from ==> (#[trigger] l.columns[k]).len() == 0 || (forall|m: int|
                        0 <= m < 4 ==> !#[trigger] can_place_in_cell(l, m)),
            decreases 8 - from,
        {
            let c = &self.columns[from];
            assert(c@ == l.columns[from as int]);
            if c.len() > 0 {
                let card = c[c.len() - 1];
                let mut cell: usize = 0;
                while cell < 4
                    invariant
                        self.wf(),
                        l == self@.layout,
                        self@.state == GameState::Playing,
                        from < 8,
                        cell <= 4,
                        l.columns[from as int].len() > 0,
                        card == l.columns[from as int].last(),
                        forall|k: int| 0 <= k < 8 ==> !#[trigger] foundation_move_from(l, k),
                        forall|a: int, b: int|
                            0 <= a < 8 && 0 <= b < 8 ==> !#[trigger] column_move(l, a, b),
                        forall|k: int|
                            0 <= k < from ==> (#[trigger] l.columns[k]).len() == 0 || (forall|m: int|
                                0 <= m < 4 ==> !#[trigger] can_place_in_cell(l, m)),
                        forall|m: int| 0 <= m < cell ==> !#[trigger] can_place_in_cell(l, m),
                    decreases 4 - cell,
                {
                    if self.can_place_in_cell(cell) {
                        let hint = Hint { from: Zone::Column(from), to: Zone::FreeCell(cell), card };
                        assert forall|k: int| 0 <= k < from implies (#[trigger] l.columns[k]).len()
                            == 0 by {
                            if l.columns[k].len() != 0 {
                                assert(!can_place_in_cell(l, cell as int));
                            }
                        }
                        assert(is_first_hint(l, hint));
                        proof {
                            lemma_hint_is_legal(self@, hint);
                        }
                        return Some(hint);
                    }
                    cell = cell + 1;
                }
            }
            from = from + 1;
        }
        None
    }
}


/// The session after a press on (`zone`, `idx`) as found by hit testing:
/// outside play, during another drag, on nothing, on a foundation, on an
/// empty spot or on a card that is not at the bottom of its run nothing
/// happens; otherwise the press on the run's first card is recorded.
pub open spec fn after_press(v: GameView, hit: Option<(Zone, usize)>) -> GameView {
    match hit {
        Some((zone, idx)) => {
            let cards = drag_run(v.layout, zone, idx as int);
            if v.state != GameState::Playing || !(v.drag is Idle) || zone is Foundation
                || cards.len() == 0 || !is_accessible(v.layout, zone, idx as int, cards.len() as int) {
                v
            } else {
                GameView { drag: DragView::Pressing { origin: zone, card: cards[0] }, ..v }
            }
        },
        None => v,
    }
}

/// The session once a press has moved far enough to become a drag.
pub open spec fn after_drag_motion(v: GameView) -> GameView {
    match v.drag {
        DragView::Pressing { origin, card } => {
            let idx = index_in_zone(v.layout, origin, card);
            let cards = drag_run(v.layout, origin, idx);
            if cards.len() == 0 {
                GameView { drag: DragView::Idle, ..v }
            } else {
                GameView {
                    drag: DragView::Dragging { origin, start_index: idx as usize, cards },
                    ..v
                }
            }
        },
        _ => v,
    }
}

impl Game {
    /// Whether the stack being dragged could be dropped on `target`.
    pub fn can_drop_at(&self, target: Zone) -> (r: bool)
        requires
            self.wf(),
        ensures
            r == match self@.drag {
                DragView::Dragging { origin, start_index, cards } => validate_move(
                    self@.layout,
                    origin,
                    target,
                    cards,
                    start_index as int,
                ),
                _ => false,
            },
    {
        match &self.drag {
            DragState::Dragging { origin, start_index, cards } => self.validate_move(
                *origin,
                target,
                cards.as_slice(),
                *start_index,
            ),
            _ => false,
        }
    }

    /// A press at the card found by hit testing (`None` when the pointer is
    /// over no card). Only the bottom-most run of a column, or the card of
    /// a free cell, can be picked up.
    pub fn start_drag(&mut self, hit: Option<(Zone, usize)>)
        requires
            old(self).wf(),
            hit matches Some((zone, _)) ==> zone_in_range(zone),
        ensures
            final(self).wf(),
            final(self)@ == after_press(old(self)@, hit),
    {
        if self.state != GameState::Playing {
            return;
        }
        if !self.drag.is_idle() {
            return;
        }
        let (zone, idx) = match hit {
            Some(h) => h,
            None => return,
        };
        if let Zone::Foundation(_) = zone {
            return;
        }
        let cards = self.drag_cards(zone, idx);
        if cards.len() == 0 {
            return;
        }
        // Only the bottom-most run of a column is draggable.
        if !self.is_accessible(zone, idx, cards.len()) {
            return;
        }
        self.drag = DragState::Pressing { origin: zone, card: cards[0] };
    }

    /// The press has moved past the drag threshold: pick up the run that
    /// starts at the pressed card.
    pub fn begin_dragging(&mut self)
        requires
            old(self).wf(),
        ensures
            final(self).wf(),
            final(self)@ == after_drag_motion(old(self)@),
    {
        if let DragState::Pressing { origin, card } = self.drag {
            let idx = self.index_of_card(origin, card);
            let cards = self.drag_cards(origin, idx);
            if cards.len() == 0 {
                self.drag = DragState::Idle;
                return;
            }
            self.drag = DragState::Dragging { origin, start_index: idx, cards };
        }
    }

    /// Release the dragged stack over `target` (the zone under the
    /// pointer, if any): the drag ends and the drop is attempted.
    pub fn end_drag(&mut self, target: Option<Zone>)
        requires
            old(self).wf(),
            old(self).moves < u32::MAX,
        ensures
            final(self).wf(),
            ({
                let idle = GameView { drag: DragView::Idle, ..old(self)@ };
                match (old(self)@.drag, target) {
                    (DragView::Dragging { origin, start_index, cards }, Some(t)) =>
                        if drop_succeeds(idle, origin, t, cards, start_index as int) {
                            final(self)@ == after_drop(idle, origin, t, cards, start_index as int)
                        } else {
                            final(self)@ == idle
                        },
                    _ => final(self)@ == idle,
                }
            }),
    {
        let mut dragging = DragState::Idle;
        std::mem::swap(&mut dragging, &mut self.drag);
        if let DragState::Dragging { origin, start_index, cards } = dragging {
            if let Some(t) = target {
                self.try_drop(origin, t, cards.as_slice(), start_index);
            }
        }
    }

    /// Abandon the current drag.
    pub fn cancel_drag(&mut self)
        requires
            old(self).wf(),
        ensures
            final(self).wf(),
            final(self)@ == (GameView { drag: DragView::Idle, ..old(self)@ }),
    {
        self.drag = DragState::Idle;
    }

    /// The card at `card_index` of column `col` is part of the stack being
    /// dragged (and so is drawn with the pointer, not in its column).
    pub fn is_being_dragged(&self, col: usize, card_index: usize) -> (r: bool)
        ensures
            r == match self.drag@ {
                DragView::Dragging { origin, start_index, cards } => origin == Zone::Column(col) && start_index
                    <= card_index < start_index + cards.len(),
                _ => false,
            },
    {
        match &self.drag {
            DragState::Dragging { origin, start_index, cards } => {
                match origin {
                    Zone::Column(c) => *c == col && card_index >= *start_index && card_index - *start_index
                        < cards.len(),
                    _ => false,
                }
            },
            _ => false,
        }
    }
}


// ============================================================================
// Laws
// ============================================================================

/// A press picks up a card anywhere but on a foundation: during play with
/// no drag under way, a press on a free cell holding a card starts pressing
/// that card, and dragging then takes exactly that card; a press on the
/// bottom card of a column starts pressing it; a press on a foundation is
/// ignored.
pub proof fn lemma_press_zones(v: GameView, i: usize, col: usize, f: usize, idx: usize)
    requires
        v.wf(),
        v.state == GameState::Playing,
        v.drag is Idle,
        i < 4,
        col < 8,
        f < 4,
    ensures
        v.layout.free_cells[i as int] matches Some(c) ==> {
            &&& after_press(v, Some((Zone::FreeCell(i), idx))).drag == (DragView::Pressing {
                origin: Zone::FreeCell(i),
                card: c,
            })
            &&& after_drag_motion(after_press(v, Some((Zone::FreeCell(i), idx)))).drag == (DragView::Dragging {
                origin: Zone::FreeCell(i),
                start_index: 0,
                cards: seq![c],
            })
        },
        v.layout.columns[col as int].len() > 0 && idx + 1 == v.layout.columns[col as int].len() ==> after_press(
            v,
            Some((Zone::Column(col), idx)),
        ).drag == (DragView::Pressing { origin: Zone::Column(col), card: v.layout.columns[col as int][idx as int] }),
        after_press(v, Some((Zone::Foundation(f), idx))) == v,
{
    let c = v.layout.columns[col as int];
    if c.len() > 0 && idx + 1 == c.len() {
        assert(run_from(c, idx as int) == seq![c[idx as int]]);
    }
    if let Some(card) = v.layout.free_cells[i as int] {
        let p = after_press(v, Some((Zone::FreeCell(i), idx)));
        assert(drag_run(p.layout, Zone::FreeCell(i), 0) == seq![card]);
    }
}

/// Undoing an accepted drop puts back the cards, the move count and the
/// undo history as they were before the drop.
pub proof fn lemma_undo_reverts_drop(v: GameView, from: Zone, to: Zone, cards: Seq<Card>, start: int)
    requires
        v.wf(),
        drop_succeeds(v, from, to, cards, start),
    ensures
        after_drop(v, from, to, cards, start).history.len() > 0,
        after_undo(after_drop(v, from, to, cards, start)).layout == v.layout,
        after_undo(after_drop(v, from, to, cards, start)).moves == v.moves,
        after_undo(after_drop(v, from, to, cards, start)).history == v.history,
{
    let w = after_drop(v, from, to, cards, start);
    assert(w.history == v.history.push(snapshot_of(v)));
    assert(w.history.drop_last() =~= v.history);
}

/// Undo never leaves a won session behind: the session it gives is never
/// in `Win`; a won session goes back to `Playing`, any other keeps its phase.
pub proof fn lemma_undo_leaves_no_win(v: GameView)
    requires
        v.wf(),
        v.history.len() > 0,
    ensures
        after_undo(v).state != GameState::Win,
        v.state == GameState::Win ==> after_undo(v).state == GameState::Playing,
        v.state != GameState::Win ==> after_undo(v).state == v.state,
        after_undo(v).layout == v.history.last().layout,
        after_undo(v).moves == v.history.last().moves,
{
}

/// Taking back the move that won a game resumes play: the session is in
/// `Playing` again, on the position before the winning move.
pub proof fn lemma_undo_winning_move(v: GameView, from: Zone, to: Zone, cards: Seq<Card>, start: int)
    requires
        v.wf(),
        v.state == GameState::Playing,
        drop_succeeds(v, from, to, cards, start),
        is_won(apply_move(v.layout, from, to, cards, start)),
    ensures
        after_drop(v, from, to, cards, start).state == GameState::Win,
        after_undo(after_drop(v, from, to, cards, start)).state == GameState::Playing,
        after_undo(after_drop(v, from, to, cards, start)).layout == v.layout,
        after_undo(after_drop(v, from, to, cards, start)).moves == v.moves,
{
    lemma_undo_reverts_drop(v, from, to, cards, start);
}

/// Redoing right after an undo brings back the position, the move count
/// and both the undo and the redo lists.
pub proof fn lemma_redo_replays_undo(v: GameView)
    requires
        v.wf(),
        v.history.len() > 0,
    ensures
        after_undo(v).future.len() > 0,
        after_redo(after_undo(v)).layout == v.layout,
        after_redo(after_undo(v)).moves == v.moves,
        after_redo(after_undo(v)).history == v.history,
        after_redo(after_undo(v)).future == v.future,
{
    let u = after_undo(v);
    assert(u.future.drop_last() =~= v.future);
    assert(u.history.push(snapshot_of(u)) =~= v.history);
}

/// Undoing right after a redo brings back the position, the move count
/// and both lists.
pub proof fn lemma_undo_replays_redo(v: GameView)
    requires
        v.wf(),
        v.future.len() > 0,
    ensures
        after_redo(v).history.len() > 0,
        after_undo(after_redo(v)).layout == v.layout,
        after_undo(after_redo(v)).moves == v.moves,
        after_undo(after_redo(v)).history == v.history,
        after_undo(after_redo(v)).future == v.future,
{
    let r = after_redo(v);
    assert(r.history.drop_last() =~= v.history);
    assert(r.future.push(snapshot_of(r)) =~= v.future);
}

// ============================================================================
// Card conservation
// ============================================================================

/// The cards of the first `k` piles.
pub open spec fn piles_cards(piles: Seq<Seq<Card>>, k: int) -> Multiset<Card>
    decreases k,
{
    if k <= 0 {
        Multiset::empty()
    } else {
        piles_cards(piles, k - 1).add(piles[k - 1].to_multiset())
    }
}

/// The card a free cell holds, if any.
pub open spec fn cell_cards(cell: Option<Card>) -> Multiset<Card> {
    match cell {
        Some(c) => Multiset::singleton(c),
        None => Multiset::empty(),
    }
}

/// The cards of the first `k` free cells.
pub open spec fn cells_cards(cells: Seq<Option<Card>>, k: int) -> Multiset<Card>
    decreases k,
{
    if k <= 0 {
        Multiset::empty()
    } else {
        cells_cards(cells, k - 1).add(cell_cards(cells[k - 1]))
    }
}

/// Every card on the table: columns, free cells and foundations.
pub open spec fn table_cards(l: Layout) -> Multiset<Card> {
    piles_cards(l.columns, 8).add(cells_cards(l.free_cells, 4)).add(piles_cards(l.foundations, 4))
}

proof fn lemma_piles_update(piles: Seq<Seq<Card>>, i: int, s: Seq<Card>, k: int)
    requires
        0 <= i < piles.len(),
        k <= piles.len(),
    ensures
        piles_cards(piles.update(i, s), k).add(if i < k { piles[i].to_multiset() } else { Multiset::empty() })
            =~= piles_cards(piles, k).add(if i < k { s.to_multiset() } else { Multiset::empty() }),
    decreases k,
{
    broadcast use vstd::multiset::group_multiset_axioms;

    let u = piles.update(i, s);
    let lhs = piles_cards(u, k).add(if i < k { piles[i].to_multiset() } else { Multiset::empty() });
    let rhs = piles_cards(piles, k).add(if i < k { s.to_multiset() } else { Multiset::empty() });
    if k > 0 {
        lemma_piles_update(piles, i, s, k - 1);
        let il = piles_cards(u, k - 1).add(if i < k - 1 { piles[i].to_multiset() } else { Multiset::empty() });
        let ir = piles_cards(piles, k - 1).add(if i < k - 1 { s.to_multiset() } else { Multiset::empty() });
        assert(u[k - 1] == (if k - 1 == i { s } else { piles[k - 1] }));
        assert forall|x: Card| #[trigger] lhs.count(x) == rhs.count(x) by {
            assert(il.count(x) == ir.count(x));
        }
    } else {
        assert forall|x: Card| #[trigger] lhs.count(x) == rhs.count(x) by {}
    }
}

proof fn lemma_cells_update(cells: Seq<Option<Card>>, i: int, c: Option<Card>, k: int)
    requires
        0 <= i < cells.len(),
        k <= cells.len(),
    ensures
        cells_cards(cells.update(i, c), k).add(if i < k { cell_cards(cells[i]) } else { Multiset::empty() })
            =~= cells_cards(cells, k).add(if i < k { cell_cards(c) } else { Multiset::empty() }),
    decreases k,
{
    broadcast use vstd::multiset::group_multiset_axioms;

    let u = cells.update(i, c);
    let lhs = cells_cards(u, k).add(if i < k { cell_cards(cells[i]) } else { Multiset::empty() });
    let rhs = cells_cards(cells, k).add(if i < k { cell_cards(c) } else { Multiset::empty() });
    if k > 0 {
        lemma_cells_update(cells, i, c, k - 1);
        let il = cells_cards(u, k - 1).add(if i < k - 1 { cell_cards(cells[i]) } else { Multiset::empty() });
        let ir = cells_cards(cells, k - 1).add(if i < k - 1 { cell_cards(c) } else { Multiset::empty() });
        assert(u[k - 1] == (if k - 1 == i { c } else { cells[k - 1] }));
        assert forall|x: Card| #[trigger] lhs.count(x) == rhs.count(x) by {
            assert(il.count(x) == ir.count(x));
        }
    } else {
        assert forall|x: Card| #[trigger] lhs.count(x) == rhs.count(x) by {}
    }
}

/// Taking legal cards out of a zone removes exactly those cards from the table.
proof fn lemma_remove_keeps_rest(l: Layout, zone: Zone, cards: Seq<Card>, start: int)
    requires
        l.wf(),
        0 <= start,
        source_matches(l, zone, cards, start),
        is_accessible(l, zone, start, cards.len() as int),
    ensures
        table_cards(remove_from(l, zone, start, cards.len() as int)).add(cards.to_multiset())
            =~= table_cards(l),
{
    broadcast use vstd::seq_lib::lemma_multiset_commutative;
    broadcast use vstd::seq_lib::group_to_multiset_ensures;
    broadcast use vstd::multiset::group_multiset_axioms;

    let r = remove_from(l, zone, start, cards.len() as int);
    match zone {
        Zone::Column(col) => {
            let c = l.columns[col as int];
            let kept = c.subrange(0, start);
            assert(c =~= kept + cards);
            assert(c.subrange(start + cards.len(), c.len() as int) =~= Seq::<Card>::empty());
            assert(kept + c.subrange(start + cards.len(), c.len() as int) =~= kept);
            let u = l.columns.update(col as int, kept);
            assert(r.columns =~= u);
            lemma_piles_update(l.columns, col as int, kept, 8);
            assert(c.to_multiset() =~= kept.to_multiset().add(cards.to_multiset()));
            assert forall|x: Card| #[trigger] table_cards(r).add(cards.to_multiset()).count(x)
                == table_cards(l).count(x) by {
                assert(piles_cards(u, 8).add(c.to_multiset()).count(x) == piles_cards(l.columns, 8).add(
                    kept.to_multiset(),
                ).count(x));
            }
        },
        Zone::FreeCell(cell) => {
            let u = l.free_cells.update(cell as int, None);
            lemma_cells_update(l.free_cells, cell as int, None, 4);
            assert(cards.to_multiset() =~= Multiset::singleton(cards[0])) by {
                assert(cards =~= Seq::<Card>::empty().push(cards[0]));
            }
            assert forall|x: Card| #[trigger] table_cards(r).add(cards.to_multiset()).count(x)
                == table_cards(l).count(x) by {
                assert(cells_cards(u, 4).add(cell_cards(l.free_cells[cell as int])).count(x)
                    == cells_cards(l.free_cells, 4).add(cell_cards(None)).count(x));
            }
        },
        Zone::Foundation(f) => {
            let fd = l.foundations[f as int];
            assert(fd =~= fd.drop_last().push(cards[0]));
            assert(cards =~= Seq::<Card>::empty().push(cards[0]));
            let u = l.foundations.update(f as int, fd.drop_last());
            lemma_piles_update(l.foundations, f as int, fd.drop_last(), 4);
            assert(fd.to_multiset() =~= fd.drop_last().to_multiset().insert(cards[0]));
            assert(cards.to_multiset() =~= Multiset::<Card>::empty().insert(cards[0]));
            assert forall|x: Card| #[trigger] table_cards(r).add(cards.to_multiset()).count(x)
                == table_cards(l).count(x) by {
                assert(piles_cards(u, 4).add(fd.to_multiset()).count(x) == piles_cards(l.foundations, 4).add(
                    fd.drop_last().to_multiset(),
                ).count(x));
            }
        },
    }
}

/// Putting cards on a zone that accepts them adds exactly those cards to the table.
proof fn lemma_push_adds(l: Layout, zone: Zone, cards: Seq<Card>)
    requires
        l.wf(),
        zone_in_range(zone),
        cards.len() > 0,
        !(zone is Column) ==> cards.len() == 1,
        zone matches Zone::FreeCell(cell) ==> l.free_cells[cell as int] is None,
    ensures
        table_cards(push_onto(l, zone, cards)) =~= table_cards(l).add(cards.to_multiset()),
{
    broadcast use vstd::seq_lib::lemma_multiset_commutative;
    broadcast use vstd::seq_lib::group_to_multiset_ensures;
    broadcast use vstd::multiset::group_multiset_axioms;

    match zone {
        Zone::Column(col) => {
            let c = l.columns[col as int];
            let u = l.columns.update(col as int, c + cards);
            lemma_piles_update(l.columns, col as int, c + cards, 8);
            assert((c + cards).to_multiset() =~= c.to_multiset().add(cards.to_multiset()));
            assert forall|x: Card| #[trigger] table_cards(push_onto(l, zone, cards)).count(x) == table_cards(
                l,
            ).add(cards.to_multiset()).count(x) by {
                assert(piles_cards(u, 8).add(c.to_multiset()).count(x) == piles_cards(l.columns, 8).add(
                    (c + cards).to_multiset(),
                ).count(x));
            }
        },
        Zone::FreeCell(cell) => {
            let u = l.free_cells.update(cell as int, Some(cards[0]));
            lemma_cells_update(l.free_cells, cell as int, Some(cards[0]), 4);
            assert(cards.to_multiset() =~= Multiset::singleton(cards[0])) by {
                assert(cards =~= Seq::<Card>::empty().push(cards[0]));
            }
            assert forall|x: Card| #[trigger] table_cards(push_onto(l, zone, cards)).count(x) == table_cards(
                l,
            ).add(cards.to_multiset()).count(x) by {
                assert(cells_cards(u, 4).add(cell_cards(l.free_cells[cell as int])).count(x)
                    == cells_cards(l.free_cells, 4).add(cell_cards(Some(cards[0]))).count(x));
            }
        },
        Zone::Foundation(f) => {
            let fd = l.foundations[f as int];
            let u = l.foundations.update(f as int, fd.push(cards[0]));
            lemma_piles_update(l.foundations, f as int, fd.push(cards[0]), 4);
            assert(cards =~= Seq::<Card>::empty().push(cards[0]));
            assert(fd.push(cards[0]).to_multiset() =~= fd.to_multiset().insert(cards[0]));
            assert(cards.to_multiset() =~= Multiset::<Card>::empty().insert(cards[0]));
            assert forall|x: Card| #[trigger] table_cards(push_onto(l, zone, cards)).count(x) == table_cards(
                l,
            ).add(cards.to_multiset()).count(x) by {
                assert(piles_cards(u, 4).add(fd.to_multiset()).count(x) == piles_cards(l.foundations, 4).add(
                    fd.push(cards[0]).to_multiset(),
                ).count(x));
            }
        },
    }
}

/// A legal move neither loses nor creates a card: the table holds the
/// same cards, with the same multiplicities, before and after.
pub proof fn lemma_move_keeps_cards(l: Layout, from: Zone, to: Zone, cards: Seq<Card>, start: int)
    requires
        l.wf(),
        0 <= start,
        from != to,
        zone_in_range(to),
        validate_move(l, from, to, cards, start),
    ensures
        table_cards(apply_move(l, from, to, cards, start)) =~= table_cards(l),
{
    let r = remove_from(l, from, start, cards.len() as int);
    lemma_remove_keeps_rest(l, from, cards, start);
    if let Zone::FreeCell(cell) = to {
        assert(r.free_cells[cell as int] is None);
    }
    lemma_push_adds(r, to, cards);
}

/// Where the first `k` dealt columns end in the deck.
pub open spec fn dealt_end(k: int) -> int {
    if k <= 4 { 7 * k } else { 28 + 6 * (k - 4) }
}

proof fn lemma_dealt_prefix(deck: Seq<Card>, k: int)
    requires
        deck.len() == 52,
        0 <= k <= 8,
    ensures
        piles_cards(dealt_layout(deck).columns, k) =~= deck.subrange(0, dealt_end(k)).to_multiset(),
    decreases k,
{
    broadcast use vstd::seq_lib::lemma_multiset_commutative;
    broadcast use vstd::multiset::group_multiset_axioms;

    broadcast use vstd::seq_lib::group_to_multiset_ensures;
    broadcast use vstd::multiset::lemma_multiset_empty_len;

    if k == 0 {
        assert(deck.subrange(0, 0) =~= Seq::<Card>::empty());
        assert(deck.subrange(0, 0).to_multiset().len() == 0);
    } else {
        lemma_dealt_prefix(deck, k - 1);
        let a = deck.subrange(0, dealt_end(k - 1));
        let b = dealt_column(deck, k - 1);
        assert(deck.subrange(0, dealt_end(k)) =~= a + b);
        assert(dealt_layout(deck).columns[k - 1] == b);
        assert((a + b).to_multiset() =~= a.to_multiset().add(b.to_multiset()));
        assert forall|x: Card| #[trigger] piles_cards(dealt_layout(deck).columns, k).count(x)
            == deck.subrange(0, dealt_end(k)).to_multiset().count(x) by {
            assert(piles_cards(dealt_layout(deck).columns, k - 1).count(x) == a.to_multiset().count(x));
        }
    }
}

/// Dealing puts the whole deck on the table: the columns hold exactly the
/// deck's cards, and the free cells and foundations are empty.
pub proof fn lemma_deal_keeps_cards(deck: Seq<Card>)
    requires
        deck.len() == 52,
    ensures
        table_cards(dealt_layout(deck)) =~= deck.to_multiset(),
{
    broadcast use vstd::multiset::group_multiset_axioms;

    lemma_dealt_prefix(deck, 8);
    assert(deck.subrange(0, 52) =~= deck);
    let l = dealt_layout(deck);
    assert(cells_cards(l.free_cells, 4) =~= Multiset::empty()) by {
        reveal_with_fuel(cells_cards, 5);
    }
    assert(piles_cards(l.foundations, 4) =~= Multiset::empty()) by {
        broadcast use vstd::seq_lib::group_to_multiset_ensures;
        broadcast use vstd::multiset::lemma_multiset_empty_len;

        reveal_with_fuel(piles_cards, 5);
        assert(l.foundations[0].to_multiset().len() == 0);
        assert(l.foundations[1].to_multiset().len() == 0);
        assert(l.foundations[2].to_multiset().len() == 0);
        assert(l.foundations[3].to_multiset().len() == 0);
    }
}

} // verus!
