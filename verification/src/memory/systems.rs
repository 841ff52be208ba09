//! Game logic: deck creation, reveal, match, no-match, win detection.
use vstd::prelude::*;

use super::components::{Card, CardState, Symbol};
use super::difficulties::{DifficultyData, fallback};
use crate::game_state::GameState;
use crate::shuffle::{fisher_yates, lemma_shuffled_is_permutation, picks_valid, shuffled};

verus! {

broadcast use vstd::seq_lib::group_to_multiset_ensures;

// ============================================================================
// Deck
// ============================================================================

/// The symbols used by the deck, in the order they are handed out.
pub open spec fn symbol_table() -> Seq<char> {
    seq![
        '$', '§', '>', '{', '}', '[', ']', '(', ')', '*', '&', '#', '@', '%', '!', '?', '/', '\\',
        '|', '~', '^', '=', '+', '-', '<',
    ]
}

/// Number of symbols in the table.
pub const SYMBOL_COUNT: usize = 25;

/// The `i`-th symbol of the table.
pub fn symbol_char(i: usize) -> (c: char)
    requires
        i < SYMBOL_COUNT,
    ensures
        c == symbol_table()[i as int],
{
    match i {
        0 => '$',
        1 => '§',
        2 => '>',
        3 => '{',
        4 => '}',
        5 => '[',
        6 => ']',
        7 => '(',
        8 => ')',
        9 => '*',
        10 => '&',
        11 => '#',
        12 => '@',
        13 => '%',
        14 => '!',
        15 => '?',
        16 => '/',
        17 => '\\',
        18 => '|',
        19 => '~',
        20 => '^',
        21 => '=',
        22 => '+',
        23 => '-',
        _ => '<',
    }
}

/// The deck before shuffling: cards `2k` and `2k + 1` both show symbol
/// `k`, taken from the table in order and wrapping around it.
pub open spec fn paired_cards(pairs: nat) -> Seq<Card> {
    Seq::new(
        2 * pairs,
        |i: int| Card { symbol: Symbol(symbol_table()[(i / 2) % 25]), state: CardState::Hidden },
    )
}

/// Build a shuffled deck of `pairs * 2` cards: the first `pairs` symbols
/// of the table, each twice, then shuffled by Fisher-Yates with the given
/// draws. Deterministic given the same draws.
pub fn build_deck(pairs: usize, picks: &Vec<usize>) -> (cards: Vec<Card>)
    requires
        pairs * 2 <= usize::MAX,
        picks_valid((2 * pairs) as nat, picks@),
    ensures
        cards@ == shuffled(paired_cards(pairs as nat), picks@),
        cards@.len() == 2 * pairs,
        cards@.to_multiset() =~= paired_cards(pairs as nat).to_multiset(),
{
    let mut cards: Vec<Card> = Vec::with_capacity(pairs * 2);
    let mut i: usize = 0;
    while i < pairs
        invariant
            i <= pairs,
            pairs * 2 <= usize::MAX,
            cards@ =~= paired_cards(i as nat),
        decreases pairs - i,
    {
        let sym = Symbol(symbol_char(i % SYMBOL_COUNT));
        cards.push(Card::new(sym));
        cards.push(Card::new(sym));
        proof {
            assert forall|k: int| 0 <= k < 2 * (i + 1) implies #[trigger] cards@[k] == paired_cards(
                (i + 1) as nat,
            )[k] by {
                if k >= 2 * i {
                    assert(k / 2 == i) by (nonlinear_arith)
                        requires
                            2 * i <= k < 2 * i + 2,
                    ;
                }
            }
        }
        i = i + 1;
    }
    let ghost unshuffled = cards@;
    fisher_yates(&mut cards, picks);
    proof {
        lemma_shuffled_is_permutation(unshuffled, picks@);
    }
    cards
}

/// The table's symbols are all different.
proof fn lemma_symbols_distinct()
    ensures
        forall|i: int, j: int| 0 <= i < 25 && 0 <= j < 25 && i != j ==> symbol_table()[i] != symbol_table()[j],
{
    let t = symbol_table();
    assert(t[0] == '$' && t[1] == '§' && t[2] == '>' && t[3] == '{' && t[4] == '}' && t[5] == '['
        && t[6] == ']' && t[7] == '(' && t[8] == ')' && t[9] == '*' && t[10] == '&' && t[11] == '#'
        && t[12] == '@' && t[13] == '%' && t[14] == '!' && t[15] == '?' && t[16] == '/' && t[17]
        == '\\' && t[18] == '|' && t[19] == '~' && t[20] == '^' && t[21] == '=' && t[22] == '+' && t[23]
        == '-' && t[24] == '<');
}

/// The unshuffled deck of `pairs` pairs, one more pair at a time.
proof fn lemma_paired_push(pairs: nat)
    requires
        pairs > 0,
    ensures
        paired_cards(pairs) =~= paired_cards((pairs - 1) as nat).push(paired_cards(pairs)[2 * pairs - 2]).push(
            paired_cards(pairs)[2 * pairs - 1],
        ),
        paired_cards(pairs)[2 * pairs - 2] == paired_cards(pairs)[2 * pairs - 1],
{
    assert((2 * pairs - 2) / 2 == pairs - 1) by (nonlinear_arith)
        requires
            pairs > 0,
    ;
    assert((2 * pairs - 1) / 2 == pairs - 1) by (nonlinear_arith)
        requires
            pairs > 0,
    ;
    assert forall|i: int| 0 <= i < 2 * pairs - 2 implies paired_cards(pairs)[i] == paired_cards(
        (pairs - 1) as nat,
    )[i] by {}
}

/// The card showing the `k`-th symbol, face down.
pub open spec fn pair_card(k: int) -> Card {
    Card { symbol: Symbol(symbol_table()[k % 25]), state: CardState::Hidden }
}

/// With at most as many pairs as symbols, the deck holds each of the
/// first `pairs` symbols exactly twice, and no other card.
pub proof fn lemma_two_of_each(pairs: nat)
    requires
        pairs <= 25,
    ensures
        forall|k: int| 0 <= k < pairs ==> #[trigger] paired_cards(pairs).to_multiset().count(pair_card(k)) == 2,
        forall|c: Card|
            (forall|k: int| 0 <= k < pairs ==> c != #[trigger] pair_card(k)) ==> paired_cards(pairs).to_multiset().count(
                c,
            ) == 0,
    decreases pairs,
{
    broadcast use vstd::seq_lib::group_to_multiset_ensures;
    broadcast use vstd::multiset::group_multiset_axioms;
    broadcast use vstd::multiset::lemma_multiset_empty_len;

    lemma_symbols_distinct();
    if pairs == 0 {
        assert(paired_cards(0).len() == 0);
        assert(paired_cards(0).to_multiset().len() == 0);
    } else {
        let p = (pairs - 1) as nat;
        lemma_two_of_each(p);
        lemma_paired_push(pairs);
        let c = paired_cards(pairs)[2 * pairs - 2];
        assert((2 * pairs - 2) / 2 == p) by (nonlinear_arith)
            requires
                pairs > 0,
                p == pairs - 1,
        ;
        assert(c == pair_card(p as int));
        let prev = paired_cards(p);
        assert(paired_cards(pairs).to_multiset() =~= prev.to_multiset().insert(c).insert(c));
        assert forall|k: int| 0 <= k < pairs implies #[trigger] paired_cards(pairs).to_multiset().count(
            pair_card(k),
        ) == 2 by {
            if k < p {
                assert(pair_card(k) != c);
            } else {
                assert(forall|k2: int| 0 <= k2 < p ==> c != #[trigger] pair_card(k2));
            }
        }
        assert forall|d: Card|
            (forall|k: int| 0 <= k < pairs ==> d != #[trigger] pair_card(k)) implies paired_cards(pairs).to_multiset().count(
            d,
        ) == 0 by {
            assert(d != pair_card(p as int));
            assert(forall|k: int| 0 <= k < p ==> d != #[trigger] pair_card(k));
        }
    }
}

// ============================================================================
// Selection phase
// ============================================================================

/// What the player's selection is currently doing.
#[derive(Debug, Clone, Copy, PartialEq, Eq, Structural)]
pub enum SelectionPhase {
    /// No card selected. Clicks on hidden cards are accepted.
    Idle,
    /// One card flipped, waiting for the second.
    FirstPick { col: usize, row: usize },
    /// Two cards flipped but not matching, waiting for the no-match delay
    /// to elapse before flipping them back. Clicks are ignored during
    /// this phase; the delay itself is kept by the caller's clock.
    Resolving { col_a: usize, row_a: usize, col_b: usize, row_b: usize },
}

// ============================================================================
// Board model
// ============================================================================

/// Number of cards of `s` in state `st`.
pub open spec fn count_in(s: Seq<Card>, st: CardState) -> nat
    decreases s.len(),
{
    if s.len() == 0 {
        0
    } else {
        count_in(s.drop_last(), st) + if s.last().state == st { 1nat } else { 0nat }
    }
}

proof fn lemma_count_in_update(s: Seq<Card>, i: int, c: Card, st: CardState)
    requires
        0 <= i < s.len(),
    ensures
        count_in(s.update(i, c), st) + (if s[i].state == st { 1int } else { 0int }) == count_in(s, st)
            + (if c.state == st { 1int } else { 0int }),
    decreases s.len(),
{
    if i < s.len() - 1 {
        lemma_count_in_update(s.drop_last(), i, c, st);
        assert(s.update(i, c).drop_last() =~= s.drop_last().update(i, c));
    } else {
        assert(s.update(i, c).drop_last() =~= s.drop_last());
    }
}

proof fn lemma_count_in_none(s: Seq<Card>, st: CardState)
    requires
        forall|i: int| 0 <= i < s.len() ==> s[i].state != st,
    ensures
        count_in(s, st) == 0,
    decreases s.len(),
{
    if s.len() > 0 {
        lemma_count_in_none(s.drop_last(), st);
    }
}

proof fn lemma_count_in_bound(s: Seq<Card>, st: CardState)
    ensures
        count_in(s, st) <= s.len(),
    decreases s.len(),
{
    if s.len() > 0 {
        lemma_count_in_bound(s.drop_last(), st);
    }
}

/// Position of (`col`, `row`) in the row-major card list.
pub open spec fn card_index(cols: int, col: int, row: int) -> int {
    row * cols + col
}

/// (`col`, `row`) lies on a `cols` x `rows` board.
pub open spec fn on_board(cols: int, rows: int, col: int, row: int) -> bool {
    0 <= col < cols && 0 <= row < rows
}

proof fn lemma_index_bounds(cols: int, rows: int, col: int, row: int)
    requires
        on_board(cols, rows, col, row),
    ensures
        0 <= card_index(cols, col, row) < cols * rows,
{
    assert(0 <= row * cols + col < cols * rows) by (nonlinear_arith)
        requires
            0 <= col < cols,
            0 <= row < rows,
    ;
}

proof fn lemma_index_injective(cols: int, rows: int, c1: int, r1: int, c2: int, r2: int)
    requires
        on_board(cols, rows, c1, r1),
        on_board(cols, rows, c2, r2),
        card_index(cols, c1, r1) == card_index(cols, c2, r2),
    ensures
        c1 == c2 && r1 == r2,
{
    assert(c1 == c2 && r1 == r2) by (nonlinear_arith)
        requires
            0 <= c1 < cols,
            0 <= c2 < cols,
            0 <= r1,
            0 <= r2,
            r1 * cols + c1 == r2 * cols + c2,
    ;
}

/// Exactly the cards at the given positions are face up in transit.
pub open spec fn flipped_exactly(board: Seq<Card>, at: Set<int>) -> bool {
    forall|i: int| 0 <= i < board.len() ==> (#[trigger] board[i].state == CardState::Flipped <==> at.contains(i))
}

/// The selection agrees with the board: the cards it names, and only
/// those, are flipped; a pending mismatch names two distinct cards.
pub open spec fn selection_ok(board: Seq<Card>, cols: int, rows: int, sel: SelectionPhase) -> bool {
    match sel {
        SelectionPhase::Idle => flipped_exactly(board, Set::empty()),
        SelectionPhase::FirstPick { col, row } => {
            &&& on_board(cols, rows, col as int, row as int)
            &&& flipped_exactly(board, set![card_index(cols, col as int, row as int)])
        },
        SelectionPhase::Resolving { col_a, row_a, col_b, row_b } => {
            &&& on_board(cols, rows, col_a as int, row_a as int)
            &&& on_board(cols, rows, col_b as int, row_b as int)
            &&& (col_a, row_a) != (col_b, row_b)
            &&& flipped_exactly(
                board,
                set![card_index(cols, col_a as int, row_a as int), card_index(cols, col_b as int, row_b as int)],
            )
        },
    }
}

// ============================================================================
// Game — top-level state
// ============================================================================

/// What a move changes: the phase, the cards, the selection, the pairs
/// found and the timer.
pub struct PlayView {
    pub state: GameState,
    pub board: Seq<Card>,
    pub selection: SelectionPhase,
    pub pairs_found: int,
    pub timer_running: bool,
}

/// The game after a click on the card at (`col`, `row`). Ignored unless
/// playing, outside a pending mismatch, on the board and on a hidden card.
/// The card is flipped and the timer runs; a first pick is remembered; a
/// second one matching the first marks both matched, counts the pair and
/// may win the game; a second one that does not match starts the
/// mismatch delay.
pub open spec fn after_reveal(p: PlayView, cols: int, rows: int, total_pairs: int, col: int, row: int) -> PlayView {
    let i = card_index(cols, col, row);
    if p.state != GameState::Playing || p.selection is Resolving || !on_board(cols, rows, col, row)
        || p.board[i].state != CardState::Hidden {
        p
    } else {
        let card = p.board[i];
        let flipped = p.board.update(i, Card { state: CardState::Flipped, ..card });
        match p.selection {
            SelectionPhase::FirstPick { col: ca, row: ra } => {
                if ca == col && ra == row {
                    PlayView { board: flipped, timer_running: true, ..p }
                } else {
                    let j = card_index(cols, ca as int, ra as int);
                    let first = flipped[j];
                    if first.symbol == card.symbol {
                        let matched = flipped.update(j, Card { state: CardState::Matched, ..first }).update(
                            i,
                            Card { state: CardState::Matched, ..card },
                        );
                        let found = p.pairs_found + 1;
                        if found == total_pairs {
                            PlayView {
                                state: GameState::Win,
                                board: matched,
                                selection: SelectionPhase::Idle,
                                pairs_found: found,
                                timer_running: false,
                            }
                        } else {
                            PlayView {
                                state: p.state,
                                board: matched,
                                selection: SelectionPhase::Idle,
                                pairs_found: found,
                                timer_running: true,
                            }
                        }
                    } else {
                        PlayView {
                            board: flipped,
                            selection: SelectionPhase::Resolving {
                                col_a: ca,
                                row_a: ra,
                                col_b: col as usize,
                                row_b: row as usize,
                            },
                            timer_running: true,
                            ..p
                        }
                    }
                }
            },
            _ => PlayView {
                board: flipped,
                selection: SelectionPhase::FirstPick { col: col as usize, row: row as usize },
                timer_running: true,
                ..p
            },
        }
    }
}

/// The game once a pending mismatch's delay has elapsed: both cards face
/// down again and nothing selected. Anything else is left alone.
pub open spec fn after_mismatch_delay(p: PlayView, cols: int) -> PlayView {
    match p.selection {
        SelectionPhase::Resolving { col_a, row_a, col_b, row_b } => {
            let a = card_index(cols, col_a as int, row_a as int);
            let b = card_index(cols, col_b as int, row_b as int);
            let board = p.board.update(a, Card { state: CardState::Hidden, ..p.board[a] }).update(
                b,
                Card { state: CardState::Hidden, ..p.board[b] },
            );
            PlayView { board, selection: SelectionPhase::Idle, ..p }
        },
        _ => p,
    }
}

/// Top-level state for one Memory session.
pub struct Game {
    pub state: GameState,
    pub difficulties: Vec<DifficultyData>,
    pub selected_difficulty: usize,
    /// Cards row by row: the card at (`col`, `row`) is `board[row * cols + col]`.
    pub board: Vec<Card>,
    pub cols: usize,
    pub rows: usize,
    pub selection: SelectionPhase,
    pub pairs_found: usize,
    pub total_pairs: usize,
    pub timer_running: bool,
}

impl Game {
    /// The parts of the game a move changes.
    pub open spec fn play(&self) -> PlayView {
        PlayView {
            state: self.state,
            board: self.board@,
            selection: self.selection,
            pairs_found: self.pairs_found as int,
            timer_running: self.timer_running,
        }
    }

    /// The difficulties can be dealt and one is selected; the board has
    /// its size; the selection agrees with the flipped cards; matched
    /// cards are exactly the pairs found.
    pub open spec fn wf(&self) -> bool {
        &&& self.difficulties@.len() > 0
        &&& self.selected_difficulty < self.difficulties@.len()
        &&& forall|i: int| 0 <= i < self.difficulties@.len() ==> (#[trigger] self.difficulties@[i]).playable()
        &&& self.board@.len() == self.cols * self.rows
        &&& selection_ok(self.board@, self.cols as int, self.rows as int, self.selection)
        &&& count_in(self.board@, CardState::Matched) == 2 * self.pairs_found
    }

    /// A session at the menu on the first difficulty, with a single
    /// face-down placeholder card; with no difficulty given, the Easy one
    /// alone.
    pub fn new(difficulties: Vec<DifficultyData>) -> (g: Self)
        requires
            forall|i: int| 0 <= i < difficulties@.len() ==> (#[trigger] difficulties@[i]).playable(),
        ensures
            g.wf(),
            g.state == GameState::Start,
            g.selected_difficulty == 0,
            difficulties@.len() > 0 ==> g.difficulties@ == difficulties@,
            difficulties@.len() == 0 ==> g.difficulties@.len() == 1 && g.difficulties@[0].cols == 4
                && g.difficulties@[0].rows == 4 && g.difficulties@[0].pairs == 8,
            g.board@ == seq![Card { symbol: Symbol('?'), state: CardState::Hidden }],
            g.cols == 1 && g.rows == 1,
            g.selection == SelectionPhase::Idle,
            g.pairs_found == 0,
            g.total_pairs == 0,
            !g.timer_running,
    {
        let difficulties = if difficulties.len() > 0 {
            difficulties
        } else {
            fallback()
        };
        let mut board: Vec<Card> = Vec::new();
        board.push(Card::new(Symbol('?')));
        proof {
            lemma_count_in_none(board@, CardState::Matched);
        }
        Game {
            state: GameState::Start,
            difficulties,
            selected_difficulty: 0,
            board,
            cols: 1,
            rows: 1,
            selection: SelectionPhase::Idle,
            pairs_found: 0,
            total_pairs: 0,
            timer_running: false,
        }
    }

    /// The selected difficulty.
    pub fn current_difficulty(&self) -> (d: &DifficultyData)
        requires
            self.wf(),
        ensures
            *d == self.difficulties@[self.selected_difficulty as int],
    {
        &self.difficulties[self.selected_difficulty]
    }

    /// Start a new game with the currently selected difficulty, its deck
    /// shuffled by `picks`.
    pub fn start_game(&mut self, picks: &Vec<usize>)
        requires
            old(self).wf(),
            picks_valid(
                (2 * old(self).difficulties@[old(self).selected_difficulty as int].pairs) as nat,
                picks@,
            ),
        ensures
            final(self).wf(),
            ({
                let d = old(self).difficulties@[old(self).selected_difficulty as int];
                &&& final(self).board@ == shuffled(paired_cards(d.pairs as nat), picks@)
                &&& final(self).cols == d.cols
                &&& final(self).rows == d.rows
                &&& final(self).total_pairs == d.pairs
            }),
            final(self).state == GameState::Playing,
            final(self).selection == SelectionPhase::Idle,
            final(self).pairs_found == 0,
            !final(self).timer_running,
            final(self).difficulties@ == old(self).difficulties@,
            final(self).selected_difficulty == old(self).selected_difficulty,
    {
        let d = &self.difficulties[self.selected_difficulty];
        let (cols, rows, pairs) = (d.cols, d.rows, d.pairs);
        assert(self.difficulties@[self.selected_difficulty as int].playable());
        let cards = build_deck(pairs, picks);
        proof {
            assert forall|i: int| 0 <= i < cards@.len() implies #[trigger] cards@[i].state
                == CardState::Hidden by {
                assert(cards@.to_multiset().count(cards@[i]) > 0);
                assert(paired_cards(pairs as nat).contains(cards@[i]));
            }
            lemma_count_in_none(cards@, CardState::Matched);
        }
        self.board = cards;
        self.cols = cols;
        self.rows = rows;
        self.selection = SelectionPhase::Idle;
        self.pairs_found = 0;
        self.total_pairs = pairs;
        self.timer_running = false;
        self.state = GameState::Playing;
    }

    /// Is the game currently accepting clicks on cards?
    pub fn is_playable(&self) -> (r: bool)
        ensures
            r == (self.state == GameState::Playing && !(self.selection is Resolving)),
    {
        self.state == GameState::Playing && !matches!(self.selection, SelectionPhase::Resolving { .. })
    }

    /// True if the given card is one of a mismatched pair waiting to flip back.
    pub fn is_resolving_at(&self, col: usize, row: usize) -> (r: bool)
        ensures
            r == (match self.selection {
                SelectionPhase::Resolving { col_a, row_a, col_b, row_b } => (col == col_a && row
                    == row_a) || (col == col_b && row == row_b),
                _ => false,
            }),
    {
        match self.selection {
            SelectionPhase::Resolving { col_a, row_a, col_b, row_b } => (col == col_a && row == row_a)
                || (col == col_b && row == row_b),
            _ => false,
        }
    }

    /// The card at (`col`, `row`), `None` off the board.
    pub fn card(&self, col: usize, row: usize) -> (c: Option<Card>)
        requires
            self.wf(),
        ensures
            c == (if on_board(self.cols as int, self.rows as int, col as int, row as int) {
                Some(self.board@[card_index(self.cols as int, col as int, row as int)])
            } else {
                None
            }),
    {
        if col < self.cols && row < self.rows {
            let n = self.board.len();
            proof {
                lemma_index_bounds(self.cols as int, self.rows as int, col as int, row as int);
            }
            Some(self.board[row * self.cols + col])
        } else {
            None
        }
    }

    /// Flip a card. Applies the match / no-match logic and updates
    /// `selection`. Ignores clicks that aren't allowed (not playing, card
    /// already flipped or matched, off the board, pending mismatch).
    pub fn reveal_card(&mut self, col: usize, row: usize)
        requires
            old(self).wf(),
        ensures
            final(self).wf(),
            final(self).play() == after_reveal(
                old(self).play(),
                old(self).cols as int,
                old(self).rows as int,
                old(self).total_pairs as int,
                col as int,
                row as int,
            ),
            final(self).difficulties@ == old(self).difficulties@,
            final(self).selected_difficulty == old(self).selected_difficulty,
            final(self).cols == old(self).cols,
            final(self).rows == old(self).rows,
            final(self).total_pairs == old(self).total_pairs,
    {
        if self.state != GameState::Playing {
            return;
        }
        if matches!(self.selection, SelectionPhase::Resolving { .. }) {
            return;
        }
        let card = match self.card(col, row) {
            Some(c) => c,
            None => return,
        };
        if !card.is_clickable() {
            return;
        }
        let ghost b0 = self.board@;
        let cols = self.cols;
        let rows = self.rows;
        let n = self.board.len();
        proof {
            lemma_index_bounds(cols as int, rows as int, col as int, row as int);
        }
        let i = row * cols + col;
        let fc = Card { state: CardState::Flipped, ..card };
        self.board.set(i, fc);
        proof {
            lemma_count_in_update(b0, i as int, fc, CardState::Matched);
        }
        if !self.timer_running {
            self.timer_running = true;
        }
        match self.selection {
            SelectionPhase::Idle => {
                self.selection = SelectionPhase::FirstPick { col, row };
                proof {
                    assert(flipped_exactly(self.board@, set![i as int]));
                }
            },
            SelectionPhase::FirstPick { col: ca, row: ra } => {
                if ca == col && ra == row {
                    return;
                }
                proof {
                    lemma_index_bounds(cols as int, rows as int, ca as int, ra as int);
                    if card_index(cols as int, ca as int, ra as int) == i {
                        lemma_index_injective(cols as int, rows as int, ca as int, ra as int, col as int, row as int);
                    }
                }
                let j = ra * cols + ca;
                let first = self.board[j];
                if first.symbol == card.symbol {
                    let ghost b1 = self.board@;
                    let m1 = Card { state: CardState::Matched, ..first };
                    self.board.set(j, m1);
                    let ghost b2 = self.board@;
                    let m2 = Card { state: CardState::Matched, ..card };
                    self.board.set(i, m2);
                    proof {
                        lemma_count_in_update(b1, j as int, m1, CardState::Matched);
                        lemma_count_in_update(b2, i as int, m2, CardState::Matched);
                        lemma_count_in_bound(self.board@, CardState::Matched);
                        assert(flipped_exactly(self.board@, Set::empty()));
                    }
                    self.pairs_found = self.pairs_found + 1;
                    self.selection = SelectionPhase::Idle;
                    self.check_win();
                } else {
                    self.selection = SelectionPhase::Resolving { col_a: ca, row_a: ra, col_b: col, row_b: row };
                    proof {
                        assert(flipped_exactly(
                            self.board@,
                            set![card_index(cols as int, ca as int, ra as int), i as int],
                        ));
                    }
                }
            },
            SelectionPhase::Resolving { .. } => {},
        }
    }

    /// The no-match delay has elapsed: flip a pending mismatched pair back
    /// face down and clear the selection. No-op outside a pending mismatch.
    pub fn end_mismatch(&mut self)
        requires
            old(self).wf(),
        ensures
            final(self).wf(),
            final(self).play() == after_mismatch_delay(old(self).play(), old(self).cols as int),
            final(self).difficulties@ == old(self).difficulties@,
            final(self).selected_difficulty == old(self).selected_difficulty,
            final(self).cols == old(self).cols,
            final(self).rows == old(self).rows,
            final(self).total_pairs == old(self).total_pairs,
    {
        if let SelectionPhase::Resolving { col_a, row_a, col_b, row_b } = self.selection {
            let cols = self.cols;
            let n = self.board.len();
            proof {
                lemma_index_bounds(cols as int, self.rows as int, col_a as int, row_a as int);
                lemma_index_bounds(cols as int, self.rows as int, col_b as int, row_b as int);
                if card_index(cols as int, col_a as int, row_a as int) == card_index(
                    cols as int,
                    col_b as int,
                    row_b as int,
                ) {
                    lemma_index_injective(
                        cols as int,
                        self.rows as int,
                        col_a as int,
                        row_a as int,
                        col_b as int,
                        row_b as int,
                    );
                }
            }
            let a = row_a * cols + col_a;
            let b = row_b * cols + col_b;
            let ghost b0 = self.board@;
            let ca = self.board[a];
            let ha = Card { state: CardState::Hidden, ..ca };
            self.board.set(a, ha);
            let ghost b1 = self.board@;
            let cb = self.board[b];
            let hb = Card { state: CardState::Hidden, ..cb };
            self.board.set(b, hb);
            proof {
                lemma_count_in_update(b0, a as int, ha, CardState::Matched);
                lemma_count_in_update(b1, b as int, hb, CardState::Matched);
                assert(flipped_exactly(self.board@, Set::empty()));
            }
            self.selection = SelectionPhase::Idle;
        }
    }

    /// If all pairs are matched, transition to `Win`.
    fn check_win(&mut self)
        ensures
            final(self).state == (if old(self).pairs_found == old(self).total_pairs {
                GameState::Win
            } else {
                old(self).state
            }),
            final(self).timer_running == (old(self).timer_running && old(self).pairs_found
                != old(self).total_pairs),
            final(self).difficulties@ == old(self).difficulties@,
            final(self).selected_difficulty == old(self).selected_difficulty,
            final(self).board@ == old(self).board@,
            final(self).cols == old(self).cols,
            final(self).rows == old(self).rows,
            final(self).selection == old(self).selection,
            final(self).pairs_found == old(self).pairs_found,
            final(self).total_pairs == old(self).total_pairs,
    {
        if self.pairs_found == self.total_pairs {
            self.state = GameState::Win;
            self.timer_running = false;
        }
    }
}

// ============================================================================
// Laws
// ============================================================================

/// While a mismatched pair waits to flip back, clicks change nothing.
pub proof fn lemma_resolving_blocks_clicks(p: PlayView, cols: int, rows: int, total_pairs: int, col: int, row: int)
    requires
        p.selection is Resolving,
    ensures
        after_reveal(p, cols, rows, total_pairs, col, row) == p,
{
}

/// A second pick showing the first pick's symbol matches both cards and
/// counts one pair; one showing another symbol starts the mismatch delay.
pub proof fn lemma_second_pick(p: PlayView, cols: int, rows: int, total_pairs: int, col: int, row: int)
    requires
        p.state == GameState::Playing,
        p.selection matches SelectionPhase::FirstPick { col: ca, row: ra } && (ca != col || ra != row)
            && on_board(cols, rows, ca as int, ra as int),
        on_board(cols, rows, col, row),
        p.board[card_index(cols, col, row)].state == CardState::Hidden,
        p.board.len() == cols * rows,
    ensures
        ({
            let q = after_reveal(p, cols, rows, total_pairs, col, row);
            let (ca, ra) = match p.selection {
                SelectionPhase::FirstPick { col, row } => (col as int, row as int),
                _ => (0, 0),
            };
            let i = card_index(cols, col, row);
            let j = card_index(cols, ca, ra);
            if p.board[j].symbol == p.board[i].symbol {
                &&& q.board[i].state == CardState::Matched
                &&& q.board[j].state == CardState::Matched
                &&& q.pairs_found == p.pairs_found + 1
                &&& q.selection == SelectionPhase::Idle
                &&& (q.state == GameState::Win <==> q.pairs_found == total_pairs)
            } else {
                &&& q.board[i].state == CardState::Flipped
                &&& q.selection is Resolving
                &&& q.pairs_found == p.pairs_found
            }
        }),
{
    let (ca, ra) = match p.selection {
        SelectionPhase::FirstPick { col, row } => (col as int, row as int),
        _ => (0, 0),
    };
    lemma_index_bounds(cols, rows, col, row);
    lemma_index_bounds(cols, rows, ca, ra);
    if card_index(cols, ca, ra) == card_index(cols, col, row) {
        lemma_index_injective(cols, rows, ca, ra, col, row);
    }
}

} // verus!
