//! Card, CardState, Symbol — the board data model.
use vstd::prelude::*;

verus! {

/// A single symbol that can appear on a card.
#[derive(Debug, Clone, Copy, PartialEq, Eq, Structural)]
pub struct Symbol(pub char);

impl Symbol {
    pub fn as_char(self) -> (c: char)
        ensures
            c == self.0,
    {
        self.0
    }
}

/// Visual / logical state of a single card.
#[derive(Debug, Clone, Copy, PartialEq, Eq, Structural)]
pub enum CardState {
    /// Face down, clickable.
    Hidden,
    /// Face up, transition in progress (first click or no-match delay).
    /// Not clickable.
    Flipped,
    /// Face up, permanently matched. Not clickable.
    Matched,
}

/// One card on the board.
#[derive(Debug, Clone, Copy, PartialEq, Eq, Structural)]
pub struct Card {
    pub symbol: Symbol,
    pub state: CardState,
}

impl Card {
    /// A face-down card showing `symbol` once turned.
    pub fn new(symbol: Symbol) -> (c: Self)
        ensures
            c.symbol == symbol,
            c.state == CardState::Hidden,
    {
        Self { symbol, state: CardState::Hidden }
    }

    pub fn is_hidden(&self) -> (r: bool)
        ensures
            r == (self.state == CardState::Hidden),
    {
        self.state == CardState::Hidden
    }

    pub fn is_flipped(&self) -> (r: bool)
        ensures
            r == (self.state == CardState::Flipped),
    {
        self.state == CardState::Flipped
    }

    pub fn is_matched(&self) -> (r: bool)
        ensures
            r == (self.state == CardState::Matched),
    {
        self.state == CardState::Matched
    }

    /// True if the card can be clicked (hidden, not flipped/matched).
    pub fn is_clickable(&self) -> (r: bool)
        ensures
            r == (self.state == CardState::Hidden),
    {
        self.state == CardState::Hidden
    }
}

} // verus!
