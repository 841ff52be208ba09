//! Card model: suits, ranks, cards, colors, zones.
use vstd::prelude::*;

verus! {

/// The four suits. Color is derived.
#[derive(Debug, Clone, Copy, PartialEq, Eq, Hash, Structural)]
pub enum Suit {
    Spade,
    Heart,
    Diamond,
    Club,
}

/// Card color (derived from suit).
#[derive(Debug, Clone, Copy, PartialEq, Eq, Hash, Structural)]
pub enum Color {
    Red,
    Black,
}

/// Red for hearts and diamonds, black for spades and clubs.
pub open spec fn suit_color(s: Suit) -> Color {
    match s {
        Suit::Heart | Suit::Diamond => Color::Red,
        Suit::Spade | Suit::Club => Color::Black,
    }
}

/// Position of a suit in the foundations row.
pub open spec fn suit_index(s: Suit) -> nat {
    match s {
        Suit::Spade => 0,
        Suit::Heart => 1,
        Suit::Diamond => 2,
        Suit::Club => 3,
    }
}

/// The suit stored at a foundation position (inverse of `suit_index`).
pub open spec fn suit_at(i: int) -> Suit {
    if i == 0 {
        Suit::Spade
    } else if i == 1 {
        Suit::Heart
    } else if i == 2 {
        Suit::Diamond
    } else {
        Suit::Club
    }
}

impl Suit {
    pub const ALL: [Suit; 4] = [Suit::Spade, Suit::Heart, Suit::Diamond, Suit::Club];

    /// Red or black.
    pub fn color(self) -> (c: Color)
        ensures
            c == suit_color(self),
    {
        match self {
            Suit::Heart | Suit::Diamond => Color::Red,
            Suit::Spade | Suit::Club => Color::Black,
        }
    }

    /// Unicode symbol.
    pub fn symbol(self) -> (c: char)
        ensures
            c == (match self {
                Suit::Spade => '♠',
                Suit::Heart => '♥',
                Suit::Diamond => '♦',
                Suit::Club => '♣',
            }),
    {
        match self {
            Suit::Spade => '♠',
            Suit::Heart => '♥',
            Suit::Diamond => '♦',
            Suit::Club => '♣',
        }
    }

    /// ASCII fallback if Unicode doesn't render.
    pub fn ascii(self) -> (c: char)
        ensures
            c == (match self {
                Suit::Spade => 'S',
                Suit::Heart => 'H',
                Suit::Diamond => 'D',
                Suit::Club => 'C',
            }),
    {
        match self {
            Suit::Spade => 'S',
            Suit::Heart => 'H',
            Suit::Diamond => 'D',
            Suit::Club => 'C',
        }
    }

    /// Index for the foundations array (0..4).
    pub fn index(self) -> (i: usize)
        ensures
            i == suit_index(self),
            i < 4,
            suit_at(i as int) == self,
    {
        match self {
            Suit::Spade => 0,
            Suit::Heart => 1,
            Suit::Diamond => 2,
            Suit::Club => 3,
        }
    }

    /// The suit of a foundation position.
    pub fn from_index(i: usize) -> (s: Suit)
        requires
            i < 4,
        ensures
            s == suit_at(i as int),
            suit_index(s) == i,
    {
        if i == 0 {
            Suit::Spade
        } else if i == 1 {
            Suit::Heart
        } else if i == 2 {
            Suit::Diamond
        } else {
            Suit::Club
        }
    }
}

/// Rank: 1 = Ace, 2..=10, 11 = Jack, 12 = Queen, 13 = King.
#[derive(Debug, Clone, Copy, PartialEq, Eq, PartialOrd, Ord, Hash, Structural)]
pub struct Rank(pub u8);

/// The one-character label of a rank value: 'A', '2'..'9', 'T', 'J', 'Q', 'K';
/// '0' for zero and '?' for any value above 13.
pub open spec fn rank_label(n: u8) -> char {
    if n == 1 {
        'A'
    } else if n == 10 {
        'T'
    } else if n == 11 {
        'J'
    } else if n == 12 {
        'Q'
    } else if n == 13 {
        'K'
    } else if n <= 9 {
        ((48 + n) as u32) as char
    } else {
        '?'
    }
}

impl Rank {
    /// The ace, lowest rank.
    pub fn ace() -> (r: Rank)
        ensures
            r.0 == 1,
    {
        Rank(1)
    }

    /// The king, highest rank.
    pub fn king() -> (r: Rank)
        ensures
            r.0 == 13,
    {
        Rank(13)
    }

    pub fn value(self) -> (v: u8)
        ensures
            v == self.0,
    {
        self.0
    }

    /// 'A', '2'..'9', '10' -> 'T', 'J', 'Q', 'K'.
    pub fn label(self) -> (c: char)
        ensures
            c == rank_label(self.0),
    {
        match self.0 {
            0 => '0',
            1 => 'A',
            2 => '2',
            3 => '3',
            4 => '4',
            5 => '5',
            6 => '6',
            7 => '7',
            8 => '8',
            9 => '9',
            10 => 'T',
            11 => 'J',
            12 => 'Q',
            13 => 'K',
            _ => '?',
        }
    }
}

/// One card.
#[derive(Debug, Clone, Copy, PartialEq, Eq, Hash, Structural)]
pub struct Card {
    pub suit: Suit,
    pub rank: Rank,
}

impl Card {
    pub fn new(suit: Suit, rank: Rank) -> (c: Self)
        ensures
            c.suit == suit,
            c.rank == rank,
    {
        Self { suit, rank }
    }

    pub fn color(&self) -> (c: Color)
        ensures
            c == suit_color(self.suit),
    {
        self.suit.color()
    }

    pub fn symbol(&self) -> (c: char)
        ensures
            c == (match self.suit {
                Suit::Spade => '♠',
                Suit::Heart => '♥',
                Suit::Diamond => '♦',
                Suit::Club => '♣',
            }),
    {
        self.suit.symbol()
    }

    pub fn ascii(&self) -> (c: char)
        ensures
            c == (match self.suit {
                Suit::Spade => 'S',
                Suit::Heart => 'H',
                Suit::Diamond => 'D',
                Suit::Club => 'C',
            }),
    {
        self.suit.ascii()
    }

    pub fn rank_label(&self) -> (c: char)
        ensures
            c == rank_label(self.rank.0),
    {
        self.rank.label()
    }
}

/// A zone on the board. Used for drag-and-drop and move validation.
#[derive(Debug, Clone, Copy, PartialEq, Eq, Hash, Structural)]
pub enum Zone {
    Column(usize),
    FreeCell(usize),
    Foundation(usize),
}

} // verus!
