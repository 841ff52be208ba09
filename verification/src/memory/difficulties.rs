//! Difficulty definitions: board size and number of pairs.
use vstd::prelude::*;

verus! {

/// One difficulty: the board's name, size, and number of distinct symbols.
#[derive(Debug, Clone)]
pub struct DifficultyData {
    pub name: String,
    pub cols: usize,
    pub rows: usize,
    /// Number of distinct symbols used. Must be `(cols * rows) / 2`.
    pub pairs: usize,
}

impl DifficultyData {
    /// Total number of cards on the board.
    pub fn card_count(&self) -> (n: usize)
        requires
            self.cols * self.rows <= usize::MAX,
        ensures
            n == self.cols * self.rows,
    {
        self.cols * self.rows
    }

    /// Sanity check: `pairs * 2` must equal `card_count`.
    pub fn is_valid(&self) -> (r: bool)
        requires
            self.cols * self.rows <= usize::MAX,
            self.pairs * 2 <= usize::MAX,
        ensures
            r == (self.pairs * 2 == self.cols * self.rows && self.pairs > 0),
    {
        self.pairs * 2 == self.card_count() && self.pairs > 0
    }

    /// The board of this difficulty can be dealt: its size fits, and the
    /// pairs fill it exactly.
    pub open spec fn playable(&self) -> bool {
        &&& self.cols * self.rows <= usize::MAX
        &&& self.pairs * 2 == self.cols * self.rows
    }
}

/// The single difficulty used when none can be loaded: Easy, 4x4 with 8 pairs.
pub fn fallback() -> (list: Vec<DifficultyData>)
    ensures
        list@.len() == 1,
        list@[0].name@ == "Easy"@,
        list@[0].cols == 4,
        list@[0].rows == 4,
        list@[0].pairs == 8,
{
    let mut list: Vec<DifficultyData> = Vec::new();
    list.push(DifficultyData { name: String::from_str("Easy"), cols: 4, rows: 4, pairs: 8 });
    list
}

} // verus!
