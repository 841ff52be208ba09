//! Difficulty definitions: board sizes and mine counts.
use vstd::prelude::*;

verus! {

/// One difficulty: the board's name, size and number of mines.
#[derive(Debug, Clone)]
pub struct DifficultyData {
    pub name: String,
    pub width: usize,
    pub height: usize,
    pub mines: usize,
}

impl DifficultyData {
    /// A board of this size can be laid out: it fits in memory with room
    /// for twenty placement draws per cell, and holds its mines.
    pub open spec fn playable(&self) -> bool {
        &&& self.width * self.height * 20 <= usize::MAX
        &&& self.mines <= self.width * self.height
    }
}

/// The single difficulty used when none can be loaded: Beginner, 9x9 with 10 mines.
pub fn fallback() -> (list: Vec<DifficultyData>)
    ensures
        list@.len() == 1,
        list@[0].name@ == "Beginner"@,
        list@[0].width == 9,
        list@[0].height == 9,
        list@[0].mines == 10,
{
    let mut list: Vec<DifficultyData> = Vec::new();
    list.push(DifficultyData { name: String::from_str("Beginner"), width: 9, height: 9, mines: 10 });
    list
}

} // verus!
