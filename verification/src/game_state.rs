use vstd::prelude::*;

verus! {

/// Top-level phase of a game session, shared by every game of the collection.
#[derive(Debug, Clone, Copy, PartialEq, Eq, Structural)]
pub enum GameState {
    Start,
    Playing,
    LevelCleared,
    Win,
    GameOver,
}

} // verus!
