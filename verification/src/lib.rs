use vstd::prelude::*;

pub mod bullet_hell;
pub mod ember_wars;
pub mod freecell;
pub mod game_state;
pub mod memory;
pub mod minesweeper;
pub mod pong;
pub mod rng;
pub mod shuffle;

verus! {

} // verus!
