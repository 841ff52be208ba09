//! Phase of a battle, and when a battle ends.
use vstd::prelude::*;

verus! {

/// Where a battle stands.
#[derive(Debug, Clone, Copy, PartialEq, Eq, Structural)]
pub enum Phase {
    Playing,
    Won,
    Lost,
}

/// The phase after a battle's end checks: won once the enemy tower falls,
/// lost once the player's falls, won when a survival level's time is up;
/// unchanged otherwise.
pub fn end_phase(phase: Phase, enemy_destroyed: bool, player_destroyed: bool, time_up: bool) -> (p: Phase)
    ensures
        p == (if enemy_destroyed {
            Phase::Won
        } else if player_destroyed {
            Phase::Lost
        } else if time_up {
            Phase::Won
        } else {
            phase
        }),
{
    if enemy_destroyed {
        Phase::Won
    } else if player_destroyed {
        Phase::Lost
    } else if time_up {
        Phase::Won
    } else {
        phase
    }
}

} // verus!
