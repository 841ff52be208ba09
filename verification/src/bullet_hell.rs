//! Bullet Hell run progress: lives, waves, and how a run ends.
use vstd::prelude::*;

use crate::game_state::GameState;

verus! {

/// Lives a run starts with.
pub const START_LIVES: i32 = 3;

/// Where a run stands: lives left, the current wave, the phase.
#[derive(Debug, Clone, Copy, PartialEq, Eq, Structural)]
pub struct RunProgress {
    pub lives: i32,
    pub wave: u32,
    pub state: GameState,
}

impl RunProgress {
    /// A fresh run at the start screen: full lives, first wave.
    pub fn new() -> (r: Self)
        ensures
            r.lives == START_LIVES,
            r.wave == 0,
            r.state == GameState::Start,
    {
        RunProgress { lives: START_LIVES, wave: 0, state: GameState::Start }
    }

    /// Enter wave `idx` of `wave_count`: a wave past the last wins the run.
    /// Returns whether the wave exists (its enemies are then spawned).
    pub fn enter_wave(&mut self, idx: u32, wave_count: usize) -> (exists: bool)
        ensures
            exists == (idx < wave_count),
            exists ==> final(self).wave == idx && final(self).state == old(self).state,
            !exists ==> final(self).wave == old(self).wave && final(self).state == GameState::Win,
            final(self).lives == old(self).lives,
    {
        if (idx as usize) < wave_count {
            self.wave = idx;
            true
        } else {
            self.state = GameState::Win;
            false
        }
    }

    /// Every enemy of the wave is down: a pause before the next wave if
    /// there is one, otherwise the run is won.
    pub fn wave_cleared(&mut self, wave_count: usize)
        requires
            old(self).wave < u32::MAX,
        ensures
            final(self).state == (if old(self).wave + 1 < wave_count {
                GameState::LevelCleared
            } else {
                GameState::Win
            }),
            final(self).wave == old(self).wave,
            final(self).lives == old(self).lives,
    {
        let next = self.wave + 1;
        if (next as usize) < wave_count {
            self.state = GameState::LevelCleared;
        } else {
            self.state = GameState::Win;
        }
    }

    /// The player is hit: one life less. Returns whether the run is over,
    /// in which case the phase is game over.
    pub fn lose_life(&mut self) -> (over: bool)
        requires
            old(self).lives > i32::MIN,
        ensures
            final(self).lives == old(self).lives - 1,
            over == (final(self).lives <= 0),
            final(self).state == (if over { GameState::GameOver } else { old(self).state }),
            final(self).wave == old(self).wave,
    {
        self.lives = self.lives - 1;
        if self.lives <= 0 {
            self.state = GameState::GameOver;
            true
        } else {
            false
        }
    }
}

} // verus!
