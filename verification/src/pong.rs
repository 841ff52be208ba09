//! Pong scoring: points, and when a match ends.
use vstd::prelude::*;

use crate::game_state::GameState;

verus! {

/// Who scored.
#[derive(Debug, Clone, Copy, PartialEq, Eq, Structural)]
pub enum Side {
    /// The ball left the field on the right.
    Player,
    /// The ball left the field on the left.
    Ai,
}

/// The score of a match and its phase.
#[derive(Debug, Clone, Copy, PartialEq, Eq, Structural)]
pub struct MatchScore {
    pub score_player: i32,
    pub score_ai: i32,
    pub state: GameState,
}

impl MatchScore {
    /// A fresh match: no points, at the start screen.
    pub fn new() -> (m: Self)
        ensures
            m.score_player == 0,
            m.score_ai == 0,
            m.state == GameState::Start,
    {
        MatchScore { score_player: 0, score_ai: 0, state: GameState::Start }
    }

    /// Scores back to zero; the phase is left to the caller.
    pub fn reset(&mut self)
        ensures
            final(self).score_player == 0,
            final(self).score_ai == 0,
            final(self).state == old(self).state,
    {
        self.score_player = 0;
        self.score_ai = 0;
    }

    /// A point for `side`. Reaching `win_score` ends the match: a win for
    /// the player, game over for the AI. Returns whether the ball is served
    /// again, which it is when the match goes on.
    pub fn goal(&mut self, side: Side, win_score: i32) -> (serve: bool)
        requires
            side == Side::Player ==> old(self).score_player < i32::MAX,
            side == Side::Ai ==> old(self).score_ai < i32::MAX,
        ensures
            match side {
                Side::Player => {
                    &&& final(self).score_player == old(self).score_player + 1
                    &&& final(self).score_ai == old(self).score_ai
                    &&& serve == (final(self).score_player < win_score)
                    &&& final(self).state == (if serve { old(self).state } else { GameState::Win })
                },
                Side::Ai => {
                    &&& final(self).score_ai == old(self).score_ai + 1
                    &&& final(self).score_player == old(self).score_player
                    &&& serve == (final(self).score_ai < win_score)
                    &&& final(self).state == (if serve { old(self).state } else { GameState::GameOver })
                },
            },
    {
        match side {
            Side::Player => {
                self.score_player = self.score_player + 1;
                if self.score_player >= win_score {
                    self.state = GameState::Win;
                    false
                } else {
                    true
                }
            },
            Side::Ai => {
                self.score_ai = self.score_ai + 1;
                if self.score_ai >= win_score {
                    self.state = GameState::GameOver;
                    false
                } else {
                    true
                }
            },
        }
    }
}

} // verus!
