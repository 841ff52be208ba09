use ember_games::game_state::GameState;
use ember_games::pong::{MatchScore, Side};

#[test]
fn fresh_match_has_no_points() {
    let m = MatchScore::new();
    assert_eq!(m.score_player, 0);
    assert_eq!(m.score_ai, 0);
    assert_eq!(m.state, GameState::Start);
}

#[test]
fn ai_goal_counts_and_serves_again() {
    let mut m = MatchScore::new();
    m.state = GameState::Playing;
    assert!(m.goal(Side::Ai, 5));
    assert_eq!(m.score_ai, 1);
    assert_eq!(m.score_player, 0);
    assert_eq!(m.state, GameState::Playing);
}

#[test]
fn player_wins_at_five_points() {
    let mut m = MatchScore::new();
    m.state = GameState::Playing;
    m.score_player = 4;
    assert!(!m.goal(Side::Player, 5));
    assert_eq!(m.score_player, 5);
    assert_eq!(m.state, GameState::Win);
}

#[test]
fn ai_wins_at_five_points() {
    let mut m = MatchScore::new();
    m.state = GameState::Playing;
    m.score_ai = 4;
    assert!(!m.goal(Side::Ai, 5));
    assert_eq!(m.score_ai, 5);
    assert_eq!(m.state, GameState::GameOver);
}

#[test]
fn reset_clears_scores_but_keeps_phase() {
    let mut m = MatchScore::new();
    m.state = GameState::Playing;
    m.goal(Side::Player, 5);
    m.goal(Side::Ai, 5);
    m.reset();
    assert_eq!(m.score_player, 0);
    assert_eq!(m.score_ai, 0);
    assert_eq!(m.state, GameState::Playing);
}
