use ember_games::bullet_hell::{RunProgress, START_LIVES};
use ember_games::game_state::GameState;

#[test]
fn fresh_run_has_three_lives() {
    let r = RunProgress::new();
    assert_eq!(r.lives, 3);
    assert_eq!(START_LIVES, 3);
    assert_eq!(r.wave, 0);
    assert_eq!(r.state, GameState::Start);
}

#[test]
fn losing_a_life_keeps_playing_until_zero() {
    let mut r = RunProgress::new();
    r.state = GameState::Playing;
    assert!(!r.lose_life());
    assert_eq!(r.lives, 2);
    assert_eq!(r.state, GameState::Playing);
    assert!(!r.lose_life());
    assert!(r.lose_life());
    assert_eq!(r.lives, 0);
    assert_eq!(r.state, GameState::GameOver);
}

#[test]
fn clearing_a_wave_with_more_to_come_pauses() {
    let mut r = RunProgress::new();
    r.state = GameState::Playing;
    r.wave_cleared(3);
    assert_eq!(r.state, GameState::LevelCleared);
    assert_eq!(r.wave, 0);
}

#[test]
fn clearing_the_last_wave_wins() {
    let mut r = RunProgress::new();
    r.state = GameState::Playing;
    r.wave = 2;
    r.wave_cleared(3);
    assert_eq!(r.state, GameState::Win);
}

#[test]
fn entering_a_wave_past_the_end_wins() {
    let mut r = RunProgress::new();
    r.state = GameState::Playing;
    assert!(r.enter_wave(1, 2));
    assert_eq!(r.wave, 1);
    assert_eq!(r.state, GameState::Playing);
    assert!(!r.enter_wave(2, 2));
    assert_eq!(r.wave, 1);
    assert_eq!(r.state, GameState::Win);
}
