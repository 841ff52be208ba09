use std::collections::HashMap;

use ember_games::game_state::GameState;
use ember_games::memory::components::{Card, CardState, Symbol};
use ember_games::memory::difficulties::{fallback, DifficultyData};
use ember_games::memory::systems::{build_deck, symbol_char, Game, SelectionPhase, SYMBOL_COUNT};
use ember_games::rng::next_state;

/// Draws for a Fisher-Yates shuffle of `n` items from a seeded xorshift generator.
fn picks_for(seed: u32, n: usize) -> Vec<usize> {
    let mut s = seed;
    let mut picks = Vec::new();
    for k in 0..n.saturating_sub(1) {
        s = next_state(s);
        picks.push((s as usize) % (n - k));
    }
    picks
}

fn game_with(name: &str, cols: usize, rows: usize, pairs: usize, seed: u32) -> Game {
    let mut g = Game::new(vec![DifficultyData { name: name.to_string(), cols, rows, pairs }]);
    g.start_game(&picks_for(seed, pairs * 2));
    g
}

fn card(g: &Game, c: usize, r: usize) -> Card {
    g.card(c, r).unwrap()
}

fn find_pair(g: &Game, same: bool) -> Option<((usize, usize), (usize, usize))> {
    for r1 in 0..g.rows {
        for c1 in 0..g.cols {
            if !card(g, c1, r1).is_hidden() {
                continue;
            }
            let s1 = card(g, c1, r1).symbol;
            for r2 in 0..g.rows {
                for c2 in 0..g.cols {
                    if (c1, r1) == (c2, r2) || !card(g, c2, r2).is_hidden() {
                        continue;
                    }
                    if (card(g, c2, r2).symbol == s1) == same {
                        return Some(((c1, r1), (c2, r2)));
                    }
                }
            }
        }
    }
    None
}

// --- components ---

#[test]
fn test_card_starts_hidden() {
    let c = Card::new(Symbol('$'));
    assert!(c.is_hidden());
    assert!(c.is_clickable());
    assert!(!c.is_flipped());
    assert!(!c.is_matched());
}

#[test]
fn test_symbol_roundtrip() {
    let s = Symbol('>');
    assert_eq!(s.as_char(), '>');
}

#[test]
fn test_card_state_transitions() {
    let mut c = Card::new(Symbol('§'));
    c.state = CardState::Flipped;
    assert!(c.is_flipped());
    assert!(!c.is_clickable());
    c.state = CardState::Matched;
    assert!(c.is_matched());
    assert!(!c.is_clickable());
}

// --- difficulties ---

#[test]
fn test_fallback_is_valid() {
    let list = fallback();
    assert_eq!(list.len(), 1);
    assert!(list[0].is_valid());
    assert_eq!(list[0].card_count(), 16);
}

#[test]
fn is_valid_rejects_odd_and_empty_boards() {
    let d = DifficultyData { name: "Odd".to_string(), cols: 3, rows: 3, pairs: 4 };
    assert!(!d.is_valid());
    let e = DifficultyData { name: "Empty".to_string(), cols: 0, rows: 4, pairs: 0 };
    assert!(!e.is_valid());
    assert_eq!(e.card_count(), 0);
}

// --- deck ---

#[test]
fn symbol_table_starts_and_ends() {
    assert_eq!(SYMBOL_COUNT, 25);
    assert_eq!(symbol_char(0), '$');
    assert_eq!(symbol_char(1), '§');
    assert_eq!(symbol_char(17), '\\');
    assert_eq!(symbol_char(24), '<');
}

#[test]
fn test_deck_has_two_of_each_symbol() {
    let cards = build_deck(8, &picks_for(42, 16));
    assert_eq!(cards.len(), 16);
    let mut counts: HashMap<char, usize> = HashMap::new();
    for c in &cards {
        *counts.entry(c.symbol.as_char()).or_insert(0) += 1;
    }
    for (sym, n) in &counts {
        assert_eq!(*n, 2, "symbol '{sym}' appears {n} times");
    }
    assert_eq!(counts.len(), 8);
    assert!(cards.iter().all(|c| c.is_hidden()));
}

#[test]
fn test_deck_is_shuffled_deterministic() {
    let a = build_deck(8, &picks_for(123, 16));
    let b = build_deck(8, &picks_for(123, 16));
    assert_eq!(a, b);
    let c = build_deck(8, &picks_for(999, 16));
    assert_ne!(a, c, "different seeds should shuffle differently");
}

#[test]
fn deck_unshuffled_pairs_are_adjacent() {
    // Draws that swap every position with itself keep the dealt order.
    let picks: Vec<usize> = (0..5).map(|k| 5 - k).collect();
    let cards = build_deck(3, &picks);
    assert_eq!(cards[0].symbol, Symbol('$'));
    assert_eq!(cards[1].symbol, Symbol('$'));
    assert_eq!(cards[2].symbol, Symbol('§'));
    assert_eq!(cards[4].symbol, Symbol('>'));
}

#[test]
fn deck_wraps_around_the_symbol_table() {
    let cards = build_deck(26, &picks_for(5, 52));
    let dollars = cards.iter().filter(|c| c.symbol == Symbol('$')).count();
    assert_eq!(dollars, 4);
}

// --- game ---

#[test]
fn systems_test_start_game_sets_playing_state() {
    let mut g = Game::new(fallback());
    assert_eq!(g.state, GameState::Start);
    g.start_game(&picks_for(1, 16));
    assert_eq!(g.state, GameState::Playing);
    assert_eq!(g.pairs_found, 0);
    assert!(!g.timer_running);
    assert_eq!(g.selection, SelectionPhase::Idle);
    assert_eq!(g.total_pairs, 8);
}

#[test]
fn test_reveal_flips_hidden_card_and_starts_timer() {
    let mut g = game_with("Easy", 4, 4, 8, 42);
    assert!(card(&g, 0, 0).is_hidden());
    assert!(!g.timer_running);
    g.reveal_card(0, 0);
    assert!(card(&g, 0, 0).is_flipped());
    assert!(g.timer_running);
    assert_eq!(g.selection, SelectionPhase::FirstPick { col: 0, row: 0 });
}

#[test]
fn test_reveal_same_card_twice_is_ignored() {
    let mut g = game_with("Easy", 4, 4, 8, 42);
    g.reveal_card(0, 0);
    let before = g.selection;
    g.reveal_card(0, 0);
    assert_eq!(g.selection, before);
}

#[test]
fn reveal_before_start_is_ignored() {
    let mut g = Game::new(fallback());
    g.reveal_card(0, 0);
    assert!(card(&g, 0, 0).is_hidden());
    assert!(!g.timer_running);
}

#[test]
fn reveal_off_the_board_is_ignored() {
    let mut g = game_with("Easy", 4, 4, 8, 42);
    g.reveal_card(4, 0);
    assert_eq!(g.selection, SelectionPhase::Idle);
    assert!(!g.timer_running);
}

#[test]
fn test_match_marks_both_matched() {
    let mut g = game_with("Easy", 4, 4, 8, 42);
    let ((c1, r1), (c2, r2)) = find_pair(&g, true).expect("deck must have matching pairs");
    g.reveal_card(c1, r1);
    g.reveal_card(c2, r2);
    assert!(card(&g, c1, r1).is_matched());
    assert!(card(&g, c2, r2).is_matched());
    assert_eq!(g.pairs_found, 1);
    assert_eq!(g.selection, SelectionPhase::Idle);
}

#[test]
fn test_no_match_starts_resolving_phase() {
    let mut g = game_with("Easy", 4, 4, 8, 42);
    let ((c1, r1), (c2, r2)) = find_pair(&g, false).expect("deck must have different pairs");
    g.reveal_card(c1, r1);
    g.reveal_card(c2, r2);
    assert!(matches!(g.selection, SelectionPhase::Resolving { .. }));
    assert!(card(&g, c1, r1).is_flipped());
    assert!(card(&g, c2, r2).is_flipped());
    assert!(!g.is_playable());
}

#[test]
fn test_resolving_blocks_clicks() {
    let mut g = game_with("Easy", 4, 4, 8, 42);
    let ((c1, r1), (c2, r2)) = find_pair(&g, false).unwrap();
    g.reveal_card(c1, r1);
    g.reveal_card(c2, r2);
    let mut third = None;
    'find: for r in 0..g.rows {
        for c in 0..g.cols {
            if (c, r) != (c1, r1) && (c, r) != (c2, r2) {
                third = Some((c, r));
                break 'find;
            }
        }
    }
    let (c3, r3) = third.unwrap();
    let before = g.selection;
    g.reveal_card(c3, r3);
    assert_eq!(g.selection, before, "click during Resolving is ignored");
    assert!(card(&g, c3, r3).is_hidden(), "third card not flipped");
}

#[test]
fn test_resolving_ends_after_delay() {
    let mut g = game_with("Easy", 4, 4, 8, 42);
    let ((c1, r1), (c2, r2)) = find_pair(&g, false).unwrap();
    g.reveal_card(c1, r1);
    g.reveal_card(c2, r2);
    assert!(matches!(g.selection, SelectionPhase::Resolving { .. }));
    g.end_mismatch();
    assert_eq!(g.selection, SelectionPhase::Idle);
    assert!(card(&g, c1, r1).is_hidden());
    assert!(card(&g, c2, r2).is_hidden());
    assert!(g.is_playable());
}

#[test]
fn end_mismatch_outside_resolving_does_nothing() {
    let mut g = game_with("Easy", 4, 4, 8, 42);
    g.reveal_card(0, 0);
    g.end_mismatch();
    assert_eq!(g.selection, SelectionPhase::FirstPick { col: 0, row: 0 });
    assert!(card(&g, 0, 0).is_flipped());
}

#[test]
fn test_win_when_all_pairs_matched() {
    let mut g = game_with("Tiny", 2, 2, 2, 42);
    for _ in 0..2 {
        let ((c1, r1), (c2, r2)) = find_pair(&g, true).expect("must find a pair");
        g.reveal_card(c1, r1);
        g.reveal_card(c2, r2);
    }
    assert_eq!(g.pairs_found, 2);
    assert_eq!(g.state, GameState::Win);
    assert!(!g.timer_running);
}

#[test]
fn test_is_resolving_at() {
    let mut g = game_with("Easy", 4, 4, 8, 42);
    assert!(!g.is_resolving_at(0, 0));
    let ((c1, r1), (c2, r2)) = find_pair(&g, false).unwrap();
    g.reveal_card(c1, r1);
    g.reveal_card(c2, r2);
    assert!(g.is_resolving_at(c1, r1));
    assert!(g.is_resolving_at(c2, r2));
    for r in 0..g.rows {
        for c in 0..g.cols {
            if (c, r) != (c1, r1) && (c, r) != (c2, r2) {
                assert!(!g.is_resolving_at(c, r));
            }
        }
    }
}

#[test]
fn test_full_easy_playthrough() {
    let mut g = game_with("Easy", 4, 4, 8, 42);
    for _ in 0..8 {
        let ((c1, r1), (c2, r2)) = find_pair(&g, true).expect("deck must have pairs");
        g.reveal_card(c1, r1);
        g.reveal_card(c2, r2);
    }
    assert_eq!(g.pairs_found, 8);
    assert_eq!(g.state, GameState::Win);
    assert!(!g.timer_running);
    for r in 0..4 {
        for c in 0..4 {
            assert!(card(&g, c, r).is_matched());
        }
    }
}

#[test]
fn test_no_match_cycles_back_to_hidden() {
    let mut g = game_with("Easy", 4, 4, 8, 7);
    let ((c1, r1), (c2, r2)) = find_pair(&g, false).unwrap();
    g.reveal_card(c1, r1);
    g.reveal_card(c2, r2);
    assert!(matches!(g.selection, SelectionPhase::Resolving { .. }));
    g.end_mismatch();
    assert_eq!(g.selection, SelectionPhase::Idle);
    assert_eq!(card(&g, c1, r1).state, CardState::Hidden);
    assert_eq!(card(&g, c2, r2).state, CardState::Hidden);
    assert_eq!(g.pairs_found, 0);
}

#[test]
fn test_medium_and_hard_deck_sizes() {
    for (name, cols, rows, pairs) in [("Medium", 6, 6, 18), ("Hard", 8, 8, 32)] {
        let g = game_with(name, cols, rows, pairs, 1234);
        assert_eq!(g.cols, cols, "{name}: wrong cols");
        assert_eq!(g.rows, rows, "{name}: wrong rows");
        assert_eq!(g.total_pairs, pairs, "{name}: wrong total_pairs");
        assert_eq!(g.board.len(), cols * rows, "{name}: wrong card count");
        for r in 0..rows {
            for c in 0..cols {
                assert!(card(&g, c, r).is_hidden(), "{name}: card ({c},{r}) not hidden at start");
            }
        }
    }
}
