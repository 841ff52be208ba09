use std::collections::HashSet;

use ember_games::freecell::cards::{Card, Color, Rank, Suit, Zone};
use ember_games::freecell::deck::{deal, full_deck, shuffle};
use ember_games::freecell::game::{is_valid_sequence, Game};
use ember_games::game_state::GameState;
use ember_games::rng::next_state;

/// Draws for a Fisher-Yates shuffle of `n` items from a seeded xorshift generator.
fn picks_for(seed: u32, n: usize) -> Vec<usize> {
    let mut s = seed;
    let mut picks = Vec::new();
    for k in 0..n.saturating_sub(1) {
        s = next_state(s);
        picks.push((s as usize) % (n - k));
    }
    picks
}

fn game_with_seed(seed: u32) -> Game {
    let mut g = Game::new();
    g.start_game(seed, &picks_for(seed, 52));
    g
}

fn clear_table(g: &mut Game) {
    for c in g.columns.iter_mut() {
        c.clear();
    }
    for f in g.foundations.iter_mut() {
        f.clear();
    }
    for c in g.free_cells.iter_mut() {
        *c = None;
    }
}

// --- cards ---

#[test]
fn test_suit_colors() {
    assert_eq!(Suit::Heart.color(), Color::Red);
    assert_eq!(Suit::Diamond.color(), Color::Red);
    assert_eq!(Suit::Spade.color(), Color::Black);
    assert_eq!(Suit::Club.color(), Color::Black);
}

#[test]
fn test_rank_labels() {
    assert_eq!(Rank(1).label(), 'A');
    assert_eq!(Rank(2).label(), '2');
    assert_eq!(Rank(9).label(), '9');
    assert_eq!(Rank(10).label(), 'T');
    assert_eq!(Rank(11).label(), 'J');
    assert_eq!(Rank(12).label(), 'Q');
    assert_eq!(Rank(13).label(), 'K');
}

#[test]
fn test_rank_ordering() {
    assert!(Rank(1) < Rank(2));
    assert!(Rank(13) > Rank(12));
    assert!(Rank::ace() < Rank::king());
}

#[test]
fn test_suit_index_unique() {
    let mut seen = [false; 4];
    for s in Suit::ALL {
        assert!(!seen[s.index()], "suit index collision");
        seen[s.index()] = true;
    }
}

#[test]
fn test_card_symbol_and_ascii() {
    let h = Card::new(Suit::Heart, Rank(5));
    assert_eq!(h.symbol(), '♥');
    assert_eq!(h.ascii(), 'H');
    assert_eq!(h.color(), Color::Red);
    assert_eq!(h.rank_label(), '5');
}

#[test]
fn suit_from_index_inverts_index() {
    for s in Suit::ALL {
        assert_eq!(Suit::from_index(s.index()), s);
    }
}

#[test]
fn rank_value_and_face_labels() {
    assert_eq!(Rank(7).value(), 7);
    assert_eq!(Rank::ace().value(), 1);
    assert_eq!(Rank::king().value(), 13);
    assert_eq!(Card::new(Suit::Club, Rank(12)).rank_label(), 'Q');
    assert_eq!(Card::new(Suit::Spade, Rank(1)).symbol(), '♠');
    assert_eq!(Card::new(Suit::Diamond, Rank(1)).ascii(), 'D');
}

// --- deck ---

#[test]
fn test_full_deck_has_52_cards() {
    assert_eq!(full_deck().len(), 52);
}

#[test]
fn test_full_deck_has_4_of_each_rank() {
    let deck = full_deck();
    for r in 1..=13 {
        let count = deck.iter().filter(|c| c.rank.0 == r).count();
        assert_eq!(count, 4, "rank {r} appears {count} times");
    }
}

#[test]
fn test_full_deck_has_13_of_each_suit() {
    let deck = full_deck();
    for s in Suit::ALL {
        let count = deck.iter().filter(|c| c.suit == s).count();
        assert_eq!(count, 13, "suit {:?} appears {count} times", s);
    }
}

#[test]
fn test_full_deck_has_no_duplicates() {
    let deck = full_deck();
    let set: HashSet<_> = deck.iter().collect();
    assert_eq!(set.len(), 52, "deck contains duplicates");
}

#[test]
fn full_deck_is_in_canonical_order() {
    let deck = full_deck();
    assert_eq!(deck[0], Card::new(Suit::Spade, Rank(1)));
    assert_eq!(deck[12], Card::new(Suit::Spade, Rank(13)));
    assert_eq!(deck[13], Card::new(Suit::Heart, Rank(1)));
    assert_eq!(deck[51], Card::new(Suit::Club, Rank(13)));
}

#[test]
fn test_deal_is_deterministic() {
    let a = deal(&picks_for(42, 52));
    let b = deal(&picks_for(42, 52));
    assert_eq!(a, b);
}

#[test]
fn test_different_seeds_differ() {
    let a = deal(&picks_for(1, 52));
    let b = deal(&picks_for(2, 52));
    assert_ne!(a, b, "different seeds should produce different decks");
}

#[test]
fn test_deal_is_a_permutation() {
    let full: HashSet<_> = full_deck().into_iter().collect();
    let dealt: HashSet<_> = deal(&picks_for(123, 52)).into_iter().collect();
    assert_eq!(full, dealt);
}

#[test]
fn shuffle_with_zero_draws_rotates_by_swaps() {
    // Every draw 0: position i swaps with position 0, from the last down.
    let mut deck = vec![
        Card::new(Suit::Spade, Rank(1)),
        Card::new(Suit::Spade, Rank(2)),
        Card::new(Suit::Spade, Rank(3)),
    ];
    shuffle(&mut deck, &vec![0, 0]);
    assert_eq!(
        deck,
        vec![
            Card::new(Suit::Spade, Rank(2)),
            Card::new(Suit::Spade, Rank(3)),
            Card::new(Suit::Spade, Rank(1)),
        ]
    );
}

#[test]
fn shuffle_with_identity_draws_keeps_order() {
    let mut deck = full_deck();
    let picks: Vec<usize> = (0..51).map(|k| 51 - k).collect();
    shuffle(&mut deck, &picks);
    assert_eq!(deck, full_deck());
}

// --- start_game ---

#[test]
fn test_start_game_deals_4x7_plus_4x6() {
    let g = game_with_seed(1);
    for c in 0..4 {
        assert_eq!(g.columns[c].len(), 7);
    }
    for c in 4..8 {
        assert_eq!(g.columns[c].len(), 6);
    }
    let total: usize = g.columns.iter().map(|c| c.len()).sum();
    assert_eq!(total, 52);
}

#[test]
fn test_start_game_clears_state() {
    let mut g = Game::new();
    g.moves = 99;
    g.timer_running = true;
    g.start_game(1, &picks_for(1, 52));
    assert_eq!(g.moves, 0);
    assert!(!g.timer_running);
    assert!(g.history.is_empty());
    assert!(g.future.is_empty());
}

#[test]
fn test_start_game_sets_playing_state() {
    let g = game_with_seed(1);
    assert_eq!(g.state, GameState::Playing);
    assert_eq!(g.seed, 1);
}

#[test]
fn start_game_deals_the_shuffled_deck_column_by_column() {
    let picks = picks_for(5, 52);
    let deck = deal(&picks);
    let mut g = Game::new();
    g.start_game(5, &picks);
    assert_eq!(g.columns[0][0], deck[0]);
    assert_eq!(g.columns[0][6], deck[6]);
    assert_eq!(g.columns[1][0], deck[7]);
    assert_eq!(g.columns[4][0], deck[28]);
    assert_eq!(g.columns[7][5], deck[51]);
}

// --- placement rules ---

#[test]
fn test_can_place_on_empty_column() {
    let mut g = game_with_seed(1);
    g.columns[0].clear();
    assert!(g.can_place_on_column(Card::new(Suit::Heart, Rank(5)), 0));
}

#[test]
fn test_can_place_red_on_black_7_on_8() {
    let mut g = game_with_seed(1);
    g.columns[0].clear();
    g.columns[0].push(Card::new(Suit::Spade, Rank(8)));
    assert!(g.can_place_on_column(Card::new(Suit::Heart, Rank(7)), 0));
}

#[test]
fn test_cannot_place_same_color() {
    let mut g = game_with_seed(1);
    g.columns[0].clear();
    g.columns[0].push(Card::new(Suit::Spade, Rank(8)));
    assert!(!g.can_place_on_column(Card::new(Suit::Club, Rank(7)), 0));
}

#[test]
fn test_cannot_place_wrong_rank() {
    let mut g = game_with_seed(1);
    g.columns[0].clear();
    g.columns[0].push(Card::new(Suit::Spade, Rank(9)));
    assert!(!g.can_place_on_column(Card::new(Suit::Heart, Rank(7)), 0));
}

#[test]
fn test_ace_goes_to_empty_foundation() {
    let g = game_with_seed(1);
    let ace_of_hearts = Card::new(Suit::Heart, Rank::ace());
    assert!(g.can_place_on_foundation(ace_of_hearts, Suit::Heart.index()));
}

#[test]
fn test_ace_goes_only_to_its_color_foundation() {
    let g = game_with_seed(1);
    let ace_of_hearts = Card::new(Suit::Heart, Rank::ace());
    assert!(!g.can_place_on_foundation(ace_of_hearts, Suit::Spade.index()));
}

#[test]
fn test_foundation_accepts_ascending_same_suit() {
    let mut g = game_with_seed(1);
    let heart_idx = Suit::Heart.index();
    g.foundations[heart_idx].push(Card::new(Suit::Heart, Rank::ace()));
    assert!(g.can_place_on_foundation(Card::new(Suit::Heart, Rank(2)), heart_idx));
}

#[test]
fn test_foundation_rejects_wrong_suit() {
    let mut g = game_with_seed(1);
    let heart_idx = Suit::Heart.index();
    g.foundations[heart_idx].push(Card::new(Suit::Heart, Rank::ace()));
    assert!(!g.can_place_on_foundation(Card::new(Suit::Diamond, Rank(2)), heart_idx));
}

#[test]
fn test_cell_accepts_when_empty() {
    let g = game_with_seed(1);
    assert!(g.can_place_in_cell(0));
}

#[test]
fn test_cell_rejects_when_full() {
    let mut g = game_with_seed(1);
    g.free_cells[0] = Some(Card::new(Suit::Heart, Rank(5)));
    assert!(!g.can_place_in_cell(0));
}

#[test]
fn test_max_super_move_with_all_cells_and_no_empty_columns() {
    let g = game_with_seed(1);
    assert_eq!(g.max_super_move(), 5);
}

#[test]
fn test_max_super_move_with_one_empty_column() {
    let mut g = game_with_seed(1);
    g.columns[0].clear();
    assert_eq!(g.max_super_move(), 10);
}

#[test]
fn max_super_move_with_cells_taken_and_two_empty_columns() {
    let mut g = game_with_seed(1);
    g.columns[0].clear();
    g.columns[1].clear();
    g.free_cells[0] = Some(Card::new(Suit::Heart, Rank(5)));
    // (1 + 3 free cells) * 2^2
    assert_eq!(g.max_super_move(), 16);
}

#[test]
fn test_is_accessible_bottom_of_column() {
    let mut g = game_with_seed(1);
    g.columns[0].clear();
    g.columns[0].push(Card::new(Suit::Spade, Rank(8)));
    g.columns[0].push(Card::new(Suit::Heart, Rank(7)));
    assert!(g.is_accessible(Zone::Column(0), 1, 1));
}

#[test]
fn test_is_accessible_full_run_to_bottom() {
    let mut g = game_with_seed(1);
    g.columns[0].clear();
    g.columns[0].push(Card::new(Suit::Spade, Rank(8)));
    g.columns[0].push(Card::new(Suit::Heart, Rank(7)));
    assert!(g.is_accessible(Zone::Column(0), 0, 2));
}

#[test]
fn test_is_accessible_middle_card_is_not() {
    let mut g = game_with_seed(1);
    g.columns[0].clear();
    g.columns[0].push(Card::new(Suit::Spade, Rank(8)));
    g.columns[0].push(Card::new(Suit::Heart, Rank(7)));
    g.columns[0].push(Card::new(Suit::Club, Rank(6)));
    assert!(!g.is_accessible(Zone::Column(0), 1, 1));
    assert!(g.is_accessible(Zone::Column(0), 1, 2));
}

#[test]
fn test_is_accessible_free_cell_and_foundation() {
    let g = game_with_seed(1);
    assert!(g.is_accessible(Zone::FreeCell(0), 0, 1));
    assert!(g.is_accessible(Zone::Foundation(0), 0, 1));
}

// --- try_drop ---

#[test]
fn test_try_drop_valid_single_card_to_column() {
    let mut g = game_with_seed(1);
    g.columns[0].clear();
    g.columns[1].clear();
    g.columns[0].push(Card::new(Suit::Spade, Rank(8)));
    g.columns[1].push(Card::new(Suit::Heart, Rank(7)));
    let card = Card::new(Suit::Heart, Rank(7));
    let ok = g.try_drop(Zone::Column(1), Zone::Column(0), &[card], 0);
    assert!(ok);
    assert_eq!(g.columns[0].len(), 2);
    assert_eq!(g.columns[0][0], Card::new(Suit::Spade, Rank(8)));
    assert_eq!(g.columns[0][1], Card::new(Suit::Heart, Rank(7)));
    assert_eq!(g.columns[1].len(), 0);
    assert_eq!(g.moves, 1);
    assert!(g.timer_running);
}

#[test]
fn test_try_drop_invalid_is_rejected_and_state_unchanged() {
    let mut g = game_with_seed(1);
    g.columns[0].clear();
    g.columns[1].clear();
    g.columns[0].push(Card::new(Suit::Spade, Rank(8)));
    g.columns[1].push(Card::new(Suit::Club, Rank(7)));
    let card = Card::new(Suit::Club, Rank(7));
    let ok = g.try_drop(Zone::Column(1), Zone::Column(0), &[card], 0);
    assert!(!ok);
    assert_eq!(g.columns[0].len(), 1);
    assert_eq!(g.columns[1].len(), 1);
    assert_eq!(g.moves, 0);
}

#[test]
fn test_try_drop_to_cell() {
    let mut g = game_with_seed(1);
    let card = g.columns[0][0];
    g.columns[0].clear();
    g.columns[0].push(card);
    let ok = g.try_drop(Zone::Column(0), Zone::FreeCell(0), &[card], 0);
    assert!(ok);
    assert_eq!(g.free_cells[0], Some(card));
}

#[test]
fn test_try_drop_to_foundation_ace() {
    let mut g = game_with_seed(1);
    g.columns[0].clear();
    g.columns[0].push(Card::new(Suit::Heart, Rank::ace()));
    let card = Card::new(Suit::Heart, Rank::ace());
    let heart_idx = Suit::Heart.index();
    let ok = g.try_drop(Zone::Column(0), Zone::Foundation(heart_idx), &[card], 0);
    assert!(ok);
    assert_eq!(g.foundations[heart_idx].len(), 1);
}

#[test]
fn test_try_drop_sequence_from_bottom_of_column() {
    let mut g = game_with_seed(1);
    g.columns[0].clear();
    g.columns[1].clear();
    g.columns[0].push(Card::new(Suit::Spade, Rank(13)));
    g.columns[0].push(Card::new(Suit::Heart, Rank(12)));
    g.columns[0].push(Card::new(Suit::Club, Rank(11)));
    g.columns[0].push(Card::new(Suit::Diamond, Rank(10)));
    let cards = vec![Card::new(Suit::Club, Rank(11)), Card::new(Suit::Diamond, Rank(10))];
    let ok = g.try_drop(Zone::Column(0), Zone::Column(1), &cards, 2);
    assert!(ok);
    assert_eq!(g.columns[0].len(), 2);
    assert_eq!(g.columns[0][0], Card::new(Suit::Spade, Rank(13)));
    assert_eq!(g.columns[0][1], Card::new(Suit::Heart, Rank(12)));
    assert_eq!(g.columns[1].len(), 2);
    assert_eq!(g.columns[1][0], Card::new(Suit::Club, Rank(11)));
    assert_eq!(g.columns[1][1], Card::new(Suit::Diamond, Rank(10)));
}

#[test]
fn test_try_drop_middle_of_column_is_rejected() {
    let mut g = game_with_seed(1);
    g.columns[0].clear();
    g.columns[1].clear();
    g.columns[0].push(Card::new(Suit::Spade, Rank(13)));
    g.columns[0].push(Card::new(Suit::Heart, Rank(12)));
    g.columns[0].push(Card::new(Suit::Club, Rank(11)));
    g.columns[0].push(Card::new(Suit::Diamond, Rank(10)));
    let cards = vec![Card::new(Suit::Heart, Rank(12)), Card::new(Suit::Club, Rank(11))];
    let ok = g.try_drop(Zone::Column(0), Zone::Column(1), &cards, 1);
    assert!(!ok, "middle of a column must not be draggable");
    assert_eq!(g.columns[0].len(), 4);
    assert_eq!(g.columns[1].len(), 0);
}

#[test]
fn test_drop_multi_card_on_cell_is_rejected() {
    let mut g = game_with_seed(1);
    g.columns[0].clear();
    g.columns[0].push(Card::new(Suit::Spade, Rank(8)));
    g.columns[0].push(Card::new(Suit::Heart, Rank(7)));
    let cards = vec![Card::new(Suit::Spade, Rank(8)), Card::new(Suit::Heart, Rank(7))];
    let ok = g.try_drop(Zone::Column(0), Zone::FreeCell(0), &cards, 0);
    assert!(!ok, "a cell accepts only one card");
    assert_eq!(g.columns[0].len(), 2);
    assert!(g.free_cells[0].is_none());
}

#[test]
fn try_drop_does_not_look_at_the_phase() {
    let mut g = Game::new();
    g.columns[0].push(Card::new(Suit::Heart, Rank(1)));
    let ok = g.try_drop(
        Zone::Column(0),
        Zone::Foundation(Suit::Heart.index()),
        &[Card::new(Suit::Heart, Rank(1))],
        0,
    );
    assert!(ok);
    assert_eq!(g.moves, 1);
    assert_eq!(g.state, GameState::Start);
}

#[test]
fn try_drop_from_a_zone_onto_itself_is_rejected() {
    let mut g = two_card_table();
    let card = Card::new(Suit::Heart, Rank(7));
    assert!(!g.try_drop(Zone::Column(1), Zone::Column(1), &[card], 0));
    assert!(!g.try_drop(Zone::Column(1), Zone::Column(0), &[], 0));
    assert_eq!(g.moves, 0);
}

#[test]
fn try_drop_rejects_a_run_longer_than_super_move_allows() {
    let mut g = game_with_seed(1);
    clear_table(&mut g);
    // Cells all taken, no empty column but the target: capacity (1 + 0) * 2 = 2 when the
    // target column is empty; three cards cannot go.
    for c in 0..4 {
        g.free_cells[c] = Some(Card::new(Suit::Club, Rank(2 + c as u8)));
    }
    for col in 2..8 {
        g.columns[col].push(Card::new(Suit::Diamond, Rank(1 + col as u8)));
    }
    g.columns[0].push(Card::new(Suit::Spade, Rank(13)));
    g.columns[0].push(Card::new(Suit::Heart, Rank(12)));
    g.columns[0].push(Card::new(Suit::Spade, Rank(11)));
    let cards = g.columns[0].clone();
    assert!(!g.try_drop(Zone::Column(0), Zone::Column(1), &cards, 0));
    assert_eq!(g.columns[0].len(), 3);
}

// --- is_valid_sequence ---

#[test]
fn test_is_valid_sequence_descending_alternating() {
    let seq = vec![
        Card::new(Suit::Heart, Rank(7)),
        Card::new(Suit::Spade, Rank(6)),
        Card::new(Suit::Diamond, Rank(5)),
    ];
    assert!(is_valid_sequence(&seq));
}

#[test]
fn test_is_valid_sequence_wrong_order() {
    let seq = vec![Card::new(Suit::Heart, Rank(7)), Card::new(Suit::Spade, Rank(5))];
    assert!(!is_valid_sequence(&seq));
}

#[test]
fn test_is_valid_sequence_same_color() {
    let seq = vec![Card::new(Suit::Heart, Rank(7)), Card::new(Suit::Diamond, Rank(6))];
    assert!(!is_valid_sequence(&seq));
}

#[test]
fn is_valid_sequence_empty_and_single() {
    assert!(!is_valid_sequence(&[]));
    assert!(is_valid_sequence(&[Card::new(Suit::Club, Rank(3))]));
}

// --- win ---

#[test]
fn test_check_win_when_foundations_complete() {
    let mut g = game_with_seed(1);
    for f in 0..4 {
        for r in 1..=13 {
            let suit = Suit::ALL[f];
            g.foundations[f].push(Card::new(suit, Rank(r)));
        }
    }
    assert!(g.foundations.iter().all(|f| f.len() == 13));
}

#[test]
fn test_full_easy_solve_known_sequence() {
    let mut g = game_with_seed(1);
    clear_table(&mut g);
    let all_suits = [Suit::Spade, Suit::Heart, Suit::Diamond, Suit::Club];
    for (col_idx, suit) in all_suits.iter().enumerate() {
        for rank in (1..=13).rev() {
            g.columns[col_idx].push(Card::new(*suit, Rank(rank)));
        }
    }
    for (col, suit) in all_suits.iter().enumerate() {
        let foundation_idx = suit.index();
        for _ in 0..13 {
            let len = g.columns[col].len();
            let card = g.columns[col][len - 1];
            let ok = g.try_drop(Zone::Column(col), Zone::Foundation(foundation_idx), &[card], len - 1);
            assert!(ok, "drop of {:?} on foundation {} failed", card, foundation_idx);
        }
    }
    assert_eq!(g.moves, 52);
    assert_eq!(g.state, GameState::Win);
    assert!(!g.timer_running);
    assert!(g.foundations.iter().all(|f| f.len() == 13));
}

#[test]
fn test_win_after_all_foundations_filled() {
    let mut g = game_with_seed(1);
    clear_table(&mut g);
    for f in 0..4 {
        let suit = Suit::ALL[f];
        let max_rank = if f == 0 { 12 } else { 13 };
        for r in 1..=max_rank {
            g.foundations[f].push(Card::new(suit, Rank(r)));
        }
    }
    g.columns[0].push(Card::new(Suit::Spade, Rank(13)));
    assert!(g.try_drop(
        Zone::Column(0),
        Zone::Foundation(Suit::Spade.index()),
        &[Card::new(Suit::Spade, Rank(13))],
        0,
    ));
    assert_eq!(g.state, GameState::Win);
}

#[test]
fn test_super_move_sequence_to_empty_column() {
    let mut g = game_with_seed(1);
    clear_table(&mut g);
    g.columns[0].push(Card::new(Suit::Spade, Rank(13)));
    g.columns[0].push(Card::new(Suit::Heart, Rank(12)));
    g.columns[0].push(Card::new(Suit::Spade, Rank(11)));
    let cards = g.columns[0].clone();
    assert_eq!(cards.len(), 3);
    let ok = g.try_drop(Zone::Column(0), Zone::Column(1), &cards, 0);
    assert!(ok);
    assert!(g.columns[0].is_empty());
    assert_eq!(g.columns[1].len(), 3);
    assert_eq!(g.columns[1][0], Card::new(Suit::Spade, Rank(13)));
    assert_eq!(g.columns[1][1], Card::new(Suit::Heart, Rank(12)));
    assert_eq!(g.columns[1][2], Card::new(Suit::Spade, Rank(11)));
}

#[test]
fn test_dealt_board_contains_all_52_unique_cards() {
    let g = game_with_seed(7);
    let mut seen: HashSet<Card> = HashSet::new();
    for col in &g.columns {
        for c in col {
            assert!(seen.insert(*c), "duplicate card in dealt board: {:?}", c);
        }
    }
    assert_eq!(seen.len(), 52);
}

// --- undo / redo ---

fn two_card_table() -> Game {
    let mut g = game_with_seed(1);
    g.columns[0].clear();
    g.columns[1].clear();
    g.columns[0].push(Card::new(Suit::Spade, Rank(8)));
    g.columns[1].push(Card::new(Suit::Heart, Rank(7)));
    g
}

#[test]
fn test_undo_restores_previous_state() {
    let mut g = two_card_table();
    let card = Card::new(Suit::Heart, Rank(7));
    assert!(g.try_drop(Zone::Column(1), Zone::Column(0), &[card], 0));
    assert_eq!(g.columns[0].len(), 2);
    assert_eq!(g.moves, 1);
    assert!(g.undo());
    assert_eq!(g.columns[0].len(), 1);
    assert_eq!(g.columns[1].len(), 1);
    assert_eq!(g.moves, 0);
}

#[test]
fn test_redo_after_undo() {
    let mut g = two_card_table();
    let card = Card::new(Suit::Heart, Rank(7));
    assert!(g.try_drop(Zone::Column(1), Zone::Column(0), &[card], 0));
    assert!(g.undo());
    assert!(g.redo());
    assert_eq!(g.columns[0].len(), 2);
    assert_eq!(g.moves, 1);
}

#[test]
fn test_undo_then_new_move_clears_redo() {
    let mut g = two_card_table();
    g.columns[2].clear();
    g.columns[2].push(Card::new(Suit::Club, Rank(6)));
    let c7 = Card::new(Suit::Heart, Rank(7));
    assert!(g.try_drop(Zone::Column(1), Zone::Column(0), &[c7], 0));
    assert!(g.undo());
    assert!(!g.future.is_empty());
    let c6 = Card::new(Suit::Club, Rank(6));
    assert!(g.try_drop(Zone::Column(2), Zone::Column(1), &[c6], 0));
    assert!(g.future.is_empty());
}

#[test]
fn test_undo_with_empty_history_returns_false() {
    let mut g = game_with_seed(1);
    assert!(!g.undo());
}

#[test]
fn test_redo_with_empty_future_returns_false() {
    let mut g = game_with_seed(1);
    assert!(!g.redo());
}

#[test]
fn test_undo_redo_roundtrip() {
    let mut g = game_with_seed(1);
    clear_table(&mut g);
    g.columns[0].push(Card::new(Suit::Spade, Rank(8)));
    g.columns[1].push(Card::new(Suit::Heart, Rank(7)));
    let before_move = g.columns.clone();
    assert!(g.try_drop(Zone::Column(1), Zone::Column(0), &[Card::new(Suit::Heart, Rank(7))], 0));
    let after_move = g.columns.clone();
    assert_eq!(g.moves, 1);
    assert!(g.undo());
    assert_eq!(g.columns, before_move);
    assert_eq!(g.moves, 0);
    assert!(g.redo());
    assert_eq!(g.columns, after_move);
    assert_eq!(g.moves, 1);
}

#[test]
fn test_timer_starts_on_first_move() {
    let mut g = two_card_table();
    assert!(!g.timer_running);
    let c7 = Card::new(Suit::Heart, Rank(7));
    assert!(g.try_drop(Zone::Column(1), Zone::Column(0), &[c7], 0));
    assert!(g.timer_running);
}

// --- drag_cards ---

#[test]
fn test_drag_cards_top_of_column_returns_valid_run() {
    let mut g = game_with_seed(1);
    g.columns[0].clear();
    g.columns[0].push(Card::new(Suit::Spade, Rank(8)));
    g.columns[0].push(Card::new(Suit::Heart, Rank(7)));
    g.columns[0].push(Card::new(Suit::Club, Rank(6)));
    let cards = g.drag_cards(Zone::Column(0), 0);
    assert_eq!(cards.len(), 3);
    assert_eq!(cards[0], Card::new(Suit::Spade, Rank(8)));
    assert_eq!(cards[1], Card::new(Suit::Heart, Rank(7)));
    assert_eq!(cards[2], Card::new(Suit::Club, Rank(6)));
}

#[test]
fn test_drag_cards_stops_at_break() {
    let mut g = game_with_seed(1);
    g.columns[0].clear();
    g.columns[0].push(Card::new(Suit::Spade, Rank(13)));
    g.columns[0].push(Card::new(Suit::Heart, Rank(12)));
    g.columns[0].push(Card::new(Suit::Club, Rank(7)));
    g.columns[0].push(Card::new(Suit::Diamond, Rank(6)));
    let cards = g.drag_cards(Zone::Column(0), 0);
    assert_eq!(cards.len(), 2);
    assert_eq!(cards[0], Card::new(Suit::Spade, Rank(13)));
    assert_eq!(cards[1], Card::new(Suit::Heart, Rank(12)));
}

#[test]
fn test_drag_cards_from_middle_of_column() {
    let mut g = game_with_seed(1);
    g.columns[0].clear();
    g.columns[0].push(Card::new(Suit::Spade, Rank(13)));
    g.columns[0].push(Card::new(Suit::Heart, Rank(12)));
    g.columns[0].push(Card::new(Suit::Club, Rank(11)));
    let cards = g.drag_cards(Zone::Column(0), 1);
    assert_eq!(cards.len(), 2);
    assert_eq!(cards[0], Card::new(Suit::Heart, Rank(12)));
    assert_eq!(cards[1], Card::new(Suit::Club, Rank(11)));
}

#[test]
fn drag_cards_from_cell_and_foundation() {
    let mut g = game_with_seed(1);
    let c = Card::new(Suit::Heart, Rank(9));
    g.free_cells[2] = Some(c);
    assert_eq!(g.drag_cards(Zone::FreeCell(2), 0), vec![c]);
    assert!(g.drag_cards(Zone::FreeCell(1), 0).is_empty());
    g.foundations[0].push(Card::new(Suit::Spade, Rank(1)));
    g.foundations[0].push(Card::new(Suit::Spade, Rank(2)));
    assert_eq!(g.drag_cards(Zone::Foundation(0), 0), vec![Card::new(Suit::Spade, Rank(2))]);
}

#[test]
fn test_super_move_two_cards_to_empty_column() {
    let mut g = game_with_seed(1);
    g.columns[0].clear();
    g.columns[1].clear();
    g.columns[0].push(Card::new(Suit::Spade, Rank(13)));
    g.columns[0].push(Card::new(Suit::Heart, Rank(12)));
    let cards = g.drag_cards(Zone::Column(0), 0);
    assert_eq!(cards.len(), 2);
    let ok = g.try_drop(Zone::Column(0), Zone::Column(1), &cards, 0);
    assert!(ok);
    assert_eq!(g.columns[0].len(), 0);
    assert_eq!(g.columns[1].len(), 2);
    assert_eq!(g.columns[1][0], Card::new(Suit::Spade, Rank(13)));
    assert_eq!(g.columns[1][1], Card::new(Suit::Heart, Rank(12)));
}

// --- drag state machine ---

#[test]
fn test_default_is_idle() {
    let g = Game::new();
    assert!(g.drag.is_idle());
    assert!(!g.drag.is_pressing());
    assert!(!g.drag.is_dragging());
}

#[test]
fn test_start_drag_on_empty_space_does_nothing() {
    let mut g = game_with_seed(1);
    g.start_drag(None);
    assert!(g.drag.is_idle());
}

#[test]
fn test_start_drag_on_bottom_band_sets_pressing() {
    let mut g = game_with_seed(1);
    let last = g.columns[0].len() - 1;
    g.start_drag(Some((Zone::Column(0), last)));
    assert!(g.drag.is_pressing());
}

#[test]
fn test_start_drag_on_foundation_is_ignored() {
    let mut g = game_with_seed(1);
    g.foundations[0].push(Card::new(Suit::Spade, Rank(1)));
    g.start_drag(Some((Zone::Foundation(0), 0)));
    assert!(g.drag.is_idle());
}

#[test]
fn test_start_drag_on_middle_band_is_rejected() {
    let mut g = game_with_seed(1);
    g.columns[0].clear();
    g.columns[0].push(Card::new(Suit::Spade, Rank(13)));
    g.columns[0].push(Card::new(Suit::Spade, Rank(12)));
    g.columns[0].push(Card::new(Suit::Heart, Rank(11)));
    // K♠ Q♠ do not form a run: pressing on K♠ cannot take the column.
    g.start_drag(Some((Zone::Column(0), 0)));
    assert!(g.drag.is_idle());
}

#[test]
fn test_end_drag_without_dragging_does_nothing() {
    let mut g = game_with_seed(1);
    let last = g.columns[0].len() - 1;
    g.start_drag(Some((Zone::Column(0), last)));
    g.end_drag(Some(Zone::FreeCell(0)));
    assert!(g.drag.is_idle());
    assert_eq!(g.moves, 0);
    assert!(g.free_cells[0].is_none());
}

#[test]
fn test_cancel_drag_resets_to_idle() {
    let mut g = game_with_seed(1);
    let last = g.columns[0].len() - 1;
    g.start_drag(Some((Zone::Column(0), last)));
    g.begin_dragging();
    assert!(g.drag.is_dragging());
    g.cancel_drag();
    assert!(g.drag.is_idle());
}

#[test]
fn test_full_drag_drop_to_free_cell() {
    let mut g = game_with_seed(1);
    let last = g.columns[0].len() - 1;
    let card = g.columns[0][last];
    g.start_drag(Some((Zone::Column(0), last)));
    g.begin_dragging();
    assert!(g.can_drop_at(Zone::FreeCell(0)));
    g.end_drag(Some(Zone::FreeCell(0)));
    assert!(g.drag.is_idle());
    assert_eq!(g.free_cells[0], Some(card));
    assert_eq!(g.columns[0].len(), last);
    assert_eq!(g.moves, 1);
}

// --- hint ---

#[test]
fn test_find_hint_returns_foundation_move_without_changing_state() {
    let mut g = game_with_seed(1);
    g.columns[0].clear();
    let ace = Card::new(Suit::Heart, Rank::ace());
    g.columns[0].push(ace);
    let columns_before = g.columns.clone();
    let foundations_before = g.foundations.clone();
    let cells_before = g.free_cells.clone();
    let hint = g.find_hint().expect("expected foundation hint");
    assert_eq!(hint.from, Zone::Column(0));
    assert_eq!(hint.to, Zone::Foundation(Suit::Heart.index()));
    assert_eq!(hint.card, ace);
    assert_eq!(g.columns, columns_before);
    assert_eq!(g.foundations, foundations_before);
    assert_eq!(g.free_cells, cells_before);
    assert_eq!(g.moves, 0);
    assert!(!g.timer_running);
}

#[test]
fn test_find_hint_returns_none_when_not_playing() {
    let g = Game::new();
    assert!(g.find_hint().is_none());
}

#[test]
fn test_hint_returns_none_when_no_move_exists() {
    let mut g = game_with_seed(1);
    clear_table(&mut g);
    for f in 0..4 {
        let suit = Suit::ALL[f];
        for rank in 1..=13 {
            g.foundations[f].push(Card::new(suit, Rank(rank)));
        }
    }
    assert!(g.find_hint().is_none());
}

#[test]
fn hint_is_a_legal_move() {
    // The hint is a single bottom card, and try_drop accepts it.
    let mut g = game_with_seed(1);
    clear_table(&mut g);
    g.columns[0].push(Card::new(Suit::Spade, Rank(8)));
    g.columns[1].push(Card::new(Suit::Heart, Rank(7)));
    let h = g.find_hint().expect("a move exists");
    // No foundation move; the first column move is 8♠ to the first empty column.
    assert_eq!(h.from, Zone::Column(0));
    assert_eq!(h.to, Zone::Column(2));
    assert_eq!(h.card, Card::new(Suit::Spade, Rank(8)));
    assert!(g.try_drop(h.from, h.to, &[h.card], 0));
    assert_eq!(g.columns[2], vec![Card::new(Suit::Spade, Rank(8))]);
}

#[test]
fn moves_keep_all_52_cards_on_the_table() {
    let mut g = game_with_seed(11);
    // Move whatever can go: hints, repeatedly, then check every card is still there once.
    for _ in 0..20 {
        match g.find_hint() {
            Some(h) => {
                let from_col = match h.from {
                    Zone::Column(c) => c,
                    _ => unreachable!(),
                };
                let start = g.columns[from_col].len() - 1;
                assert!(g.try_drop(h.from, h.to, &[h.card], start));
            }
            None => break,
        }
    }
    let mut seen: HashSet<Card> = HashSet::new();
    let mut total = 0;
    for col in &g.columns {
        for c in col {
            seen.insert(*c);
            total += 1;
        }
    }
    for f in &g.foundations {
        for c in f {
            seen.insert(*c);
            total += 1;
        }
    }
    for c in g.free_cells.iter().flatten() {
        seen.insert(*c);
        total += 1;
    }
    assert_eq!(total, 52);
    assert_eq!(seen.len(), 52);
}

#[test]
fn test_is_being_dragged_marks_the_dragged_stack_only() {
    let mut g = game_with_seed(1);
    let last = g.columns[0].len() - 1;
    assert!(!g.is_being_dragged(0, last));
    g.start_drag(Some((Zone::Column(0), last)));
    // Pressing is not dragging yet.
    assert!(!g.is_being_dragged(0, last));
    g.begin_dragging();
    assert!(g.is_being_dragged(0, last));
    assert!(!g.is_being_dragged(0, last - 1));
    assert!(!g.is_being_dragged(0, last + 1));
    assert!(!g.is_being_dragged(1, last));
    g.cancel_drag();
    assert!(!g.is_being_dragged(0, last));
}
