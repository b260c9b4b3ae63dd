// The per-caller table view, the archive record builder, and the ckBTC
// recipient check.

use holdem::account::verify_ckbtc_transfer;
use holdem::currency::Currency;
use holdem::engine::Engine;
use holdem::table::{GamePhase, PlayerAction, TableConfig};

fn heads_up_config() -> TableConfig {
    TableConfig {
        small_blind: 10,
        big_blind: 20,
        min_buy_in: 200,
        max_buy_in: 1000,
        max_players: 2,
        action_timeout_secs: 30,
        ante: 0,
        time_bank_secs: 30,
        currency: Currency::ICP,
    }
}

fn seed32() -> Vec<u8> {
    (1u8..=32).collect()
}

const A: u64 = 101;
const B: u64 = 102;

fn start_heads_up(now: u64) -> Engine {
    let mut engine = Engine::new(heads_up_config(), 1).unwrap();
    engine.credit_push_deposit(A, 1_000_000).unwrap();
    engine.credit_push_deposit(B, 1_000_000).unwrap();
    engine.buy_in(A, 0, 1000, now).unwrap();
    engine.buy_in(B, 1, 1000, now).unwrap();
    engine.start_hand_with_seed(seed32(), now).unwrap();
    engine
}

#[test]
fn ckbtc_transfer_check_is_exact() {
    let me = vec![1u8, 2, 3, 4];
    assert!(verify_ckbtc_transfer(&vec![1, 2, 3, 4], &me, 50));
    assert!(!verify_ckbtc_transfer(&vec![1, 2, 3, 4], &me, 0));
    assert!(!verify_ckbtc_transfer(&vec![1, 2, 3, 5], &me, 50));
    assert!(!verify_ckbtc_transfer(&vec![1, 2, 3], &me, 50));
}

#[test]
fn table_view_hides_opponent_cards_during_hand() {
    let now = 10;
    let engine = start_heads_up(now);
    let view_a = engine.get_table_view(A, now);
    let mine = view_a.players[0].as_ref().unwrap();
    let theirs = view_a.players[1].as_ref().unwrap();
    assert!(mine.is_self);
    assert!(mine.hole_cards.is_some());
    assert!(!theirs.is_self);
    assert!(theirs.hole_cards.is_none());
    assert_eq!(view_a.pot, 30);
    assert_eq!(view_a.phase, GamePhase::PreFlop);
    // The view never carries the deck: only public fields are present.
    assert_eq!(view_a.community_cards.len(), 0);
}

#[test]
fn table_view_reveals_unfolded_cards_at_hand_end() {
    let now = 10;
    let mut engine = start_heads_up(now);
    // Seat 1 is the dealer and small blind heads-up and acts first.
    engine.player_action(B, PlayerAction::Call, now).unwrap();
    engine.player_action(A, PlayerAction::Check, now).unwrap();
    // Check the hand down to showdown.
    for _ in 0..3 {
        engine.player_action(A, PlayerAction::Check, now).unwrap();
        if engine.table.phase != GamePhase::HandComplete {
            engine.player_action(B, PlayerAction::Check, now).unwrap();
        }
    }
    assert_eq!(engine.table.phase, GamePhase::HandComplete);
    let view_b = engine.get_table_view(B, now);
    assert!(view_b.players[0].as_ref().unwrap().hole_cards.is_some());
    assert!(view_b.players[1].as_ref().unwrap().hole_cards.is_some());
}

#[test]
fn table_view_shows_folded_cards_only_after_show() {
    let now = 10;
    let mut engine = start_heads_up(now);
    engine.player_action(B, PlayerAction::Fold, now).unwrap();
    assert_eq!(engine.table.phase, GamePhase::HandComplete);
    let view_a = engine.get_table_view(A, now);
    // The folded seat's cards stay hidden at hand end.
    assert!(view_a.players[1].as_ref().unwrap().hole_cards.is_none());
    engine.show_cards(B).unwrap();
    let view_a2 = engine.get_table_view(A, now);
    assert!(view_a2.players[1].as_ref().unwrap().hole_cards.is_some());
}

#[test]
fn archive_record_mirrors_finished_hand() {
    let now = 10;
    let mut engine = start_heads_up(now);
    assert!(engine.build_hand_history_record().is_none());
    engine.player_action(B, PlayerAction::Fold, now).unwrap();
    let rec = engine.build_hand_history_record().unwrap();
    assert_eq!(rec.hand_number, 1);
    assert_eq!(rec.table_id, 1);
    assert_eq!(rec.small_blind, 10);
    assert_eq!(rec.big_blind, 20);
    let entry = engine.hand_history.last().unwrap();
    assert_eq!(rec.actions.len(), entry.actions.len());
    assert_eq!(rec.winners.len(), entry.winners.len());
    assert_eq!(rec.winners[0].seat, 0);
    assert_eq!(rec.winners[0].amount, 30);
    assert_eq!(rec.total_pot, 30);
    assert!(!rec.went_to_showdown);
    assert!(rec.flop.is_none());
    // The commitment travels with the record, seed revealed.
    assert!(!rec.shuffle_proof.seed_hash.is_empty());
    assert!(!rec.shuffle_proof.revealed_seed.is_empty());
}

#[test]
fn restored_deposit_record_blocks_recredit() {
    let mut engine = Engine::new(heads_up_config(), 1).unwrap();
    engine.restore_credited_deposit(77, A);
    let now = 10;
    assert!(engine.begin_deposit(A, 77, now).is_err());
    assert_eq!(engine.get_balance(A), 0);
}

#[test]
fn player_count_counts_taken_seats() {
    let now = 10;
    let mut engine = Engine::new(heads_up_config(), 1).unwrap();
    assert_eq!(engine.get_player_count(), 0);
    engine.credit_push_deposit(A, 1_000_000).unwrap();
    engine.buy_in(A, 0, 1000, now).unwrap();
    assert_eq!(engine.get_player_count(), 1);
}
