// Full-table scenarios: blinds, betting, timeouts, showdowns, the
// commit-reveal proof, deposits and withdrawals.

use holdem::currency::Currency;
use holdem::engine::{Engine, TimeoutCheckResult};
use holdem::shuffle::verify_shuffle;
use holdem::table::{GameError, GamePhase, PlayerAction, TableConfig};

const SEC: u64 = 1_000_000_000;

fn heads_up_config() -> TableConfig {
    TableConfig {
        small_blind: 10,
        big_blind: 20,
        min_buy_in: 200,
        max_buy_in: 1000,
        max_players: 2,
        action_timeout_secs: 30,
        ante: 0,
        time_bank_secs: 30,
        currency: Currency::ICP,
    }
}

fn three_handed_config() -> TableConfig {
    TableConfig { max_players: 3, ..heads_up_config() }
}

fn seed32() -> Vec<u8> {
    (1u8..=32).collect()
}

fn fund(engine: &mut Engine, id: u64, amount: u64) {
    engine.credit_push_deposit(id, amount).unwrap();
}

fn chips_at(engine: &Engine, seat: usize) -> u64 {
    engine.table.players[seat].as_ref().unwrap().chips
}

fn total_chips(engine: &Engine) -> u64 {
    engine.table.players.iter().flatten().map(|p| p.chips).sum()
}

const A: u64 = 101;
const B: u64 = 102;
const C: u64 = 103;

/// Heads-up: seat 1 is the dealer and small blind, seat 0 the big blind.
fn start_heads_up(chips_a: u64, chips_b: u64, now: u64) -> Engine {
    let mut engine = Engine::new(heads_up_config(), 1).unwrap();
    fund(&mut engine, A, 1_000_000);
    fund(&mut engine, B, 1_000_000);
    engine.buy_in(A, 0, chips_a, now).unwrap();
    engine.buy_in(B, 1, chips_b, now).unwrap();
    engine.start_hand_with_seed(seed32(), now).unwrap();
    engine
}

#[test]
fn test_preflop_bb_option_check_through() {
    // Blinds 10/20, both stacks 1000: the small blind completes, the big
    // blind checks its option, and the flop comes with a 40-chip pot.
    let now = 1_000 * SEC;
    let mut engine = start_heads_up(1000, 1000, now);
    assert_eq!(engine.table.phase, GamePhase::PreFlop);
    assert_eq!(engine.table.dealer_seat, engine.table.small_blind_seat);
    let sb_seat = engine.table.small_blind_seat as usize;
    let bb_seat = engine.table.big_blind_seat as usize;
    let sb_id = engine.table.players[sb_seat].as_ref().unwrap().principal;
    let bb_id = engine.table.players[bb_seat].as_ref().unwrap().principal;
    // The small blind acts first pre-flop.
    assert_eq!(engine.table.action_on as usize, sb_seat);
    engine.player_action(sb_id, PlayerAction::Call, now + SEC).unwrap();
    engine.player_action(bb_id, PlayerAction::Check, now + 2 * SEC).unwrap();
    assert_eq!(engine.table.phase, GamePhase::Flop);
    assert_eq!(engine.table.pot, 40);
    assert_eq!(chips_at(&engine, 0), 980);
    assert_eq!(chips_at(&engine, 1), 980);
    assert_eq!(engine.table.current_bet, 0);
    // Post-flop the big blind acts first.
    assert_eq!(engine.table.action_on as usize, bb_seat);
}

#[test]
fn test_fold_out_single_winner() {
    // Three seats with 500 each: the seat under the gun raises to 60 and
    // both blinds fold; the raiser takes 90 with no rank recorded.
    let now = 1_000 * SEC;
    let mut engine = Engine::new(three_handed_config(), 2).unwrap();
    for (id, seat) in [(A, 0u8), (B, 1u8), (C, 2u8)] {
        fund(&mut engine, id, 1_000_000);
        engine.buy_in(id, seat, 500, now).unwrap();
    }
    engine.start_hand_with_seed(seed32(), now).unwrap();
    let utg = engine.table.action_on as usize;
    let utg_id = engine.table.players[utg].as_ref().unwrap().principal;
    engine.player_action(utg_id, PlayerAction::Raise(60), now + SEC).unwrap();
    let next = engine.table.action_on as usize;
    let next_id = engine.table.players[next].as_ref().unwrap().principal;
    engine.player_action(next_id, PlayerAction::Fold, now + 2 * SEC).unwrap();
    let last = engine.table.action_on as usize;
    let last_id = engine.table.players[last].as_ref().unwrap().principal;
    engine.player_action(last_id, PlayerAction::Fold, now + 3 * SEC).unwrap();
    assert_eq!(engine.table.phase, GamePhase::HandComplete);
    assert_eq!(engine.table.pot, 0);
    assert_eq!(engine.last_hand_winners.len(), 1);
    assert_eq!(engine.last_hand_winners[0].amount, 90);
    assert!(engine.last_hand_winners[0].hand_rank.is_none());
    assert!(engine.last_hand_winners[0].cards.is_none());
    assert_eq!(chips_at(&engine, utg), 500 - 60 + 90);
}

#[test]
fn test_all_in_runout_conserves_chips() {
    // The short stack shoves, the big stack calls, the board runs out, and
    // every chip that went in comes back out to some seat.
    let now = 1_000 * SEC;
    let mut engine = start_heads_up(1000, 200, now);
    let before = total_chips(&engine) + engine.table.pot;
    let sb_seat = engine.table.small_blind_seat as usize;
    let sb_id = engine.table.players[sb_seat].as_ref().unwrap().principal;
    let bb_seat = engine.table.big_blind_seat as usize;
    let bb_id = engine.table.players[bb_seat].as_ref().unwrap().principal;
    engine.player_action(sb_id, PlayerAction::AllIn, now + SEC).unwrap();
    engine.player_action(bb_id, PlayerAction::Call, now + 2 * SEC).unwrap();
    assert_eq!(engine.table.phase, GamePhase::HandComplete);
    assert_eq!(engine.table.pot, 0);
    assert_eq!(total_chips(&engine), before);
    let paid: u64 = engine.last_hand_winners.iter().map(|w| w.amount).sum();
    assert!(paid > 0);
}

#[test]
fn test_conservation_across_hand() {
    // Chips plus escrow balances stay constant from deal to payout.
    let now = 1_000 * SEC;
    let mut engine = start_heads_up(1000, 1000, now);
    let before = total_chips(&engine) + engine.table.pot + engine.get_balance(A)
        + engine.get_balance(B);
    let sb_seat = engine.table.small_blind_seat as usize;
    let sb_id = engine.table.players[sb_seat].as_ref().unwrap().principal;
    engine.player_action(sb_id, PlayerAction::Fold, now + SEC).unwrap();
    assert_eq!(engine.table.phase, GamePhase::HandComplete);
    let after = total_chips(&engine) + engine.table.pot + engine.get_balance(A)
        + engine.get_balance(B);
    assert_eq!(before, after);
}

#[test]
fn test_commit_reveal_verifies() {
    // The hash published before dealing matches the seed revealed after
    // the hand, and the public verifier accepts the pair.
    let now = 1_000 * SEC;
    let mut engine = start_heads_up(1000, 1000, now);
    let during = engine.get_shuffle_proof().unwrap();
    assert!(during.revealed_seed.is_none());
    let sb_seat = engine.table.small_blind_seat as usize;
    let sb_id = engine.table.players[sb_seat].as_ref().unwrap().principal;
    engine.player_action(sb_id, PlayerAction::Fold, now + SEC).unwrap();
    let proof = engine.get_shuffle_proof().unwrap();
    let revealed = proof.revealed_seed.clone().unwrap();
    assert_eq!(revealed, holdem::hex::encode(&seed32()));
    assert!(verify_shuffle(proof.seed_hash, revealed));
}

#[test]
fn test_verify_shuffle_rejects_wrong_seed() {
    let now = 1_000 * SEC;
    let mut engine = start_heads_up(1000, 1000, now);
    let sb_seat = engine.table.small_blind_seat as usize;
    let sb_id = engine.table.players[sb_seat].as_ref().unwrap().principal;
    engine.player_action(sb_id, PlayerAction::Fold, now + SEC).unwrap();
    let proof = engine.get_shuffle_proof().unwrap();
    let wrong = holdem::hex::encode(&vec![9u8; 32]);
    assert!(!verify_shuffle(proof.seed_hash, wrong));
}

#[test]
fn test_timeout_folds_acting_seat() {
    // The action clock runs out: the seat on action is folded, its strike
    // counter rises, and the fold is logged.
    let now = 1_000 * SEC;
    let mut engine = start_heads_up(1000, 1000, now);
    let acting = engine.table.action_on as usize;
    let log_before = engine.current_actions.len();
    let result = engine.check_timeouts(now + 31 * SEC);
    assert_eq!(result, TimeoutCheckResult::PlayerTimedOut(acting as u8));
    assert_eq!(engine.current_actions.len(), log_before + 1);
    // The hand ended at once: the lone remaining seat took the pot.
    assert_eq!(engine.table.phase, GamePhase::HandComplete);
}

#[test]
fn test_check_timeouts_idempotent_at_same_instant() {
    let now = 1_000 * SEC;
    let mut engine = start_heads_up(1000, 1000, now);
    let later = now + 31 * SEC;
    let _ = engine.check_timeouts(later);
    let pot1 = engine.table.pot;
    let phase1 = engine.table.phase;
    let chips1 = total_chips(&engine);
    let log1 = engine.current_actions.len();
    let second = engine.check_timeouts(later);
    assert_eq!(engine.table.pot, pot1);
    assert_eq!(engine.table.phase, phase1);
    assert_eq!(total_chips(&engine), chips1);
    assert_eq!(engine.current_actions.len(), log1);
    // The second sweep only reports the auto-deal state.
    assert!(matches!(second, TimeoutCheckResult::AutoDealReady | TimeoutCheckResult::NoAction));
}

#[test]
fn test_deposit_notify_idempotent() {
    // The same block index is never credited twice: the second attempt is
    // refused as a reservation error and the balance does not move.
    let now = 1_000 * SEC;
    let mut engine = Engine::new(heads_up_config(), 3).unwrap();
    engine.begin_deposit(A, 77, now).unwrap();
    let bal = engine.settle_deposit(A, 77, Some(50_000)).unwrap();
    assert_eq!(bal, 50_000);
    assert_eq!(engine.get_balance(A), 50_000);
    let again = engine.begin_deposit(A, 77, now + SEC);
    assert_eq!(again, Err(GameError::Reservation));
    assert_eq!(engine.get_balance(A), 50_000);
}

#[test]
fn test_deposit_pending_blocks_concurrent_attempt() {
    let now = 1_000 * SEC;
    let mut engine = Engine::new(heads_up_config(), 3).unwrap();
    engine.begin_deposit(A, 5, now).unwrap();
    assert_eq!(engine.begin_deposit(B, 5, now), Err(GameError::Reservation));
}

#[test]
fn test_deposit_not_found_at_ledger() {
    let now = 1_000 * SEC;
    let mut engine = Engine::new(heads_up_config(), 3).unwrap();
    engine.begin_deposit(A, 9, now).unwrap();
    assert_eq!(engine.settle_deposit(A, 9, None), Err(GameError::NotFound));
    assert_eq!(engine.get_balance(A), 0);
}

#[test]
fn test_withdrawal_refund_on_ledger_failure() {
    // Balance 1,000,000; withdraw 500,000; the ledger fails: the balance
    // is back in full and the reservation is gone.
    let now = 1_000 * SEC;
    let mut engine = Engine::new(heads_up_config(), 4).unwrap();
    fund(&mut engine, A, 1_000_000);
    engine.begin_withdraw(A, 500_000, now).unwrap();
    assert_eq!(engine.get_balance(A), 500_000);
    engine.finish_withdraw(A, now, false);
    assert_eq!(engine.get_balance(A), 1_000_000);
    assert_eq!(engine.pending_withdrawals.get(A), 0);
    // No cooldown was recorded for the failed attempt.
    assert!(engine.begin_withdraw(A, 500_000, now + SEC).is_ok());
}

#[test]
fn test_withdrawal_cooldown_after_success() {
    let now = 1_000 * SEC;
    let mut engine = Engine::new(heads_up_config(), 4).unwrap();
    fund(&mut engine, A, 1_000_000);
    engine.begin_withdraw(A, 200_000, now).unwrap();
    engine.finish_withdraw(A, now, true);
    assert_eq!(engine.get_balance(A), 800_000);
    assert_eq!(engine.begin_withdraw(A, 200_000, now + SEC), Err(GameError::RateLimit));
    assert!(engine.begin_withdraw(A, 200_000, now + 61 * SEC).is_ok());
}

#[test]
fn test_withdraw_limits() {
    let now = 1_000 * SEC;
    let mut engine = Engine::new(heads_up_config(), 4).unwrap();
    fund(&mut engine, A, 20_000_000_000);
    assert_eq!(engine.begin_withdraw(A, 5, now), Err(GameError::Precondition));
    assert_eq!(
        engine.begin_withdraw(A, 10_000_000_001, now),
        Err(GameError::Precondition)
    );
    assert_eq!(engine.begin_withdraw(A, 30_000_000_000, now), Err(GameError::Precondition));
}

#[test]
fn test_buy_in_errors() {
    let now = 1_000 * SEC;
    let mut engine = Engine::new(heads_up_config(), 5).unwrap();
    fund(&mut engine, A, 500);
    // Below the table minimum.
    assert_eq!(engine.buy_in(A, 0, 100, now), Err(GameError::Precondition));
    // More than the escrow balance holds.
    assert_eq!(engine.buy_in(A, 0, 900, now), Err(GameError::Arithmetic));
    fund(&mut engine, A, 10_000);
    engine.buy_in(A, 0, 500, now).unwrap();
    // The seat is taken now.
    fund(&mut engine, B, 10_000);
    assert_eq!(engine.buy_in(B, 0, 500, now), Err(GameError::Precondition));
    // One caller cannot take two seats.
    assert_eq!(engine.buy_in(A, 1, 500, now), Err(GameError::Precondition));
}

#[test]
fn test_invalid_config_refused() {
    let mut config = heads_up_config();
    config.small_blind = 0;
    assert!(Engine::new(config, 9).is_err());
    let mut config = heads_up_config();
    config.max_players = 1;
    assert!(Engine::new(config, 9).is_err());
    let mut config = heads_up_config();
    config.ante = config.big_blind + 1;
    assert!(Engine::new(config, 9).is_err());
}

#[test]
fn test_action_out_of_turn_rejected() {
    // Only the seat holding the action pointer may act.
    let now = 1_000 * SEC;
    let mut engine = start_heads_up(1000, 1000, now);
    let bb_seat = engine.table.big_blind_seat as usize;
    let bb_id = engine.table.players[bb_seat].as_ref().unwrap().principal;
    assert_ne!(engine.table.action_on as usize, bb_seat);
    assert_eq!(
        engine.player_action(bb_id, PlayerAction::Call, now + SEC),
        Err(GameError::Precondition)
    );
}

#[test]
fn test_action_rate_limit() {
    let now = 1_000 * SEC;
    let mut engine = start_heads_up(1000, 1000, now);
    // An outsider hammers the table within one window; the bucket empties.
    let mut last = Ok(());
    for _ in 0..11 {
        last = engine.player_action(999, PlayerAction::Fold, now + 1);
    }
    assert_eq!(last, Err(GameError::RateLimit));
}

#[test]
fn test_bet_and_raise_legality() {
    let now = 1_000 * SEC;
    let mut engine = start_heads_up(1000, 1000, now);
    let sb_seat = engine.table.small_blind_seat as usize;
    let sb_id = engine.table.players[sb_seat].as_ref().unwrap().principal;
    // Pre-flop there is already a bet: betting is illegal, raising below
    // the minimum raise is illegal.
    assert_eq!(
        engine.player_action(sb_id, PlayerAction::Bet(50), now + SEC),
        Err(GameError::Precondition)
    );
    assert_eq!(
        engine.player_action(sb_id, PlayerAction::Raise(25), now + SEC),
        Err(GameError::Arithmetic)
    );
    // A raise to 40 (one full raise) is legal.
    engine.player_action(sb_id, PlayerAction::Raise(40), now + SEC).unwrap();
    assert_eq!(engine.table.current_bet, 40);
}

#[test]
fn test_heads_up_positions() {
    // Heads-up: the dealer posts the small blind and acts first pre-flop;
    // the big blind acts first on later streets.
    let now = 1_000 * SEC;
    let engine = start_heads_up(1000, 1000, now);
    assert_eq!(engine.table.dealer_seat, engine.table.small_blind_seat);
    assert_ne!(engine.table.small_blind_seat, engine.table.big_blind_seat);
    assert_eq!(engine.table.action_on, engine.table.small_blind_seat);
}

#[test]
fn test_cash_out_returns_chips_to_escrow() {
    let now = 1_000 * SEC;
    let mut engine = Engine::new(heads_up_config(), 6).unwrap();
    fund(&mut engine, A, 10_000);
    engine.buy_in(A, 0, 500, now).unwrap();
    assert_eq!(engine.get_balance(A), 9_500);
    let chips = engine.cash_out(A).unwrap();
    assert_eq!(chips, 500);
    assert_eq!(engine.get_balance(A), 10_000);
    assert!(engine.table.players[0].is_none());
}

#[test]
fn test_reload_only_between_hands() {
    let now = 1_000 * SEC;
    let mut engine = start_heads_up(500, 500, now);
    let sb_seat = engine.table.small_blind_seat as usize;
    let sb_id = engine.table.players[sb_seat].as_ref().unwrap().principal;
    assert_eq!(engine.reload(sb_id, 100), Err(GameError::Precondition));
    engine.player_action(sb_id, PlayerAction::Fold, now + SEC).unwrap();
    let reloaded = engine.reload(sb_id, 100).unwrap();
    assert_eq!(reloaded, 500 - 10 + 100);
}

#[test]
fn test_show_cards_only_after_fold_or_showdown() {
    let now = 1_000 * SEC;
    let mut engine = start_heads_up(1000, 1000, now);
    let sb_seat = engine.table.small_blind_seat as usize;
    let sb_id = engine.table.players[sb_seat].as_ref().unwrap().principal;
    let bb_seat = engine.table.big_blind_seat as usize;
    let bb_id = engine.table.players[bb_seat].as_ref().unwrap().principal;
    assert_eq!(engine.show_cards(sb_id), Err(GameError::Precondition));
    engine.player_action(sb_id, PlayerAction::Fold, now + SEC).unwrap();
    assert!(engine.show_cards(sb_id).is_ok());
    assert!(engine.did_player_show(sb_seat as u8));
    assert!(engine.get_shown_cards(sb_seat as u8).is_some());
    assert!(engine.show_cards(bb_id).is_ok());
}

#[test]
fn test_my_cards_visible_to_owner_only() {
    let now = 1_000 * SEC;
    let engine = start_heads_up(1000, 1000, now);
    assert!(engine.get_my_cards(A).is_some());
    assert!(engine.get_my_cards(B).is_some());
    assert!(engine.get_my_cards(999).is_none());
}

#[test]
fn test_heartbeat_reconnects() {
    let now = 1_000 * SEC;
    let mut engine = Engine::new(heads_up_config(), 7).unwrap();
    fund(&mut engine, A, 10_000);
    engine.buy_in(A, 0, 500, now).unwrap();
    // Half a minute of silence marks the seat disconnected.
    let _ = engine.check_timeouts(now + 31 * SEC);
    assert!(matches!(
        engine.table.players[0].as_ref().unwrap().status,
        holdem::table::PlayerStatus::Disconnected
    ));
    engine.heartbeat(A, now + 32 * SEC).unwrap();
    assert!(matches!(
        engine.table.players[0].as_ref().unwrap().status,
        holdem::table::PlayerStatus::Active
    ));
}

#[test]
fn test_idle_seat_kicked_with_chips_returned() {
    let now = 1_000 * SEC;
    let mut engine = Engine::new(heads_up_config(), 7).unwrap();
    fund(&mut engine, A, 10_000);
    engine.buy_in(A, 0, 500, now).unwrap();
    engine.sit_out(A, now).unwrap();
    let _ = engine.check_timeouts(now + 121 * SEC);
    assert!(engine.table.players[0].is_none());
    assert_eq!(engine.get_balance(A), 10_000);
}

#[test]
fn test_use_time_bank_extends_clock_once() {
    let now = 1_000 * SEC;
    let mut engine = start_heads_up(1000, 1000, now);
    let acting = engine.table.action_on as usize;
    let acting_id = engine.table.players[acting].as_ref().unwrap().principal;
    let left = engine.use_time_bank(acting_id, now + SEC).unwrap();
    assert_eq!(left, 0);
    assert!(engine.get_action_timer().unwrap().using_time_bank);
    assert_eq!(
        engine.use_time_bank(acting_id, now + 2 * SEC),
        Err(GameError::Precondition)
    );
}

#[test]
fn test_start_hand_requires_two_ready_seats() {
    let now = 1_000 * SEC;
    let mut engine = Engine::new(heads_up_config(), 8).unwrap();
    fund(&mut engine, A, 10_000);
    engine.buy_in(A, 0, 500, now).unwrap();
    assert!(!engine.can_start_hand());
    assert!(engine.start_hand_with_seed(seed32(), now).is_err());
}

#[test]
fn test_join_table_buys_minimum() {
    let now = 1_000 * SEC;
    let mut engine = Engine::new(heads_up_config(), 8).unwrap();
    fund(&mut engine, A, 10_000);
    engine.join_table(A, 1, now).unwrap();
    assert_eq!(chips_at(&engine, 1), 200);
    assert_eq!(engine.get_balance(A), 9_800);
}

#[test]
fn test_shuffled_deck_drives_the_deal() {
    // The dealt hole cards are exactly the first cards of the seed's
    // shuffle of the canonical deck.
    let now = 1_000 * SEC;
    let engine = start_heads_up(1000, 1000, now);
    let mut deck = holdem::cards::create_deck();
    holdem::shuffle::shuffle_deck(&mut deck, &seed32());
    let p0 = engine.table.players[0].as_ref().unwrap().hole_cards.unwrap();
    assert_eq!(p0.0, deck[0]);
    assert_eq!(p0.1, deck[1]);
    let p1 = engine.table.players[1].as_ref().unwrap().hole_cards.unwrap();
    assert_eq!(p1.0, deck[2]);
    assert_eq!(p1.1, deck[3]);
}

#[test]
fn test_pot_equals_total_bets_through_betting() {
    let now = 1_000 * SEC;
    let mut engine = start_heads_up(1000, 1000, now);
    let sum_bets = |e: &Engine| -> u64 {
        e.table.players.iter().flatten().map(|p| p.total_bet_this_hand).sum()
    };
    assert_eq!(engine.table.pot, sum_bets(&engine));
    let sb_id = engine.table.players[engine.table.small_blind_seat as usize]
        .as_ref()
        .unwrap()
        .principal;
    engine.player_action(sb_id, PlayerAction::Raise(60), now + SEC).unwrap();
    assert_eq!(engine.table.pot, sum_bets(&engine));
    let bb_id = engine.table.players[engine.table.big_blind_seat as usize]
        .as_ref()
        .unwrap()
        .principal;
    engine.player_action(bb_id, PlayerAction::Call, now + 2 * SEC).unwrap();
    assert_eq!(engine.table.pot, sum_bets(&engine));
}

#[test]
fn test_account_identifier_shape() {
    // 4 checksum bytes plus a 28-byte digest, hex twice as long; the
    // identifier is a function of the owner bytes.
    let owner_a: Vec<u8> = vec![1, 2, 3, 4, 5];
    let owner_b: Vec<u8> = vec![9, 9, 9];
    let sub = holdem::account::default_subaccount();
    let id_a = holdem::account::compute_account_identifier(&owner_a, &sub);
    let id_b = holdem::account::compute_account_identifier(&owner_b, &sub);
    assert_eq!(id_a.len(), 32);
    assert_eq!(id_a, holdem::account::compute_account_identifier(&owner_a, &sub));
    assert_ne!(id_a, id_b);
    let addr = holdem::account::deposit_address_hex(&owner_a);
    assert_eq!(addr.len(), 64);
    assert_eq!(addr, holdem::hex::encode(&id_a));
}

#[test]
fn test_verify_icp_transfer_checks_recipient_and_amount() {
    let owner: Vec<u8> = vec![1, 2, 3];
    let sub = holdem::account::default_subaccount();
    let expected = holdem::account::compute_account_identifier(&owner, &sub);
    assert!(holdem::account::verify_icp_transfer(&expected, &expected, 5));
    assert!(!holdem::account::verify_icp_transfer(&expected, &expected, 0));
    let mut wrong = expected.clone();
    wrong[0] = wrong[0].wrapping_add(1);
    assert!(!holdem::account::verify_icp_transfer(&wrong, &expected, 5));
}
