//! The table's data model and its well-formedness.
//!
//! A table is a fixed array of seats, a pot, a phase, and the dealing and
//! betting pointers.  The central invariants: while a hand is live the pot
//! holds exactly the sum of what the seats have bet this hand, at least
//! two seats are still in the hand, and a seat that has money in the hand
//! was dealt cards.

use vstd::prelude::*;

use crate::cards::Card;
use crate::currency::Currency;
use crate::pots::SidePot;
use crate::shuffle::ShuffleProof;

verus! {

/// An action a player may take when it is their turn.
#[derive(Clone, Copy, Debug, PartialEq, Eq, Structural)]
pub enum PlayerAction {
    Fold,
    Check,
    Call,
    Bet(u64),
    Raise(u64),
    AllIn,
}

/// Where the hand stands.
#[derive(Clone, Copy, Debug, PartialEq, Eq, Structural)]
pub enum GamePhase {
    WaitingForPlayers,
    PreFlop,
    Flop,
    Turn,
    River,
    Showdown,
    HandComplete,
}

/// A seated player's connection state.
#[derive(Clone, Copy, Debug, PartialEq, Eq, Structural)]
pub enum PlayerStatus {
    Active,
    SittingOut,
    Disconnected,
}

/// The last action taken, kept for display.
#[derive(Clone, Copy, Debug, PartialEq, Eq, Structural)]
pub enum LastAction {
    Fold,
    Check,
    Call { amount: u64 },
    Bet { amount: u64 },
    Raise { amount: u64 },
    AllIn { amount: u64 },
    PostBlind { amount: u64 },
}

/// Who acted last, and when.
#[derive(Clone, Copy, Debug)]
pub struct LastActionInfo {
    pub seat: u8,
    pub action: LastAction,
    pub timestamp: u64,
}

/// The running action clock for the seat on action.
#[derive(Clone, Copy, Debug)]
pub struct ActionTimer {
    pub player_seat: u8,
    pub started_at: u64,
    pub expires_at: u64,
    pub using_time_bank: bool,
}

/// The table's stakes and limits.
#[derive(Clone, Copy, Debug)]
pub struct TableConfig {
    pub small_blind: u64,
    pub big_blind: u64,
    pub min_buy_in: u64,
    pub max_buy_in: u64,
    pub max_players: u8,
    pub action_timeout_secs: u64,
    pub ante: u64,
    pub time_bank_secs: u64,
    pub currency: Currency,
}

/// A seated player.  `principal` is the numeric identity of the caller
/// that owns the seat.
#[derive(Clone, Copy, Debug)]
pub struct Player {
    pub principal: u64,
    pub seat: u8,
    pub chips: u64,
    pub hole_cards: Option<(Card, Card)>,
    pub current_bet: u64,
    pub total_bet_this_hand: u64,
    pub has_folded: bool,
    pub has_acted_this_round: bool,
    pub is_all_in: bool,
    pub status: PlayerStatus,
    pub last_seen: u64,
    pub timeout_count: u8,
    pub time_bank_remaining: u64,
    pub is_sitting_out_next_hand: bool,
    pub broke_at: Option<u64>,
    pub sitting_out_since: Option<u64>,
}

/// The authoritative per-table game state.
pub struct TableState {
    pub id: u64,
    pub config: TableConfig,
    pub players: Vec<Option<Player>>,
    pub community_cards: Vec<Card>,
    pub deck: Vec<Card>,
    pub deck_index: usize,
    pub pot: u64,
    pub side_pots: Vec<SidePot>,
    pub current_bet: u64,
    pub min_raise: u64,
    pub phase: GamePhase,
    pub dealer_seat: u8,
    pub small_blind_seat: u8,
    pub big_blind_seat: u8,
    pub action_on: u8,
    pub action_timer: Option<ActionTimer>,
    pub shuffle_proof: Option<ShuffleProof>,
    pub hand_number: u64,
    pub last_aggressor: Option<u8>,
    pub bb_has_option: bool,
    pub first_hand: bool,
    pub auto_deal_at: Option<u64>,
    pub last_action: Option<LastActionInfo>,
}

/// A betting round is running.
pub open spec fn phase_live(p: GamePhase) -> bool {
    p is PreFlop || p is Flop || p is Turn || p is River
}

/// Chips a seat holds.
pub open spec fn seat_chips(op: Option<Player>) -> int {
    match op {
        Some(p) => p.chips as int,
        None => 0,
    }
}

/// What a seat has bet into the pot this hand.
pub open spec fn seat_bet(op: Option<Player>) -> int {
    match op {
        Some(p) => p.total_bet_this_hand as int,
        None => 0,
    }
}

/// The seat was dealt in and has not folded.
pub open spec fn in_hand(op: Option<Player>) -> bool {
    match op {
        Some(p) => !p.has_folded && p.hole_cards is Some,
        None => false,
    }
}

/// Sum of chips across the seats.
pub open spec fn seats_money(ps: Seq<Option<Player>>) -> int
    decreases ps.len(),
{
    if ps.len() == 0 {
        0
    } else {
        seats_money(ps.drop_last()) + seat_chips(ps.last())
    }
}

/// Sum of this hand's bets across the seats.
pub open spec fn seats_bets(ps: Seq<Option<Player>>) -> int
    decreases ps.len(),
{
    if ps.len() == 0 {
        0
    } else {
        seats_bets(ps.drop_last()) + seat_bet(ps.last())
    }
}

/// How many seats are still in the hand.
pub open spec fn count_in_hand(ps: Seq<Option<Player>>) -> int
    decreases ps.len(),
{
    if ps.len() == 0 {
        0
    } else {
        count_in_hand(ps.drop_last()) + if in_hand(ps.last()) {
            1int
        } else {
            0int
        }
    }
}

/// The seat's player may act: dealt in, not folded, not all-in, active.
pub open spec fn can_act(op: Option<Player>) -> bool {
    match op {
        Some(p) => !p.has_folded && !p.is_all_in && p.status is Active,
        None => false,
    }
}

/// The seat is occupied by an active player.
pub open spec fn seat_active(op: Option<Player>) -> bool {
    match op {
        Some(p) => p.status is Active,
        None => false,
    }
}

/// How many seats may act.
pub open spec fn count_can_act(ps: Seq<Option<Player>>) -> int
    decreases ps.len(),
{
    if ps.len() == 0 {
        0
    } else {
        count_can_act(ps.drop_last()) + if can_act(ps.last()) {
            1int
        } else {
            0int
        }
    }
}

/// How many seats hold active players.
pub open spec fn count_active(ps: Seq<Option<Player>>) -> int
    decreases ps.len(),
{
    if ps.len() == 0 {
        0
    } else {
        count_active(ps.drop_last()) + if seat_active(ps.last()) {
            1int
        } else {
            0int
        }
    }
}

/// If every seat of one layout that satisfies the first shape is, in a
/// second layout of the same width, still in the hand, the second layout
/// holds at least as many seats in hand as the first holds active ones.
pub proof fn lemma_active_le_in_hand(ps1: Seq<Option<Player>>, ps2: Seq<Option<Player>>)
    requires
        ps1.len() == ps2.len(),
        forall|m: int| 0 <= m < ps1.len() ==> (seat_active(#[trigger] ps1[m]) ==> in_hand(ps2[m])),
    ensures
        count_active(ps1) <= count_in_hand(ps2),
    decreases ps1.len(),
{
    if ps1.len() > 0 {
        assert forall|m: int|
            0 <= m < ps1.drop_last().len() implies (seat_active(#[trigger] ps1.drop_last()[m])
            ==> in_hand(ps2.drop_last()[m])) by {
            assert(ps1.drop_last()[m] == ps1[m] && ps2.drop_last()[m] == ps2[m]);
        }
        lemma_active_le_in_hand(ps1.drop_last(), ps2.drop_last());
        assert(ps1.last() == ps1[ps1.len() - 1] && ps2.last() == ps2[ps1.len() - 1]);
    }
}

/// A seat that is ready to play is active.
pub proof fn lemma_count_positive_witness(ps: Seq<Option<Player>>)
    requires
        count_in_hand(ps) >= 1,
    ensures
        exists|m: int| 0 <= m < ps.len() && in_hand(#[trigger] ps[m]),
    decreases ps.len(),
{
    if ps.len() > 0 {
        if in_hand(ps.last()) {
            assert(in_hand(ps[ps.len() - 1]));
        } else {
            lemma_count_positive_witness(ps.drop_last());
            let m = choose|m: int| 0 <= m < ps.drop_last().len() && in_hand(
                #[trigger] ps.drop_last()[m],
            );
            assert(in_hand(ps[m]));
        }
    }
}

/// Two layouts whose seats agree on activity hold equally many active
/// seats.
pub proof fn lemma_count_active_pointwise(ps1: Seq<Option<Player>>, ps2: Seq<Option<Player>>)
    requires
        ps1.len() == ps2.len(),
        forall|m: int|
            0 <= m < ps1.len() ==> seat_active(#[trigger] ps1[m]) == seat_active(ps2[m]),
    ensures
        count_active(ps1) == count_active(ps2),
    decreases ps1.len(),
{
    if ps1.len() > 0 {
        assert forall|m: int|
            0 <= m < ps1.drop_last().len() implies seat_active(#[trigger] ps1.drop_last()[m])
            == seat_active(ps2.drop_last()[m]) by {
            assert(ps1.drop_last()[m] == ps1[m] && ps2.drop_last()[m] == ps2[m]);
        }
        lemma_count_active_pointwise(ps1.drop_last(), ps2.drop_last());
        assert(ps1.last() == ps1[ps1.len() - 1] && ps2.last() == ps2[ps1.len() - 1]);
    }
}

/// Replacing one seat moves each seat aggregate by that seat's change.
pub proof fn lemma_seats_update(ps: Seq<Option<Player>>, i: int, x: Option<Player>)
    requires
        0 <= i < ps.len(),
    ensures
        seats_money(ps.update(i, x)) == seats_money(ps) - seat_chips(ps[i]) + seat_chips(x),
        seats_bets(ps.update(i, x)) == seats_bets(ps) - seat_bet(ps[i]) + seat_bet(x),
        count_in_hand(ps.update(i, x)) == count_in_hand(ps) - (
        if in_hand(ps[i]) {
            1int
        } else {
            0int
        }) + (
        if in_hand(x) {
            1int
        } else {
            0int
        }),
        count_can_act(ps.update(i, x)) == count_can_act(ps) - (
        if can_act(ps[i]) {
            1int
        } else {
            0int
        }) + (
        if can_act(x) {
            1int
        } else {
            0int
        }),
        count_active(ps.update(i, x)) == count_active(ps) - (
        if seat_active(ps[i]) {
            1int
        } else {
            0int
        }) + (
        if seat_active(x) {
            1int
        } else {
            0int
        }),
    decreases ps.len(),
{
    let s2 = ps.update(i, x);
    if i == ps.len() - 1 {
        assert(s2.drop_last() =~= ps.drop_last());
        assert(s2.last() == x);
    } else {
        assert(s2.drop_last() =~= ps.drop_last().update(i, x));
        assert(ps.drop_last()[i] == ps[i]);
        lemma_seats_update(ps.drop_last(), i, x);
        assert(s2.last() == ps.last());
    }
}

/// The seat aggregates are never negative, and each seat is bounded by
/// the whole.
pub proof fn lemma_seats_nonneg(ps: Seq<Option<Player>>)
    ensures
        seats_money(ps) >= 0,
        seats_bets(ps) >= 0,
        count_in_hand(ps) >= 0,
    decreases ps.len(),
{
    if ps.len() > 0 {
        lemma_seats_nonneg(ps.drop_last());
    }
}

/// One seat holds at most the whole table's money, and bets likewise.
pub proof fn lemma_seat_within(ps: Seq<Option<Player>>, i: int)
    requires
        0 <= i < ps.len(),
    ensures
        seat_chips(ps[i]) <= seats_money(ps),
        seat_bet(ps[i]) <= seats_bets(ps),
        in_hand(ps[i]) ==> count_in_hand(ps) >= 1,
    decreases ps.len(),
{
    lemma_seats_nonneg(ps.drop_last());
    if i < ps.len() - 1 {
        assert(ps.drop_last()[i] == ps[i]);
        lemma_seat_within(ps.drop_last(), i);
    }
}

/// Prefix sums of seat chips, for totalling loops.
pub proof fn lemma_seats_money_take_step(ps: Seq<Option<Player>>, k: int)
    requires
        0 <= k < ps.len(),
    ensures
        seats_money(ps.take(k + 1)) == seats_money(ps.take(k)) + seat_chips(ps[k]),
        count_in_hand(ps.take(k + 1)) == count_in_hand(ps.take(k)) + if in_hand(ps[k]) {
            1int
        } else {
            0int
        },
        seats_bets(ps.take(k + 1)) == seats_bets(ps.take(k)) + seat_bet(ps[k]),
{
    assert(ps.take(k + 1).drop_last() =~= ps.take(k));
    assert(ps.take(k + 1).last() == ps[k]);
}

/// Two seats holding different principals or two in-hand seats: bound by
/// the whole (helper for counting loops).
pub proof fn lemma_seats_money_prefix(ps: Seq<Option<Player>>, k: int)
    requires
        0 <= k <= ps.len(),
    ensures
        0 <= seats_money(ps.take(k)) <= seats_money(ps),
        0 <= seats_bets(ps.take(k)) <= seats_bets(ps),
    decreases ps.len() - k,
{
    if k == ps.len() {
        assert(ps.take(k) =~= ps);
        lemma_seats_nonneg(ps);
    } else {
        lemma_seats_money_prefix(ps, k + 1);
        lemma_seats_money_take_step(ps, k);
        lemma_seats_nonneg(ps.take(k));
    }
}

/// Seat-level basics: the seat number matches the slot, time banks are
/// bounded, and a street bet never exceeds the hand bet.
pub open spec fn player_basics(op: Option<Player>, i: int) -> bool {
    match op {
        Some(p) => {
            &&& p.seat == i
            &&& p.time_bank_remaining <= 600
            &&& p.current_bet <= p.total_bet_this_hand
        },
        None => true,
    }
}

/// Seat-level soundness: the basics, and money in the pot implies the
/// seat was dealt cards.
pub open spec fn player_ok(op: Option<Player>, i: int) -> bool {
    player_basics(op, i) && match op {
        Some(p) => p.total_bet_this_hand > 0 ==> p.hole_cards is Some,
        None => true,
    }
}

/// A validated configuration, with defaults applied to the timers.
pub open spec fn config_ok(c: TableConfig) -> bool {
    &&& 2 <= c.max_players <= 10
    &&& 1 <= c.small_blind
    &&& c.small_blind <= c.big_blind
    &&& c.big_blind <= c.small_blind * 10
    &&& 1 <= c.min_buy_in
    &&& c.min_buy_in <= c.max_buy_in
    &&& c.big_blind * 10 <= c.min_buy_in
    &&& c.max_buy_in <= c.big_blind * 1000
    &&& 1 <= c.action_timeout_secs <= 300
    &&& 1 <= c.time_bank_secs <= 600
    &&& c.ante <= c.big_blind
}

/// While the hand is live the pot holds exactly the seats' bets.  This is
/// an equality for every sequence of in-hand actions; a seat that leaves
/// mid-hand takes its bet out of the sum but not out of the pot, so the
/// invariant proper only bounds the pot from below.
pub open spec fn pot_exact(t: TableState) -> bool {
    phase_live(t.phase) ==> t.pot as int == seats_bets(t.players@)
}

/// The table invariant, short of the two-seat liveness clause.  In the
/// instant after a fold or a mid-hand departure only one seat may remain
/// in the hand; the functions that advance the game from that state pay
/// the survivor and end the hand.
pub open spec fn table_wf_core(t: TableState) -> bool {
    &&& config_ok(t.config)
    &&& t.players@.len() == t.config.max_players as int
    &&& forall|i: int| 0 <= i < t.players@.len() ==> player_ok(#[trigger] t.players@[i], i)
    &&& (phase_live(t.phase) ==> t.pot as int >= seats_bets(t.players@))
    &&& (phase_live(t.phase) ==> count_in_hand(t.players@) >= 1)
    &&& ((t.phase is WaitingForPlayers || t.phase is HandComplete) ==> t.pot == 0
        && t.side_pots@.len() == 0)
    &&& !(t.phase is Showdown)
    &&& t.deck_index <= t.deck@.len()
    &&& (t.action_on as int) < t.players@.len()
    &&& (t.dealer_seat as int) < t.players@.len()
    &&& (t.small_blind_seat as int) < t.players@.len()
    &&& (t.big_blind_seat as int) < t.players@.len()
}

/// The table invariant: between actions a live hand holds at least two
/// seats still in it.
pub open spec fn table_wf(t: TableState) -> bool {
    table_wf_core(t) && (phase_live(t.phase) ==> count_in_hand(t.players@) >= 2)
}

/// The short label of a phase, for action records.
fn phase_label(phase: GamePhase) -> (r: &'static str)
    ensures
        phase is WaitingForPlayers ==> r@ == "waiting"@,
        phase is PreFlop ==> r@ == "preflop"@,
        phase is Flop ==> r@ == "flop"@,
        phase is Turn ==> r@ == "turn"@,
        phase is River ==> r@ == "river"@,
        phase is Showdown ==> r@ == "showdown"@,
        phase is HandComplete ==> r@ == "complete"@,
{
    match phase {
        GamePhase::WaitingForPlayers => "waiting",
        GamePhase::PreFlop => "preflop",
        GamePhase::Flop => "flop",
        GamePhase::Turn => "turn",
        GamePhase::River => "river",
        GamePhase::Showdown => "showdown",
        GamePhase::HandComplete => "complete",
    }
}

/// The phase written as a short stable label.
pub fn phase_to_string(phase: &GamePhase) -> (r: String)
    ensures
        phase is PreFlop ==> r@ == "preflop"@,
        phase is Flop ==> r@ == "flop"@,
        phase is Turn ==> r@ == "turn"@,
        phase is River ==> r@ == "river"@,
{
    String::from_str(phase_label(*phase))
}

/// The error kinds an operation can fail with, each a stable category.
#[derive(Clone, Copy, Debug, PartialEq, Eq, Structural)]
pub enum GameError {
    /// The caller is not allowed to do this.
    Auth,
    /// The table is in the wrong state for this (wrong phase, not your
    /// turn, seat taken, amount out of bounds).
    Precondition,
    /// Not enough balance or chips, or a raise below the minimum.
    Arithmetic,
    /// A rate limit or cooldown refused the call.
    RateLimit,
    /// A deposit or withdrawal is already being processed.
    Reservation,
    /// The upstream ledger reported a failure.
    Ledger,
    /// No such hand or block index.
    NotFound,
    /// The configuration is invalid.
    Config,
}

impl GameError {
    /// The stable text of the error kind.
    pub fn message(&self) -> (r: &'static str)
        ensures
            self is Auth ==> r@ == "unauthorized"@,
            self is Precondition ==> r@ == "precondition failed"@,
            self is Arithmetic ==> r@ == "insufficient funds"@,
            self is RateLimit ==> r@ == "rate limited"@,
            self is Reservation ==> r@ == "operation already pending"@,
            self is Ledger ==> r@ == "ledger error"@,
            self is NotFound ==> r@ == "not found"@,
            self is Config ==> r@ == "invalid config"@,
    {
        match self {
            GameError::Auth => "unauthorized",
            GameError::Precondition => "precondition failed",
            GameError::Arithmetic => "insufficient funds",
            GameError::RateLimit => "rate limited",
            GameError::Reservation => "operation already pending",
            GameError::Ledger => "ledger error",
            GameError::NotFound => "not found",
            GameError::Config => "invalid config",
        }
    }
}

/// The conditions a configuration must meet, before timer defaults.
pub open spec fn config_acceptable(c: TableConfig) -> bool {
    &&& 2 <= c.max_players <= 10
    &&& 1 <= c.small_blind
    &&& c.small_blind <= c.big_blind
    &&& c.big_blind <= c.small_blind * 10
    &&& 1 <= c.min_buy_in
    &&& c.min_buy_in <= c.max_buy_in
    &&& c.big_blind * 10 <= c.min_buy_in
    &&& c.max_buy_in <= c.big_blind * 1000
    &&& c.action_timeout_secs <= 300
    &&& c.time_bank_secs <= 600
    &&& c.ante <= c.big_blind
}

/// Checks the stakes, buy-in bounds, seat count, timers and ante of a
/// configuration; accepts exactly the configurations `config_acceptable`
/// admits.
pub fn validate_config(config: &TableConfig) -> (r: Result<(), GameError>)
    ensures
        r is Ok <==> config_acceptable(*config),
{
    if config.max_players < 2 {
        return Err(GameError::Config);
    }
    if config.max_players > 10 {
        return Err(GameError::Config);
    }
    if config.small_blind == 0 {
        return Err(GameError::Config);
    }
    if config.big_blind == 0 {
        return Err(GameError::Config);
    }
    if config.small_blind > config.big_blind {
        return Err(GameError::Config);
    }
    if config.small_blind <= u64::MAX / 10 && config.big_blind > config.small_blind * 10 {
        return Err(GameError::Config);
    }
    if config.min_buy_in == 0 {
        return Err(GameError::Config);
    }
    if config.max_buy_in < config.min_buy_in {
        return Err(GameError::Config);
    }
    if config.big_blind > u64::MAX / 10 {
        // Ten big blinds would not even fit the integer range, let alone
        // the minimum buy-in.
        return Err(GameError::Config);
    }
    if config.min_buy_in < config.big_blind * 10 {
        return Err(GameError::Config);
    }
    if config.big_blind <= u64::MAX / 1000 && config.max_buy_in > config.big_blind * 1000 {
        return Err(GameError::Config);
    }
    if config.action_timeout_secs > 300 {
        return Err(GameError::Config);
    }
    if config.time_bank_secs > 600 {
        return Err(GameError::Config);
    }
    if config.ante > config.big_blind {
        return Err(GameError::Config);
    }
    Ok(())
}

} // verus!
