//! The table engine: escrow, seating, the hand state machine, timers and
//! the ledger bridge, over one owned aggregate.
//!
//! Money lives in three places: escrow balances, seat chips, and the pot.
//! Every operation below preserves their grand total, except the explicit
//! mint and burn boundaries (a verified deposit credits a balance; a
//! withdrawal debits one and, if the ledger transfer fails, refunds it in
//! full).

use vstd::prelude::*;

use crate::cards::{Card, create_deck};
use crate::eval::{HandRank, evaluate_hand};
use crate::maps::{BalanceBook, IdMap};
use crate::pots::{PlayerContribution, SidePot, calculate_side_pots, sum_bets, sum_pots};
use crate::showdown::{ShowdownHand, Winner, award_pots, sum_winners};
use crate::shuffle::{ShuffleProof, commit_seed, shuffle_deck, spec_shuffle};
use crate::table::{
    ActionTimer, GameError, GamePhase, LastAction, LastActionInfo, Player, PlayerAction,
    PlayerStatus, TableConfig, TableState, can_act, config_ok, count_active, count_can_act,
    count_in_hand, in_hand, phase_live, pot_exact, phase_to_string, player_ok, seat_active,
    player_basics, seat_bet, seat_chips, seats_bets, seats_money, table_wf, validate_config, lemma_seats_update,
    lemma_seats_nonneg, lemma_seat_within, lemma_seats_money_take_step, lemma_seats_money_prefix,
    lemma_active_le_in_hand, lemma_count_positive_witness,
};

verus! {

/// Time conversions and the engine's fixed clocks, in nanoseconds.
pub const NS_PER_SEC: u64 = 1_000_000_000;
pub const AUTO_DEAL_DELAY_NS: u64 = 3_000_000_000;
pub const RATE_LIMIT_WINDOW_NS: u64 = 1_000_000_000;
pub const MAX_ACTIONS_PER_WINDOW: u32 = 10;
pub const MAX_DEPOSIT_VERIFICATIONS_PER_MINUTE: u32 = 5;
pub const MAX_HEARTBEATS_PER_SECOND: u32 = 2;
pub const WITHDRAWAL_COOLDOWN_NS: u64 = 60_000_000_000;
pub const DISCONNECT_TIMEOUT_NS: u64 = 30_000_000_000;
pub const RELOAD_TIMEOUT_SECS: u64 = 60;
pub const SITTING_OUT_KICK_SECS: u64 = 120;
pub const MAX_TIMEOUTS_BEFORE_SITOUT: u8 = 2;
pub const DEFAULT_ACTION_TIMEOUT_SECS: u64 = 60;
pub const DEFAULT_TIME_BANK_SECS: u64 = 30;

/// One entry of a hand's action log.
#[derive(Clone, Debug)]
pub struct ActionRecord {
    pub seat: u8,
    pub action: PlayerAction,
    pub timestamp: u64,
    pub phase: String,
}

/// A non-folded participant shown at showdown, for the history.
#[derive(Clone, Debug)]
pub struct ShowdownPlayer {
    pub seat: u8,
    pub principal: u64,
    pub cards: Option<(Card, Card)>,
    pub hand_rank: Option<HandRank>,
    pub amount_won: u64,
}

/// One completed (or running) hand's record.
#[derive(Clone, Debug)]
pub struct HandHistory {
    pub hand_number: u64,
    pub shuffle_proof: ShuffleProof,
    pub actions: Vec<ActionRecord>,
    pub winners: Vec<Winner>,
    pub community_cards: Vec<Card>,
    pub showdown_players: Vec<ShowdownPlayer>,
}

/// What a timeout sweep decided.
#[derive(Clone, Copy, Debug, PartialEq, Eq, Structural)]
pub enum TimeoutCheckResult {
    NoAction,
    PlayerTimedOut(u8),
    AutoDealReady,
}

/// One seat as one caller may see it.
#[derive(Clone, Copy, Debug)]
pub struct PlayerView {
    pub principal: u64,
    pub seat: u8,
    pub chips: u64,
    pub hole_cards: Option<(Card, Card)>,
    pub current_bet: u64,
    pub has_folded: bool,
    pub is_all_in: bool,
    pub status: PlayerStatus,
    pub is_self: bool,
}

/// The table as one caller may see it: no deck and no hidden seed, and
/// only the hole cards the card-visibility policy lets this caller read.
#[derive(Clone, Debug)]
pub struct TableView {
    pub players: Vec<Option<PlayerView>>,
    pub community_cards: Vec<Card>,
    pub pot: u64,
    pub current_bet: u64,
    pub min_raise: u64,
    pub phase: GamePhase,
    pub dealer_seat: u8,
    pub action_on: u8,
    pub hand_number: u64,
    pub time_remaining: Option<u64>,
    pub is_my_turn: bool,
    pub call_amount: u64,
    pub can_check: bool,
    pub can_raise: bool,
}

/// The card-visibility policy: a seat's hole cards may be read by their
/// owner, by everyone once that seat voluntarily showed this hand, and by
/// everyone at the end of the hand if the seat never folded.
pub open spec fn hole_cards_visible(e: Engine, caller: u64, i: int) -> bool {
    ||| seat_holds(e.table.players@[i], caller)
    ||| e.shown_cards@.contains((e.table.hand_number, i as u8))
    ||| (e.table.phase is HandComplete && (match e.table.players@[i] {
        Some(p) => !p.has_folded,
        None => false,
    }))
}

/// The table engine: the game state plus every side table.
pub struct Engine {
    pub table: TableState,
    pub balances: BalanceBook,
    /// Block index of each credited deposit, with the identity credited.
    pub verified_deposits: IdMap<u64>,
    /// Block indices whose verification is in flight.
    pub pending_deposits: IdMap<u64>,
    /// Identities with a withdrawal in flight, holding the amount debited.
    pub pending_withdrawals: BalanceBook,
    /// When each identity last withdrew successfully.
    pub last_withdrawal: IdMap<u64>,
    pub rate_limits: IdMap<(u64, u32)>,
    pub deposit_rate_limits: IdMap<(u64, u32)>,
    pub heartbeat_rate_limits: IdMap<(u64, u32)>,
    /// Chips per seat at the start of the running hand.
    pub starting_chips: IdMap<u64>,
    /// Seats that voluntarily showed cards, by hand number.
    pub shown_cards: Vec<(u64, u8)>,
    pub hand_history: Vec<HandHistory>,
    pub current_actions: Vec<ActionRecord>,
    pub last_hand_winners: Vec<Winner>,
    /// The committed seed, kept hidden until the hand ends.
    pub current_seed: Option<Vec<u8>>,
    pub controllers: Vec<u64>,
    pub history_id: Option<u64>,
}

/// All the money the engine custodies: escrow, chips, the pot, and the
/// amounts debited for withdrawals still in flight.
pub open spec fn engine_money(e: Engine) -> int {
    e.balances.total() + seats_money(e.table.players@) + e.table.pot
        + e.pending_withdrawals.total()
}

/// The engine invariant with the table's liveness clause relaxed to one
/// seat, for the moment between a fold and the game advancing.
pub open spec fn engine_wf_core(e: Engine) -> bool {
    &&& crate::table::table_wf_core(e.table)
    &&& e.balances.wf()
    &&& e.verified_deposits.wf()
    &&& e.pending_deposits.wf()
    &&& e.pending_withdrawals.wf()
    &&& e.last_withdrawal.wf()
    &&& e.rate_limits.wf()
    &&& e.deposit_rate_limits.wf()
    &&& e.heartbeat_rate_limits.wf()
    &&& e.starting_chips.wf()
    &&& engine_money(e) <= u64::MAX
}

/// The engine invariant: a well-formed table, well-formed side tables, and
/// a grand total that fits the machine word.
pub open spec fn engine_wf(e: Engine) -> bool {
    &&& table_wf(e.table)
    &&& e.balances.wf()
    &&& e.verified_deposits.wf()
    &&& e.pending_deposits.wf()
    &&& e.pending_withdrawals.wf()
    &&& e.last_withdrawal.wf()
    &&& e.rate_limits.wf()
    &&& e.deposit_rate_limits.wf()
    &&& e.heartbeat_rate_limits.wf()
    &&& e.starting_chips.wf()
    &&& engine_money(e) <= u64::MAX
}

/// The seat index a caller occupies.
pub open spec fn spec_seat_of(ps: Seq<Option<Player>>, caller: u64) -> Option<int> {
    if exists|i: int| 0 <= i < ps.len() && seat_holds(#[trigger] ps[i], caller) {
        Some(choose|i: int| 0 <= i < ps.len() && seat_holds(#[trigger] ps[i], caller))
    } else {
        None
    }
}

/// The seat is occupied by the caller.
pub open spec fn seat_holds(op: Option<Player>, caller: u64) -> bool {
    match op {
        Some(p) => p.principal == caller,
        None => false,
    }
}

/// Saturating addition, as the engine's clocks compute deadlines.
pub open spec fn sat_add(a: u64, b: u64) -> int {
    if a + b <= u64::MAX {
        a + b
    } else {
        u64::MAX as int
    }
}

/// The first seat the caller occupies, scanning upward from `i`.
pub open spec fn first_seat_from(ps: Seq<Option<Player>>, caller: u64, i: int) -> Option<int>
    decreases ps.len() - i when 0 <= i <= ps.len()
{
    if i >= ps.len() {
        None
    } else if seat_holds(ps[i], caller) {
        Some(i)
    } else {
        first_seat_from(ps, caller, i + 1)
    }
}

/// The seat an operation acts on for this caller: the lowest one they
/// occupy.
pub open spec fn spec_first_seat(ps: Seq<Option<Player>>, caller: u64) -> Option<int> {
    first_seat_from(ps, caller, 0)
}

/// Scanning may skip a prefix that does not hold the caller.
proof fn lemma_first_seat_skip(ps: Seq<Option<Player>>, caller: u64, i: int)
    requires
        0 <= i <= ps.len(),
        forall|m: int| 0 <= m < i ==> !seat_holds(#[trigger] ps[m], caller),
    ensures
        first_seat_from(ps, caller, 0) == first_seat_from(ps, caller, i),
    decreases i,
{
    if i > 0 {
        lemma_first_seat_skip(ps, caller, i - 1);
    }
}

/// The caller's action bucket refuses another action at this instant.
pub open spec fn action_bucket_limited(e: Engine, caller: u64, now: u64) -> bool {
    e.rate_limits.view_map().contains_key(caller) && {
        let (ws, c) = e.rate_limits.view_map()[caller];
        !(now > sat_add(ws, RATE_LIMIT_WINDOW_NS)) && c >= MAX_ACTIONS_PER_WINDOW
    }
}

/// The caller's deposit-verification bucket refuses another attempt.
pub open spec fn deposit_bucket_limited(e: Engine, caller: u64, now: u64) -> bool {
    e.deposit_rate_limits.view_map().contains_key(caller) && {
        let (ws, c) = e.deposit_rate_limits.view_map()[caller];
        !(now > sat_add(ws, 60_000_000_000)) && c >= MAX_DEPOSIT_VERIFICATIONS_PER_MINUTE
    }
}

/// The caller's heartbeat bucket refuses another beat at this instant.
pub open spec fn heartbeat_bucket_limited(e: Engine, caller: u64, now: u64) -> bool {
    e.heartbeat_rate_limits.view_map().contains_key(caller) && {
        let (ws, c) = e.heartbeat_rate_limits.view_map()[caller];
        !(now > sat_add(ws, RATE_LIMIT_WINDOW_NS)) && c >= MAX_HEARTBEATS_PER_SECOND
    }
}

/// A withdrawal begun at this instant for this amount must be accepted:
/// the amount lies within the currency's limits, the cooldown has passed,
/// none is in flight, the caller is not in a live hand un-folded, and the
/// escrow balance covers the amount.
pub open spec fn withdraw_allowed(e: Engine, caller: u64, amount: u64, now: u64) -> bool {
    &&& crate::currency::spec_min_withdrawal(e.table.config.currency) <= amount
    &&& amount <= crate::currency::spec_max_withdrawal(e.table.config.currency)
    &&& (e.last_withdrawal.view_map().contains_key(caller) ==> !(now < sat_add(
        e.last_withdrawal.view_map()[caller],
        WITHDRAWAL_COOLDOWN_NS,
    )))
    &&& e.pending_withdrawals.balance_of(caller) == 0
    &&& (phase_live(e.table.phase) ==> match spec_first_seat(e.table.players@, caller) {
        Some(i) => e.table.players@[i]->Some_0.has_folded,
        None => true,
    })
    &&& amount <= e.balances.balance_of(caller)
}

/// What one accepted action moves from the acting seat's chips into the
/// pot.
pub open spec fn action_amount(t: TableState, i: int, a: PlayerAction) -> int {
    let p = t.players@[i]->Some_0;
    match a {
        PlayerAction::Fold => 0,
        PlayerAction::Check => 0,
        PlayerAction::Call => if t.current_bet - p.current_bet < p.chips {
            t.current_bet - p.current_bet
        } else {
            p.chips as int
        },
        PlayerAction::Bet(x) => x as int,
        PlayerAction::Raise(x) => if x >= p.current_bet {
            x - p.current_bet
        } else {
            0
        },
        PlayerAction::AllIn => p.chips as int,
    }
}

/// The action's amounts are legal for the seat on action in this state.
pub open spec fn action_legal(t: TableState, i: int, a: PlayerAction) -> bool {
    let p = t.players@[i]->Some_0;
    let bb_option = t.phase is PreFlop && t.bb_has_option && i == t.big_blind_seat as int;
    match a {
        PlayerAction::Fold => true,
        PlayerAction::Check => t.current_bet == p.current_bet || (bb_option && t.current_bet
            == t.config.big_blind),
        PlayerAction::Call => t.current_bet > p.current_bet,
        PlayerAction::Bet(x) => t.current_bet == 0 && t.config.big_blind <= x <= p.chips,
        PlayerAction::Raise(x) => t.current_bet > 0 && (if x >= t.current_bet {
            x - t.current_bet
        } else {
            0
        }) >= t.min_raise && (if x >= p.current_bet {
            x - p.current_bet
        } else {
            0
        }) <= p.chips,
        PlayerAction::AllIn => true,
    }
}

/// The action re-opens the betting: a bet, a raise, or an all-in above
/// the standing bet.
pub open spec fn action_aggressive(t: TableState, i: int, a: PlayerAction) -> bool {
    let p = t.players@[i]->Some_0;
    match a {
        PlayerAction::Bet(_) => true,
        PlayerAction::Raise(_) => true,
        PlayerAction::AllIn => p.current_bet + p.chips > t.current_bet,
        _ => false,
    }
}

/// `player_action` must accept exactly this: the caller's bucket has a
/// token, they hold the seat on action, a street is being bet, the clock
/// has not run out, the seat was dealt in, and the amounts are legal.
pub open spec fn action_accepted(e: Engine, caller: u64, a: PlayerAction, now: u64) -> bool {
    let t = e.table;
    &&& !action_bucket_limited(e, caller, now)
    &&& spec_first_seat(t.players@, caller) == Some(t.action_on as int)
    &&& phase_live(t.phase)
    &&& (t.action_timer matches Some(tm) ==> now <= tm.expires_at)
    &&& t.players@[t.action_on as int]->Some_0.hole_cards is Some
    &&& action_legal(t, t.action_on as int, a)
}

/// Closing a street clears each seat's street bet and acted flag.
pub open spec fn street_reset_seat(op: Option<Player>) -> Option<Player> {
    match op {
        Some(p) => Some(Player { current_bet: 0, has_acted_this_round: false, ..p }),
        None => None,
    }
}

/// Opening a hand clears each seat's cards, bets and flags; chips and
/// status stay.
pub open spec fn new_hand_reset_seat(op: Option<Player>) -> Option<Player> {
    match op {
        Some(p) => Some(
            Player {
                hole_cards: None,
                current_bet: 0,
                total_bet_this_hand: 0,
                has_folded: false,
                has_acted_this_round: false,
                is_all_in: false,
                ..p
            },
        ),
        None => None,
    }
}

/// Posting the ante from one seat: an active seat with chips pays the
/// ante, capped at its stack, and is all-in if that empties it.
pub open spec fn post_ante_seat(op: Option<Player>, ante: u64) -> Option<Player> {
    match op {
        Some(p) => if p.status is Active && p.chips > 0 {
            let a = if ante < p.chips {
                ante as int
            } else {
                p.chips as int
            };
            Some(
                Player {
                    chips: (p.chips - a) as u64,
                    total_bet_this_hand: (p.total_bet_this_hand + a) as u64,
                    is_all_in: p.is_all_in || p.chips == a,
                    ..p
                },
            )
        } else {
            Some(p)
        },
        None => None,
    }
}

/// An aggressive action asks every other seat still able to speak to act
/// again.
pub open spec fn reset_acted_seat(op: Option<Player>) -> Option<Player> {
    match op {
        Some(q) => if !q.has_folded && !q.is_all_in {
            Some(Player { has_acted_this_round: false, ..q })
        } else {
            Some(q)
        },
        None => None,
    }
}

/// What an accepted action does to the table: the money it moves, the
/// acting seat's new fields, the betting pointers, and the acted flags.
/// The game may afterwards move the action pointer, restart the clock and
/// note the action for display; this relation leaves those three open.
pub open spec fn action_applied(
    t0: TableState,
    t1: TableState,
    i: int,
    a: PlayerAction,
    now: u64,
) -> bool {
    &&& acting_seat_updated(t0, t1, i, a, now)
    &&& (forall|j: int|
        0 <= j < t0.players@.len() && j != i ==> #[trigger] t1.players@[j] == (
        if action_aggressive(t0, i, a) {
            reset_acted_seat(t0.players@[j])
        } else {
            t0.players@[j]
        }))
}

/// The acting seat's own update and the betting pointers, shared between
/// the arm that applies the action and the whole-action relation.
pub open spec fn acting_seat_updated(
    t0: TableState,
    t1: TableState,
    i: int,
    a: PlayerAction,
    now: u64,
) -> bool {
    let p = t0.players@[i]->Some_0;
    let moved = action_amount(t0, i, a);
    let bb_option = t0.phase is PreFlop && t0.bb_has_option && i == t0.big_blind_seat as int;
    let aggressive = action_aggressive(t0, i, a);
    &&& (t1 == TableState {
        players: t1.players,
        pot: t1.pot,
        current_bet: t1.current_bet,
        min_raise: t1.min_raise,
        bb_has_option: t1.bb_has_option,
        last_aggressor: t1.last_aggressor,
        action_on: t1.action_on,
        action_timer: t1.action_timer,
        last_action: t1.last_action,
        ..t0
    })
    &&& t1.pot == t0.pot + moved
    &&& t1.players@.len() == t0.players@.len()
    &&& (match t1.players@[i] {
        Some(q) => {
            &&& q == (Player {
                chips: q.chips,
                current_bet: q.current_bet,
                total_bet_this_hand: q.total_bet_this_hand,
                has_folded: q.has_folded,
                has_acted_this_round: q.has_acted_this_round,
                is_all_in: q.is_all_in,
                last_seen: q.last_seen,
                ..p
            })
            &&& q.chips == p.chips - moved
            &&& q.current_bet == (match a {
                PlayerAction::Fold => p.current_bet as int,
                PlayerAction::Check => p.current_bet as int,
                PlayerAction::Call => p.current_bet + moved,
                PlayerAction::Bet(x) => x as int,
                PlayerAction::Raise(x) => x as int,
                PlayerAction::AllIn => p.current_bet + p.chips,
            })
            &&& q.total_bet_this_hand == p.total_bet_this_hand + moved
            &&& q.has_folded == (p.has_folded || a is Fold)
            &&& q.has_acted_this_round
            &&& q.is_all_in == (match a {
                PlayerAction::Fold => p.is_all_in,
                PlayerAction::Check => p.is_all_in,
                PlayerAction::AllIn => true,
                _ => p.is_all_in || p.chips == moved,
            })
            &&& q.last_seen == now
        },
        None => false,
    })
    &&& t1.current_bet == (match a {
        PlayerAction::Fold => t0.current_bet as int,
        PlayerAction::Check => t0.current_bet as int,
        PlayerAction::Call => t0.current_bet as int,
        PlayerAction::Bet(x) => x as int,
        PlayerAction::Raise(x) => x as int,
        PlayerAction::AllIn => if p.current_bet + p.chips > t0.current_bet {
            p.current_bet + p.chips
        } else {
            t0.current_bet as int
        },
    })
    &&& t1.min_raise == (match a {
        PlayerAction::Bet(x) => x as int,
        PlayerAction::Raise(x) => if x >= t0.current_bet {
            x - t0.current_bet
        } else {
            0
        },
        PlayerAction::AllIn => if p.current_bet + p.chips > t0.current_bet && p.current_bet
            + p.chips - t0.current_bet >= t0.min_raise {
            p.current_bet + p.chips - t0.current_bet
        } else {
            t0.min_raise as int
        },
        _ => t0.min_raise as int,
    })
    &&& t1.bb_has_option == (match a {
        PlayerAction::Fold => !bb_option && t0.bb_has_option,
        PlayerAction::Check => !bb_option && t0.bb_has_option,
        PlayerAction::Call => t0.bb_has_option,
        PlayerAction::Bet(_) => false,
        PlayerAction::Raise(_) => false,
        PlayerAction::AllIn => !aggressive && t0.bb_has_option,
    })
    &&& t1.last_aggressor == (if aggressive {
        Some(i as u8)
    } else {
        t0.last_aggressor
    })
}

impl Engine {
    /// Finds the caller's lowest seat, if any.
    fn find_seat(&self, caller: u64) -> (r: Option<usize>)
        ensures
            match r {
                Some(i) => i < self.table.players@.len() && seat_holds(
                    self.table.players@[i as int],
                    caller,
                ) && spec_first_seat(self.table.players@, caller) == Some(i as int),
                None => forall|i: int|
                    0 <= i < self.table.players@.len() ==> !seat_holds(
                        #[trigger] self.table.players@[i],
                        caller,
                    ),
            },
            r is None ==> spec_first_seat(self.table.players@, caller) is None,
    {
        let mut i: usize = 0;
        while i < self.table.players.len()
            invariant
                i <= self.table.players@.len(),
                forall|m: int|
                    0 <= m < i ==> !seat_holds(#[trigger] self.table.players@[m], caller),
            decreases self.table.players@.len() - i,
        {
            match &self.table.players[i] {
                Some(p) => {
                    if p.principal == caller {
                        proof {
                            lemma_first_seat_skip(self.table.players@, caller, i as int);
                        }
                        return Some(i);
                    }
                },
                None => {},
            }
            i = i + 1;
        }
        proof {
            lemma_first_seat_skip(self.table.players@, caller, self.table.players@.len() as int);
        }
        None
    }

    /// Total chips held at the seats.
    pub fn table_chips(&self) -> (r: u64)
        requires
            engine_wf(*self),
        ensures
            r as int == seats_money(self.table.players@),
    {
        let ps = &self.table.players;
        let mut total: u64 = 0;
        let mut i: usize = 0;
        proof {
            assert(ps@.take(0) =~= Seq::<Option<Player>>::empty());
            lemma_seats_nonneg(self.table.players@);
            crate::maps::BalanceBook::lemma_balance_le_total(&self.balances, 0);
            crate::maps::BalanceBook::lemma_balance_le_total(&self.pending_withdrawals, 0);
        }
        while i < ps.len()
            invariant
                i <= ps@.len(),
                total as int == seats_money(ps@.take(i as int)),
                seats_money(ps@) <= u64::MAX,
            decreases ps@.len() - i,
        {
            proof {
                lemma_seats_money_take_step(ps@, i as int);
                lemma_seats_money_prefix(ps@, i + 1);
            }
            match &ps[i] {
                Some(p) => {
                    total = total + p.chips;
                },
                None => {},
            }
            i = i + 1;
        }
        proof {
            assert(ps@.take(ps@.len() as int) =~= ps@);
        }
        total
    }

    /// How many seats could play a new hand: active with chips.
    fn count_ready(&self) -> (r: usize)
        ensures
            r as int == count_ready_spec(self.table.players@),
    {
        let ps = &self.table.players;
        let mut n: usize = 0;
        let mut i: usize = 0;
        proof {
            assert(ps@.take(0) =~= Seq::<Option<Player>>::empty());
        }
        while i < ps.len()
            invariant
                i <= ps@.len(),
                n as int == count_ready_spec(ps@.take(i as int)),
                n <= i,
            decreases ps@.len() - i,
        {
            proof {
                assert(ps@.take(i + 1).drop_last() =~= ps@.take(i as int));
                assert(ps@.take(i + 1).last() == ps@[i as int]);
                lemma_count_ready_bound(ps@.take(i as int));
            }
            match &ps[i] {
                Some(p) => {
                    if matches!(p.status, PlayerStatus::Active) && p.chips > 0 {
                        n = n + 1;
                    }
                },
                None => {},
            }
            i = i + 1;
        }
        proof {
            assert(ps@.take(ps@.len() as int) =~= ps@);
        }
        n
    }

    /// How many seats are still in the hand.
    fn count_in_hand_exec(&self) -> (r: usize)
        ensures
            r as int == count_in_hand(self.table.players@),
    {
        let ps = &self.table.players;
        let mut n: usize = 0;
        let mut i: usize = 0;
        proof {
            assert(ps@.take(0) =~= Seq::<Option<Player>>::empty());
        }
        while i < ps.len()
            invariant
                i <= ps@.len(),
                n as int == count_in_hand(ps@.take(i as int)),
                n <= i,
            decreases ps@.len() - i,
        {
            proof {
                assert(ps@.take(i + 1).drop_last() =~= ps@.take(i as int));
                assert(ps@.take(i + 1).last() == ps@[i as int]);
                lemma_count_in_hand_bound(ps@.take(i as int));
            }
            match &ps[i] {
                Some(p) => {
                    if !p.has_folded && p.hole_cards.is_some() {
                        n = n + 1;
                    }
                },
                None => {},
            }
            i = i + 1;
        }
        proof {
            assert(ps@.take(ps@.len() as int) =~= ps@);
        }
        n
    }

    /// Creates an engine around a validated configuration, applying the
    /// default action timer and time bank where the configuration leaves
    /// them zero.
    pub fn new(config: TableConfig, id: u64) -> (r: Result<Engine, GameError>)
        ensures
            r is Ok ==> config_acceptable_holds(config),
            config_acceptable_holds(config) ==> r is Ok,
            match r {
                Ok(e) => engine_wf(e) && engine_money(e) == 0 && e.table.phase
                    is WaitingForPlayers && e.table.hand_number == 0,
                Err(_) => true,
            },
    {
        if let Err(e) = validate_config(&config) {
            return Err(e);
        }
        let config = TableConfig {
            small_blind: config.small_blind,
            big_blind: config.big_blind,
            min_buy_in: config.min_buy_in,
            max_buy_in: config.max_buy_in,
            max_players: config.max_players,
            action_timeout_secs: if config.action_timeout_secs == 0 {
                DEFAULT_ACTION_TIMEOUT_SECS
            } else {
                config.action_timeout_secs
            },
            ante: config.ante,
            time_bank_secs: if config.time_bank_secs == 0 {
                DEFAULT_TIME_BANK_SECS
            } else {
                config.time_bank_secs
            },
            currency: config.currency,
        };
        let mut players: Vec<Option<Player>> = Vec::new();
        let mut i: usize = 0;
        while i < config.max_players as usize
            invariant
                i <= config.max_players as usize,
                players@.len() == i,
                forall|m: int| 0 <= m < i ==> players@[m] is None,
            decreases config.max_players as usize - i,
        {
            players.push(None);
            i = i + 1;
        }
        proof {
            lemma_all_none_sums(players@);
        }
        let table = TableState {
            id,
            config,
            players,
            community_cards: Vec::new(),
            deck: Vec::new(),
            deck_index: 0,
            pot: 0,
            side_pots: Vec::new(),
            current_bet: 0,
            min_raise: 0,
            phase: GamePhase::WaitingForPlayers,
            dealer_seat: 0,
            small_blind_seat: 0,
            big_blind_seat: 0,
            action_on: 0,
            action_timer: None,
            shuffle_proof: None,
            hand_number: 0,
            last_aggressor: None,
            bb_has_option: false,
            first_hand: true,
            auto_deal_at: None,
            last_action: None,
        };
        Ok(
            Engine {
                table,
                balances: BalanceBook::new(),
                verified_deposits: IdMap::new(),
                pending_deposits: IdMap::new(),
                pending_withdrawals: BalanceBook::new(),
                last_withdrawal: IdMap::new(),
                rate_limits: IdMap::new(),
                deposit_rate_limits: IdMap::new(),
                heartbeat_rate_limits: IdMap::new(),
                starting_chips: IdMap::new(),
                shown_cards: Vec::new(),
                hand_history: Vec::new(),
                current_actions: Vec::new(),
                last_hand_winners: Vec::new(),
                current_seed: None,
                controllers: Vec::new(),
                history_id: None,
            },
        )
    }

    /// The caller's escrow balance.
    pub fn get_balance(&self, caller: u64) -> (r: u64)
        requires
            engine_wf(*self),
        ensures
            r == self.balances.balance_of(caller),
    {
        self.balances.get(caller)
    }

    /// Buys a seat with money from the caller's escrow balance.
    ///
    /// Succeeds exactly when the seat exists and is free, the caller is
    /// not already seated, the amount lies within the table's buy-in
    /// bounds and the escrow balance covers it.  On success the balance
    /// drops and the chips appear at the seat: the total money does not
    /// change.  Joining during a live hand seats the caller sitting out.
    pub fn buy_in(&mut self, caller: u64, seat: u8, amount: u64, now: u64) -> (r: Result<
        (),
        GameError,
    >)
        requires
            engine_wf(*old(self)),
        ensures
            engine_wf(*final(self)),
            engine_money(*final(self)) == engine_money(*old(self)),
            r is Err ==> *final(self) == *old(self),
            r is Ok <==> ({
                let ps = old(self).table.players@;
                &&& (seat as int) < ps.len()
                &&& ps[seat as int] is None
                &&& (forall|i: int| 0 <= i < ps.len() ==> !seat_holds(#[trigger] ps[i], caller))
                &&& old(self).table.config.min_buy_in <= amount <= old(self).table.config.max_buy_in
                &&& amount <= old(self).balances.balance_of(caller)
            }),
            r is Ok ==> final(self).balances.balance_of(caller) == old(self).balances.balance_of(
                caller,
            ) - amount,
            r is Ok ==> seat_holds(final(self).table.players@[seat as int], caller)
                && seat_chips(final(self).table.players@[seat as int]) == amount,
            r is Ok ==> (match final(self).table.players@[seat as int] {
                Some(p) => {
                    &&& (p.status is SittingOut <==> phase_live(old(self).table.phase))
                    &&& (p.status is Active <==> !phase_live(old(self).table.phase))
                    &&& p.current_bet == 0
                    &&& p.total_bet_this_hand == 0
                    &&& !p.has_folded
                    &&& !p.is_all_in
                    &&& p.hole_cards is None
                    &&& p.timeout_count == 0
                },
                None => false,
            }) && (forall|m: int|
                0 <= m < old(self).table.players@.len() && m != seat as int
                    ==> #[trigger] final(self).table.players@[m] == old(self).table.players@[m]),
    {
        let balance = self.balances.get(caller);
        if amount < self.table.config.min_buy_in {
            return Err(GameError::Precondition);
        }
        if amount > self.table.config.max_buy_in {
            return Err(GameError::Precondition);
        }
        if seat as usize >= self.table.players.len() {
            return Err(GameError::Precondition);
        }
        if self.table.players[seat as usize].is_some() {
            return Err(GameError::Precondition);
        }
        if self.find_seat(caller).is_some() {
            return Err(GameError::Precondition);
        }
        if amount > balance {
            return Err(GameError::Arithmetic);
        }
        proof {
            self.balances.lemma_balance_le_total(caller);
            lemma_seats_nonneg(self.table.players@);
        }
        self.balances.debit(caller, amount);
        let joining_during_hand = !matches!(self.table.phase, GamePhase::WaitingForPlayers)
            && !matches!(self.table.phase, GamePhase::HandComplete);
        let status = if joining_during_hand {
            PlayerStatus::SittingOut
        } else {
            PlayerStatus::Active
        };
        let sitting_out_since = if joining_during_hand {
            Some(now)
        } else {
            None
        };
        let player = Player {
            principal: caller,
            seat,
            chips: amount,
            hole_cards: None,
            current_bet: 0,
            total_bet_this_hand: 0,
            has_folded: false,
            has_acted_this_round: false,
            is_all_in: false,
            status,
            last_seen: now,
            timeout_count: 0,
            time_bank_remaining: self.table.config.time_bank_secs,
            is_sitting_out_next_hand: false,
            broke_at: None,
            sitting_out_since,
        };
        let ghost ps_before = self.table.players@;
        self.table.players.set(seat as usize, Some(player));
        proof {
            lemma_seats_update(ps_before, seat as int, Some(player));
        }
        // Schedule an automatic deal when enough players are ready.
        if matches!(self.table.phase, GamePhase::WaitingForPlayers) {
            if self.count_ready() >= 2 && self.table.auto_deal_at.is_none() {
                self.table.auto_deal_at = Some(now.saturating_add(AUTO_DEAL_DELAY_NS));
            }
        }
        Ok(())
    }

    /// Adds chips from escrow to an already seated caller, between hands.
    ///
    /// Succeeds exactly when the caller is seated, no hand is live, the
    /// escrow balance covers the amount, and the new stack stays within
    /// the maximum buy-in.  Reloading clears the broke timer and brings a
    /// sitting-out player back in.
    pub fn reload(&mut self, caller: u64, amount: u64) -> (r: Result<u64, GameError>)
        requires
            engine_wf(*old(self)),
        ensures
            engine_wf(*final(self)),
            engine_money(*final(self)) == engine_money(*old(self)),
            r is Err ==> *final(self) == *old(self),
            r is Ok <==> ((old(self).table.phase is WaitingForPlayers || old(self).table.phase
                is HandComplete) && (match spec_first_seat(old(self).table.players@, caller) {
                Some(i) => amount <= old(self).balances.balance_of(caller)
                    && old(self).table.players@[i]->Some_0.chips + amount <= u64::MAX
                    && old(self).table.players@[i]->Some_0.chips + amount
                    <= old(self).table.config.max_buy_in,
                None => false,
            })),
            match r {
                Ok(chips) => {
                    &&& final(self).balances.balance_of(caller) == old(self).balances.balance_of(caller) - amount
                    &&& exists|i: int|
                        0 <= i < final(self).table.players@.len() && seat_holds(
                            #[trigger] final(self).table.players@[i],
                            caller,
                        ) && seat_chips(final(self).table.players@[i]) == chips
                },
                Err(_) => true,
            },
            r matches Ok(chips) ==> (match spec_first_seat(old(self).table.players@, caller) {
                Some(i) => {
                    let p = old(self).table.players@[i]->Some_0;
                    &&& chips == p.chips + amount
                    &&& final(self).table.players@ == old(self).table.players@.update(
                        i,
                        Some(
                            Player {
                                chips: (p.chips + amount) as u64,
                                broke_at: None,
                                status: if p.status is SittingOut {
                                    PlayerStatus::Active
                                } else {
                                    p.status
                                },
                                ..p
                            },
                        ),
                    )
                },
                None => false,
            }),
    {
        let phase_ok = matches!(self.table.phase, GamePhase::WaitingForPlayers) || matches!(
            self.table.phase,
            GamePhase::HandComplete,
        );
        if !phase_ok {
            return Err(GameError::Precondition);
        }
        let seat = match self.find_seat(caller) {
            Some(s) => s,
            None => {
                return Err(GameError::Precondition);
            },
        };
        let balance = self.balances.get(caller);
        if amount > balance {
            return Err(GameError::Arithmetic);
        }
        let player = match self.table.players[seat] {
            Some(p) => p,
            None => {
                return Err(GameError::Precondition);
            },
        };
        proof {
            self.balances.lemma_balance_le_total(caller);
            lemma_seat_within(self.table.players@, seat as int);
            lemma_seats_nonneg(self.table.players@);
        }
        if amount > u64::MAX - player.chips {
            return Err(GameError::Precondition);
        }
        let new_total = player.chips + amount;
        if new_total > self.table.config.max_buy_in {
            return Err(GameError::Precondition);
        }
        self.balances.debit(caller, amount);
        let mut p2 = player;
        p2.chips = new_total;
        p2.broke_at = None;
        if matches!(p2.status, PlayerStatus::SittingOut) {
            p2.status = PlayerStatus::Active;
        }
        let ghost ps_before = self.table.players@;
        self.table.players.set(seat, Some(p2));
        proof {
            lemma_seats_update(ps_before, seat as int, Some(p2));
            assert(seat_holds(self.table.players@[seat as int], caller));
            assert(seat_chips(self.table.players@[seat as int]) == new_total);
        }
        Ok(new_total)
    }

    /// Returns a seated caller's chips to escrow and frees the seat.
    ///
    /// Refused while the caller is in a live hand and not folded.
    pub fn cash_out(&mut self, caller: u64) -> (r: Result<u64, GameError>)
        requires
            engine_wf(*old(self)),
        ensures
            engine_wf(*final(self)),
            engine_money(*final(self)) == engine_money(*old(self)),
            r is Err ==> *final(self) == *old(self),
            r is Ok <==> (match spec_first_seat(old(self).table.players@, caller) {
                Some(i) => !(phase_live(old(self).table.phase)
                    && !old(self).table.players@[i]->Some_0.has_folded),
                None => false,
            }),
            match r {
                Ok(chips) => final(self).balances.balance_of(caller) == old(self).balances.balance_of(caller) + chips,
                Err(_) => true,
            },
            r matches Ok(chips) ==> (match spec_first_seat(old(self).table.players@, caller) {
                Some(i) => chips == old(self).table.players@[i]->Some_0.chips
                    && final(self).table.players@ == old(self).table.players@.update(
                    i,
                    None::<Player>,
                ),
                None => false,
            }) && (*final(self) == Engine {
                table: final(self).table,
                balances: final(self).balances,
                ..*old(self)
            }) && (final(self).table == TableState {
                players: final(self).table.players,
                ..old(self).table
            }),
    {
        let seat = match self.find_seat(caller) {
            Some(s) => s,
            None => {
                return Err(GameError::Precondition);
            },
        };
        let player = match self.table.players[seat] {
            Some(p) => p,
            None => {
                return Err(GameError::Precondition);
            },
        };
        let live = phase_live_exec(self.table.phase);
        if live && !player.has_folded {
            return Err(GameError::Precondition);
        }
        proof {
            self.balances.lemma_balance_le_total(caller);
            self.pending_withdrawals.lemma_balance_le_total(0);
            lemma_seat_within(self.table.players@, seat as int);
            lemma_seats_nonneg(self.table.players@);
        }
        let ghost ps_before = self.table.players@;
        self.table.players.set(seat, None);
        proof {
            lemma_seats_update(ps_before, seat as int, None);
            if phase_live(self.table.phase) {
                assert(!in_hand(ps_before[seat as int]));
            }
        }
        self.balances.credit(caller, player.chips);
        Ok(player.chips)
    }
}

/// A seat counts toward starting a hand: seated, active, with chips.
pub open spec fn count_ready_spec(ps: Seq<Option<Player>>) -> int
    decreases ps.len(),
{
    if ps.len() == 0 {
        0
    } else {
        count_ready_spec(ps.drop_last()) + if seat_ready(ps.last()) {
            1int
        } else {
            0int
        }
    }
}

/// How many seats are occupied.
pub open spec fn count_occupied(ps: Seq<Option<Player>>) -> int
    decreases ps.len(),
{
    if ps.len() == 0 {
        0
    } else {
        count_occupied(ps.drop_last()) + if ps.last() is Some {
            1int
        } else {
            0int
        }
    }
}

proof fn lemma_count_occupied_bound(ps: Seq<Option<Player>>)
    ensures
        0 <= count_occupied(ps) <= ps.len(),
    decreases ps.len(),
{
    if ps.len() > 0 {
        lemma_count_occupied_bound(ps.drop_last());
    }
}

/// Active with chips.
pub open spec fn seat_ready(op: Option<Player>) -> bool {
    match op {
        Some(p) => p.status is Active && p.chips > 0,
        None => false,
    }
}

/// Active with chips, and heard from recently enough that the liveness
/// sweep will not disconnect the seat at this instant.
pub open spec fn seat_ready_live(op: Option<Player>, now: u64) -> bool {
    match op {
        Some(p) => p.status is Active && p.chips > 0 && !(now > sat_add(
            p.last_seen,
            DISCONNECT_TIMEOUT_NS,
        )),
        None => false,
    }
}

/// How many seats would still be ready after the liveness sweep.
pub open spec fn count_ready_live(ps: Seq<Option<Player>>, now: u64) -> int
    decreases ps.len(),
{
    if ps.len() == 0 {
        0
    } else {
        count_ready_live(ps.drop_last(), now) + if seat_ready_live(ps.last(), now) {
            1int
        } else {
            0int
        }
    }
}

/// Seat-for-seat agreement makes the two counts equal.
proof fn lemma_count_ready_eq_live(ps1: Seq<Option<Player>>, ps2: Seq<Option<Player>>, now: u64)
    requires
        ps1.len() == ps2.len(),
        forall|m: int|
            0 <= m < ps1.len() ==> seat_ready(#[trigger] ps1[m]) == seat_ready_live(ps2[m], now),
    ensures
        count_ready_spec(ps1) == count_ready_live(ps2, now),
    decreases ps1.len(),
{
    if ps1.len() > 0 {
        assert forall|m: int|
            0 <= m < ps1.drop_last().len() implies seat_ready(#[trigger] ps1.drop_last()[m])
            == seat_ready_live(ps2.drop_last()[m], now) by {
            assert(ps1.drop_last()[m] == ps1[m] && ps2.drop_last()[m] == ps2[m]);
        }
        lemma_count_ready_eq_live(ps1.drop_last(), ps2.drop_last(), now);
        assert(ps1.last() == ps1[ps1.len() - 1] && ps2.last() == ps2[ps1.len() - 1]);
    }
}

/// The liveness sweep of one seat: an active seat silent too long is
/// disconnected, and a seat broke for too long sits out.
pub open spec fn sweep_live_seat(op: Option<Player>, now: u64) -> Option<Player> {
    match op {
        Some(p) => {
            let p1 = if p.status is Active && now > sat_add(p.last_seen, DISCONNECT_TIMEOUT_NS) {
                Player {
                    status: PlayerStatus::Disconnected,
                    sitting_out_since: if p.sitting_out_since is None {
                        Some(now)
                    } else {
                        p.sitting_out_since
                    },
                    ..p
                }
            } else {
                p
            };
            Some(
                match p1.broke_at {
                    Some(bt) => if p1.chips == 0 && now > sat_add(
                        bt,
                        (RELOAD_TIMEOUT_SECS * NS_PER_SEC) as u64,
                    ) {
                        Player {
                            status: PlayerStatus::SittingOut,
                            sitting_out_since: Some(now),
                            broke_at: None,
                            ..p1
                        }
                    } else {
                        p1
                    },
                    None => p1,
                },
            )
        },
        None => None,
    }
}

/// A seat sitting out or disconnected for too long between hands is
/// kicked from the table.
pub open spec fn kicked_between(op: Option<Player>, now: u64) -> bool {
    match op {
        Some(p) => (p.status is SittingOut || p.status is Disconnected) && now > sat_add(
            (match p.sitting_out_since {
                Some(t) => t,
                None => p.last_seen,
            }),
            (SITTING_OUT_KICK_SECS * NS_PER_SEC) as u64,
        ),
        None => false,
    }
}

/// What the auto-deal deadline reads after a timeout sweep between hands:
/// armed when enough seats are ready, cleared when it passed with too
/// few.
pub open spec fn spec_auto_deal(prev: Option<u64>, ready: int, now: u64) -> Option<u64> {
    let armed = if prev is None && ready >= 2 {
        Some(sat_add(now, AUTO_DEAL_DELAY_NS) as u64)
    } else {
        prev
    };
    match armed {
        Some(w) => if now >= w && ready < 2 {
            None
        } else {
            armed
        },
        None => None,
    }
}

/// Advancing the game keeps each seat's occupancy, its fold state and
/// its timeout strikes: only betting fields, chips and the broke clock
/// move.
pub open spec fn seat_record_kept(a: Option<Player>, b: Option<Player>) -> bool {
    match a {
        Some(p) => match b {
            Some(q) => q.has_folded == p.has_folded && q.timeout_count == p.timeout_count
                && q.principal == p.principal && q.status == p.status,
            None => false,
        },
        None => b is None,
    }
}

/// The first seat still in the hand, scanning upward from `i`.
pub open spec fn first_in_hand_from(ps: Seq<Option<Player>>, i: int) -> int
    decreases ps.len() - i when 0 <= i <= ps.len()
{
    if i >= ps.len() {
        0
    } else if in_hand(ps[i]) {
        i
    } else {
        first_in_hand_from(ps, i + 1)
    }
}

/// The lone survivor's seat: the first still in the hand.
pub open spec fn spec_first_in_hand(ps: Seq<Option<Player>>) -> int {
    first_in_hand_from(ps, 0)
}

/// Scanning may skip a prefix with no seat in the hand.
proof fn lemma_first_in_hand_skip(ps: Seq<Option<Player>>, i: int)
    requires
        0 <= i <= ps.len(),
        forall|m: int| 0 <= m < i ==> !in_hand(#[trigger] ps[m]),
    ensures
        first_in_hand_from(ps, 0) == first_in_hand_from(ps, i),
    decreases i,
{
    if i > 0 {
        lemma_first_in_hand_skip(ps, i - 1);
    }
}

/// The pre-deal sweep of one seat: a seat that asked to sit out the next
/// hand, and an active seat without chips, sits out before dealing.
pub open spec fn sweep_seat(op: Option<Player>, now: u64) -> Option<Player> {
    match op {
        Some(p) => {
            let p1 = if p.is_sitting_out_next_hand {
                Player {
                    status: PlayerStatus::SittingOut,
                    sitting_out_since: Some(now),
                    is_sitting_out_next_hand: false,
                    ..p
                }
            } else {
                p
            };
            Some(
                if p1.status is Active && p1.chips == 0 {
                    Player { status: PlayerStatus::SittingOut, sitting_out_since: Some(now), ..p1 }
                } else {
                    p1
                },
            )
        },
        None => None,
    }
}

/// The pre-deal sweep applied to every seat.
pub open spec fn swept_players(ps: Seq<Option<Player>>, now: u64) -> Seq<Option<Player>> {
    Seq::new(ps.len(), |j: int| sweep_seat(ps[j], now))
}

/// Readiness only ever falls from the first layout to the second.
proof fn lemma_count_ready_le_pointwise(ps1: Seq<Option<Player>>, ps2: Seq<Option<Player>>)
    requires
        ps1.len() == ps2.len(),
        forall|m: int| 0 <= m < ps1.len() ==> (seat_ready(#[trigger] ps1[m]) ==> seat_ready(ps2[m])),
    ensures
        count_ready_spec(ps1) <= count_ready_spec(ps2),
    decreases ps1.len(),
{
    if ps1.len() > 0 {
        assert forall|m: int|
            0 <= m < ps1.drop_last().len() implies (seat_ready(#[trigger] ps1.drop_last()[m])
            ==> seat_ready(ps2.drop_last()[m])) by {
            assert(ps1.drop_last()[m] == ps1[m] && ps2.drop_last()[m] == ps2[m]);
        }
        lemma_count_ready_le_pointwise(ps1.drop_last(), ps2.drop_last());
        assert(ps1.last() == ps1[ps1.len() - 1] && ps2.last() == ps2[ps1.len() - 1]);
    }
}

/// Every seat that is ready to play is active.
proof fn lemma_ready_le_active(ps: Seq<Option<Player>>)
    ensures
        count_ready_spec(ps) <= count_active(ps),
    decreases ps.len(),
{
    if ps.len() > 0 {
        lemma_ready_le_active(ps.drop_last());
    }
}

/// A positive ready count names a ready seat.
proof fn lemma_one_ready(ps: Seq<Option<Player>>)
    requires
        count_ready_spec(ps) >= 1,
    ensures
        exists|m: int| 0 <= m < ps.len() && seat_ready(#[trigger] ps[m]),
    decreases ps.len(),
{
    if ps.len() > 0 {
        if seat_ready(ps.last()) {
            assert(seat_ready(ps[ps.len() - 1]));
        } else {
            lemma_one_ready(ps.drop_last());
            let m = choose|m: int|
                0 <= m < ps.drop_last().len() && seat_ready(#[trigger] ps.drop_last()[m]);
            assert(seat_ready(ps[m]));
        }
    }
}

/// Two ready seats leave one that is not any chosen seat.
proof fn lemma_two_ready(ps: Seq<Option<Player>>, x: int)
    requires
        count_ready_spec(ps) >= 2,
    ensures
        exists|m: int| 0 <= m < ps.len() && m != x && seat_ready(#[trigger] ps[m]),
    decreases ps.len(),
{
    if ps.len() > 0 {
        let last = ps.len() - 1;
        if seat_ready(ps.last()) && last != x {
            assert(seat_ready(ps[last]));
        } else if seat_ready(ps.last()) {
            lemma_one_ready(ps.drop_last());
            let m = choose|m: int|
                0 <= m < ps.drop_last().len() && seat_ready(#[trigger] ps.drop_last()[m]);
            assert(m != x && seat_ready(ps[m]));
        } else {
            lemma_two_ready(ps.drop_last(), x);
            let m = choose|m: int|
                0 <= m < ps.drop_last().len() && m != x && seat_ready(
                    #[trigger] ps.drop_last()[m],
                );
            assert(seat_ready(ps[m]));
        }
    }
}

proof fn lemma_count_ready_bound(ps: Seq<Option<Player>>)
    ensures
        0 <= count_ready_spec(ps) <= ps.len(),
    decreases ps.len(),
{
    if ps.len() > 0 {
        lemma_count_ready_bound(ps.drop_last());
    }
}

proof fn lemma_count_in_hand_bound(ps: Seq<Option<Player>>)
    ensures
        0 <= count_in_hand(ps) <= ps.len(),
    decreases ps.len(),
{
    if ps.len() > 0 {
        lemma_count_in_hand_bound(ps.drop_last());
    }
}

proof fn lemma_all_none_sums(ps: Seq<Option<Player>>)
    requires
        forall|m: int| 0 <= m < ps.len() ==> ps[m] is None,
    ensures
        seats_money(ps) == 0,
        seats_bets(ps) == 0,
        count_in_hand(ps) == 0,
    decreases ps.len(),
{
    if ps.len() > 0 {
        assert forall|m: int| 0 <= m < ps.drop_last().len() implies ps.drop_last()[m] is None by {
            assert(ps.drop_last()[m] == ps[m]);
        }
        lemma_all_none_sums(ps.drop_last());
    }
}

/// The configuration passes validation.
pub open spec fn config_acceptable_holds(c: TableConfig) -> bool {
    crate::table::config_acceptable(c)
}

/// Is the phase a live betting street?
pub fn phase_live_exec(p: GamePhase) -> (r: bool)
    ensures
        r == phase_live(p),
{
    matches!(p, GamePhase::PreFlop) || matches!(p, GamePhase::Flop) || matches!(p, GamePhase::Turn)
        || matches!(p, GamePhase::River)
}


/// Every seat is reached from any start within one turn of the table.
proof fn lemma_seat_reachable(from: int, n: int, s: int)
    requires
        n > 0,
        0 <= s < n,
        0 <= from,
    ensures
        exists|off: int| 1 <= off <= n && #[trigger] ((from + off) % n) == s,
{
    let d = from % n;
    vstd::arithmetic::div_mod::lemma_fundamental_div_mod(from, n);
    let q = from / n;
    let off = if s > d {
        s - d
    } else {
        s - d + n
    };
    assert(1 <= off <= n);
    assert(from + off == n * q + s || from + off == n * q + s + n);
    if from + off == n * q + s {
        vstd::arithmetic::div_mod::lemma_mod_multiples_vanish(q, s, n);
        vstd::arithmetic::div_mod::lemma_small_mod(s as nat, n as nat);
        assert((from + off) % n == s);
    } else {
        assert(n * (q + 1) == n * q + n) by (nonlinear_arith);
        assert(from + off == n * (q + 1) + s);
        vstd::arithmetic::div_mod::lemma_mod_multiples_vanish(q + 1, s, n);
        vstd::arithmetic::div_mod::lemma_small_mod(s as nat, n as nat);
        assert((from + off) % n == s);
    }
}

/// The first seat that may act, scanning clockwise offsets from `from`
/// beginning at `off`; `from` itself when a full turn finds none.
pub open spec fn next_can_act_from(ps: Seq<Option<Player>>, from: int, off: int) -> int
    decreases ps.len() + 1 - off,
    when 1 <= off && ps.len() > 0
{
    if off > ps.len() {
        from
    } else if can_act(ps[(from + off) % (ps.len() as int)]) {
        (from + off) % (ps.len() as int)
    } else {
        next_can_act_from(ps, from, off + 1)
    }
}

/// The seat the action moves to from `from`: the first clockwise that may
/// act, or `from` itself when no seat may.
pub open spec fn spec_next_can_act(ps: Seq<Option<Player>>, from: int) -> int {
    next_can_act_from(ps, from, 1)
}

/// Scanning may skip offsets that cannot act.
proof fn lemma_next_can_act_skip(ps: Seq<Option<Player>>, from: int, off: int)
    requires
        ps.len() > 0,
        1 <= off <= ps.len() + 1,
        forall|o: int| 1 <= o < off ==> !can_act(#[trigger] ps[(from + o) % (ps.len() as int)]),
    ensures
        next_can_act_from(ps, from, 1) == next_can_act_from(ps, from, off),
    decreases off,
{
    if off > 1 {
        lemma_next_can_act_skip(ps, from, off - 1);
    }
}

/// All bets zero makes the bet sum zero.
proof fn lemma_bets_zero(ps: Seq<Option<Player>>)
    requires
        forall|m: int| 0 <= m < ps.len() ==> seat_bet(#[trigger] ps[m]) == 0,
    ensures
        seats_bets(ps) == 0,
    decreases ps.len(),
{
    if ps.len() > 0 {
        assert forall|m: int| 0 <= m < ps.drop_last().len() implies seat_bet(
            #[trigger] ps.drop_last()[m],
        ) == 0 by {
            assert(ps.drop_last()[m] == ps[m]);
        }
        lemma_bets_zero(ps.drop_last());
        assert(ps.last() == ps[ps.len() - 1]);
    }
}

impl Engine {
    /// The next seat clockwise from `from` that is active with chips; if
    /// none exists, `from` itself.
    #[verifier::loop_isolation(false)]
    fn find_next_ready(&self, from: u8) -> (r: u8)
        requires
            (from as int) < self.table.players@.len(),
            self.table.players@.len() <= 255,
        ensures
            (r as int) < self.table.players@.len(),
            (exists|m: int|
                0 <= m < self.table.players@.len() && seat_ready(
                    #[trigger] self.table.players@[m],
                )) ==> seat_ready(self.table.players@[r as int]),
            (exists|m: int|
                0 <= m < self.table.players@.len() && m != from as int && seat_ready(
                    #[trigger] self.table.players@[m],
                )) ==> r != from,
    {
        let ps = &self.table.players;
        let n = ps.len();
        let mut off: usize = 1;
        while off <= n
            invariant
                n == ps@.len(),
                (from as int) < n <= 255,
                1 <= off <= n + 1,
                forall|o: int|
                    1 <= o < off ==> !seat_ready(
                        #[trigger] ps@[(from as int + o) % (n as int)],
                    ),
            decreases n + 1 - off,
        {
            let cand = (from as usize + off) % n;
            proof {
                assert(cand as int == (from as int + off as int) % (n as int));
            }
            match &ps[cand] {
                Some(p) => {
                    if matches!(p.status, PlayerStatus::Active) && p.chips > 0 {
                        proof {
                            if cand == from as usize {
                                // A full turn came back to the start: no
                                // other seat was ready on the way round.
                                vstd::arithmetic::div_mod::lemma_fundamental_div_mod(
                                    from as int + off as int,
                                    n as int,
                                );
                                vstd::arithmetic::div_mod::lemma_small_mod(
                                    from as nat,
                                    n as nat,
                                );
                                let q = (from as int + off as int) / (n as int);
                                assert(from as int + off as int == (n as int) * q + from as int);
                                assert(off as int == (n as int) * q);
                                assert(q == 1) by (nonlinear_arith)
                                    requires
                                        off as int == (n as int) * q,
                                        1 <= off as int <= n as int,
                                        n as int >= 1,
                                ;
                                assert(off as int == (n as int) * 1) by (nonlinear_arith)
                                    requires
                                        off as int == (n as int) * q,
                                        q == 1,
                                ;
                                assert(off == n);
                                if exists|m: int|
                                    0 <= m < ps@.len() && m != from as int && seat_ready(
                                        #[trigger] ps@[m],
                                    ) {
                                    let m = choose|m: int|
                                        0 <= m < ps@.len() && m != from as int && seat_ready(
                                            #[trigger] ps@[m],
                                        );
                                    lemma_seat_reachable(from as int, n as int, m);
                                    let o = choose|o: int|
                                        1 <= o <= n && #[trigger] ((from as int + o) % (
                                        n as int)) == m;
                                    if o == n {
                                        vstd::arithmetic::div_mod::lemma_mod_multiples_vanish(
                                            1,
                                            from as int,
                                            n as int,
                                        );
                                        assert((from as int + o) % (n as int) == from as int);
                                        assert(false);
                                    } else {
                                        assert(!seat_ready(
                                            ps@[(from as int + o) % (n as int)],
                                        ));
                                        assert(false);
                                    }
                                }
                            }
                        }
                        return (cand as u8);
                    }
                },
                None => {},
            }
            off = off + 1;
        }
        proof {
            if exists|m: int|
                0 <= m < ps@.len() && seat_ready(#[trigger] ps@[m]) {
                let m = choose|m: int| 0 <= m < ps@.len() && seat_ready(#[trigger] ps@[m]);
                lemma_seat_reachable(from as int, n as int, m);
                let o = choose|o: int|
                    1 <= o <= n && #[trigger] ((from as int + o) % (n as int)) == m;
                assert(!seat_ready(ps@[(from as int + o) % (n as int)]));
                assert(false);
            }
        }
        from
    }

    /// The next seat clockwise from `from` that may act; if none exists,
    /// `from` itself.
    #[verifier::loop_isolation(false)]
    fn find_next_can_act(&self, from: u8) -> (r: u8)
        requires
            (from as int) < self.table.players@.len(),
            self.table.players@.len() <= 255,
        ensures
            (r as int) < self.table.players@.len(),
            (exists|m: int|
                0 <= m < self.table.players@.len() && can_act(
                    #[trigger] self.table.players@[m],
                )) ==> can_act(self.table.players@[r as int]),
            r as int == spec_next_can_act(self.table.players@, from as int),
    {
        let ps = &self.table.players;
        let n = ps.len();
        let mut off: usize = 1;
        while off <= n
            invariant
                n == ps@.len(),
                (from as int) < n <= 255,
                1 <= off <= n + 1,
                forall|o: int|
                    1 <= o < off ==> !can_act(#[trigger] ps@[(from as int + o) % (n as int)]),
            decreases n + 1 - off,
        {
            let cand = (from as usize + off) % n;
            proof {
                assert(cand as int == (from as int + off as int) % (n as int));
            }
            match &ps[cand] {
                Some(p) => {
                    if !p.has_folded && !p.is_all_in && matches!(p.status, PlayerStatus::Active) {
                        proof {
                            lemma_next_can_act_skip(ps@, from as int, off as int);
                        }
                        return (cand as u8);
                    }
                },
                None => {},
            }
            off = off + 1;
        }
        proof {
            lemma_next_can_act_skip(ps@, from as int, n as int + 1);
            if exists|m: int|
                0 <= m < ps@.len() && can_act(#[trigger] ps@[m]) {
                let m = choose|m: int| 0 <= m < ps@.len() && can_act(#[trigger] ps@[m]);
                lemma_seat_reachable(from as int, n as int, m);
                let o = choose|o: int|
                    1 <= o <= n && #[trigger] ((from as int + o) % (n as int)) == m;
                assert(!can_act(ps@[(from as int + o) % (n as int)]));
                assert(false);
            }
        }
        from
    }

    /// Starts the action clock for the seat now on action.
    fn start_timer(&mut self, now: u64)
        requires
            config_ok(old(self).table.config),
        ensures
            (final(self).table == TableState {
                action_timer: final(self).table.action_timer,
                ..old(self).table
            }),
            final(self).table.action_timer is Some,
            (match final(self).table.action_timer {
                Some(tm) => tm.player_seat == old(self).table.action_on && tm.started_at == now
                    && tm.expires_at == sat_add(
                    now,
                    (old(self).table.config.action_timeout_secs * NS_PER_SEC) as u64,
                ) && !tm.using_time_bank,
                None => false,
            }),
            (*final(self) == Engine { table: final(self).table, ..*old(self) }),
    {
        let timeout_ns = self.table.config.action_timeout_secs * NS_PER_SEC;
        self.table.action_timer = Some(
            ActionTimer {
                player_seat: self.table.action_on,
                started_at: now,
                expires_at: now.saturating_add(timeout_ns),
                using_time_bank: false,
            },
        );
    }

    /// May a new hand be dealt?  Exactly when no hand is running and at
    /// least two seats hold active players with chips.
    pub fn can_start_hand(&self) -> (r: bool)
        ensures
            r <==> ((self.table.phase is WaitingForPlayers || self.table.phase is HandComplete)
                && count_ready_spec(self.table.players@) >= 2),
    {
        let phase_ok = matches!(self.table.phase, GamePhase::WaitingForPlayers) || matches!(
            self.table.phase,
            GamePhase::HandComplete,
        );
        phase_ok && self.count_ready() >= 2
    }

    /// Joins the table at a seat, buying in for the table minimum.
    pub fn join_table(&mut self, caller: u64, seat: u8, now: u64) -> (r: Result<(), GameError>)
        requires
            engine_wf(*old(self)),
        ensures
            engine_wf(*final(self)),
            engine_money(*final(self)) == engine_money(*old(self)),
            r is Err ==> *final(self) == *old(self),
            r is Ok ==> seat_holds(final(self).table.players@[seat as int], caller)
                && final(self).balances.balance_of(caller) == old(self).balances.balance_of(caller)
                - old(self).table.config.min_buy_in,
    {
        let amount = self.table.config.min_buy_in;
        self.buy_in(caller, seat, amount, now)
    }

    /// Posts the antes: every active seat with chips pays the ante, capped
    /// at its stack, into the pot.
    #[verifier::loop_isolation(false)]
    #[verifier::rlimit(60)]
    fn post_antes(&mut self)
        requires
            config_ok(old(self).table.config),
            old(self).balances.wf(),
            old(self).pending_withdrawals.wf(),
            engine_money(*old(self)) <= u64::MAX,
            old(self).table.pot as int == seats_bets(old(self).table.players@),
            forall|m: int|
                0 <= m < old(self).table.players@.len() ==> player_basics(
                    #[trigger] old(self).table.players@[m],
                    m,
                ),
            forall|m: int|
                0 <= m < old(self).table.players@.len() ==> match #[trigger] old(self).table.players@[m] {
                    Some(p) => !p.has_folded && (p.total_bet_this_hand > 0 ==> p.status
                        is Active),
                    None => true,
                },
        ensures
            (*final(self) == Engine { table: final(self).table, ..*old(self) }),
            (final(self).table == TableState {
                players: final(self).table.players,
                pot: final(self).table.pot,
                ..old(self).table
            }),
            engine_money(*final(self)) == engine_money(*old(self)),
            final(self).table.players@.len() == old(self).table.players@.len(),
            final(self).table.pot as int == seats_bets(final(self).table.players@),
            forall|m: int|
                0 <= m < final(self).table.players@.len() ==> player_basics(
                    #[trigger] final(self).table.players@[m],
                    m,
                ),
            forall|m: int|
                0 <= m < final(self).table.players@.len() ==> match #[trigger] final(self).table.players@[m] {
                    Some(p) => !p.has_folded && (p.total_bet_this_hand > 0 ==> p.status
                        is Active),
                    None => true,
                },
            forall|m: int|
                0 <= m < final(self).table.players@.len() ==> seat_active(
                    #[trigger] final(self).table.players@[m],
                ) == seat_active(old(self).table.players@[m]),
            forall|m: int|
                0 <= m < final(self).table.players@.len() ==> (match #[trigger] final(self).table.players@[m] {
                    Some(p) => p.hole_cards,
                    None => None,
                }) == (match old(self).table.players@[m] {
                    Some(p) => p.hole_cards,
                    None => None,
                }),
            forall|m: int|
                0 <= m < old(self).table.players@.len() ==> #[trigger] final(self).table.players@[m]
                    == post_ante_seat(old(self).table.players@[m], old(self).table.config.ante),
    {
        let n = self.table.players.len();
        let ghost e2 = *old(self);
        let ghost money0 = engine_money(e2);
        proof {
            lemma_seats_nonneg(e2.table.players@);
        }
        if self.table.config.ante == 0 {
            return ;
        }
        let mut i: usize = 0;
        while i < n
            invariant
                n == self.table.players@.len(),
                i <= n,
                (*self == Engine { table: self.table, ..e2 }),
                (self.table == TableState {
                    players: self.table.players,
                    pot: self.table.pot,
                    ..e2.table
                }),
                self.table.pot as int == seats_bets(self.table.players@),
                engine_money(*self) == money0,
                forall|m: int|
                    0 <= m < n ==> player_basics(#[trigger] self.table.players@[m], m),
                forall|m: int|
                    0 <= m < n ==> seat_active(#[trigger] self.table.players@[m])
                        == seat_active(e2.table.players@[m]),
                forall|m: int|
                    0 <= m < n ==> (match #[trigger] self.table.players@[m] {
                        Some(p) => p.hole_cards,
                        None => None,
                    }) == (match e2.table.players@[m] {
                        Some(p) => p.hole_cards,
                        None => None,
                    }),
                forall|m: int|
                    0 <= m < n ==> match #[trigger] self.table.players@[m] {
                        Some(p) => !p.has_folded && (p.total_bet_this_hand > 0 ==> p.status
                            is Active),
                        None => true,
                    },
                forall|m: int|
                    0 <= m < i ==> #[trigger] self.table.players@[m] == post_ante_seat(
                        e2.table.players@[m],
                        e2.table.config.ante,
                    ),
                forall|m: int|
                    i <= m < n ==> #[trigger] self.table.players@[m] == e2.table.players@[m],
            decreases n - i,
        {
            let ghost ps_before = self.table.players@;
            match self.table.players[i] {
                Some(p) => {
                    if matches!(p.status, PlayerStatus::Active) && p.chips > 0 {
                        let ante = if self.table.config.ante < p.chips {
                            self.table.config.ante
                        } else {
                            p.chips
                        };
                        proof {
                            lemma_seat_within(ps_before, i as int);
                            lemma_seats_nonneg(ps_before);
                            self.balances.lemma_balance_le_total(0);
                            self.pending_withdrawals.lemma_balance_le_total(0);
                        }
                        let mut p2 = p;
                        p2.chips = p2.chips - ante;
                        p2.total_bet_this_hand = p2.total_bet_this_hand + ante;
                        if p2.chips == 0 {
                            p2.is_all_in = true;
                        }
                        self.table.players.set(i, Some(p2));
                        self.table.pot = self.table.pot + ante;
                        proof {
                            lemma_seats_update(ps_before, i as int, Some(p2));
                        }
                    }
                },
                None => {},
            }
            i = i + 1;
        }
    }

    /// Posts one blind from a seat, capped at its chips; marks the seat
    /// all-in, and clears the big blind's option, when the blind takes the
    /// whole stack.
    #[verifier::rlimit(60)]
    fn post_blind(&mut self, seat: u8, blind_cfg: u64, is_big: bool)
        requires
            old(self).balances.wf(),
            old(self).pending_withdrawals.wf(),
            engine_money(*old(self)) <= u64::MAX,
            old(self).table.pot as int == seats_bets(old(self).table.players@),
            forall|m: int|
                0 <= m < old(self).table.players@.len() ==> player_basics(
                    #[trigger] old(self).table.players@[m],
                    m,
                ),
            forall|m: int|
                0 <= m < old(self).table.players@.len() ==> match #[trigger] old(self).table.players@[m] {
                    Some(p) => !p.has_folded && (p.total_bet_this_hand > 0 ==> p.status
                        is Active),
                    None => true,
                },
        ensures
            (*final(self) == Engine { table: final(self).table, ..*old(self) }),
            (final(self).table == TableState {
                players: final(self).table.players,
                pot: final(self).table.pot,
                bb_has_option: final(self).table.bb_has_option,
                ..old(self).table
            }),
            engine_money(*final(self)) == engine_money(*old(self)),
            final(self).table.players@.len() == old(self).table.players@.len(),
            final(self).table.pot as int == seats_bets(final(self).table.players@),
            forall|m: int|
                0 <= m < final(self).table.players@.len() ==> player_basics(
                    #[trigger] final(self).table.players@[m],
                    m,
                ),
            forall|m: int|
                0 <= m < final(self).table.players@.len() ==> match #[trigger] final(self).table.players@[m] {
                    Some(p) => !p.has_folded && (p.total_bet_this_hand > 0 ==> p.status
                        is Active),
                    None => true,
                },
            forall|m: int|
                0 <= m < final(self).table.players@.len() ==> seat_active(
                    #[trigger] final(self).table.players@[m],
                ) == seat_active(old(self).table.players@[m]),
            forall|m: int|
                0 <= m < final(self).table.players@.len() ==> (match #[trigger] final(self).table.players@[m] {
                    Some(p) => p.hole_cards,
                    None => None,
                }) == (match old(self).table.players@[m] {
                    Some(p) => p.hole_cards,
                    None => None,
                }),
            forall|m: int|
                0 <= m < old(self).table.players@.len() && m != seat as int
                    ==> #[trigger] final(self).table.players@[m] == old(self).table.players@[m],
            ((seat as int) < old(self).table.players@.len() && (match old(self).table.players@[seat as int] {
                Some(p) => p.status is Active,
                None => false,
            })) ==> ({
                let p = old(self).table.players@[seat as int]->Some_0;
                let b = if blind_cfg < p.chips {
                    blind_cfg as int
                } else {
                    p.chips as int
                };
                &&& (match final(self).table.players@[seat as int] {
                    Some(q) => q.chips == p.chips - b && q.current_bet == b
                        && q.total_bet_this_hand == p.total_bet_this_hand + b && q.is_all_in == (
                    p.is_all_in || p.chips == b) && q == (Player {
                        chips: q.chips,
                        current_bet: q.current_bet,
                        total_bet_this_hand: q.total_bet_this_hand,
                        is_all_in: q.is_all_in,
                        ..p
                    }),
                    None => false,
                })
                &&& final(self).table.pot == old(self).table.pot + b
                &&& final(self).table.bb_has_option == (if is_big && p.chips == b {
                    false
                } else {
                    old(self).table.bb_has_option
                })
            }),
            !((seat as int) < old(self).table.players@.len() && (match old(self).table.players@[seat as int] {
                Some(p) => p.status is Active,
                None => false,
            })) ==> *final(self) == *old(self),
    {
        let ghost ps_sb = self.table.players@;
        proof {
            lemma_seats_nonneg(ps_sb);
            self.balances.lemma_balance_le_total(0);
            self.pending_withdrawals.lemma_balance_le_total(0);
        }
        if (seat as usize) < self.table.players.len() {
            match self.table.players[seat as usize] {
                Some(p) => {
                    if matches!(p.status, PlayerStatus::Active) {
                        let blind = if blind_cfg < p.chips {
                            blind_cfg
                        } else {
                            p.chips
                        };
                        proof {
                            lemma_seat_within(ps_sb, seat as int);
                        }
                        let mut p2 = p;
                        p2.chips = p2.chips - blind;
                        p2.current_bet = blind;
                        p2.total_bet_this_hand = p2.total_bet_this_hand + blind;
                        if p2.chips == 0 {
                            p2.is_all_in = true;
                            if is_big {
                                self.table.bb_has_option = false;
                            }
                        }
                        self.table.players.set(seat as usize, Some(p2));
                        self.table.pot = self.table.pot + blind;
                        proof {
                            lemma_seats_update(ps_sb, seat as int, Some(p2));
                        }
                    }
                },
                None => {},
            }
        }
    }

    /// Deals two hole cards to every active seat.
    #[verifier::loop_isolation(false)]
    #[verifier::rlimit(60)]
    fn deal_hole_cards(&mut self)
        requires
            old(self).table.players@.len() <= 10,
            old(self).table.deck@.len() == 52,
            old(self).table.deck_index == 0,
            count_active(old(self).table.players@) >= 2,
            old(self).table.pot as int == seats_bets(old(self).table.players@),
            forall|m: int|
                0 <= m < old(self).table.players@.len() ==> player_basics(
                    #[trigger] old(self).table.players@[m],
                    m,
                ),
            forall|m: int|
                0 <= m < old(self).table.players@.len() ==> match #[trigger] old(self).table.players@[m] {
                    Some(p) => !p.has_folded && (p.total_bet_this_hand > 0 ==> p.status
                        is Active),
                    None => true,
                },
        ensures
            (*final(self) == Engine { table: final(self).table, ..*old(self) }),
            (final(self).table == TableState {
                players: final(self).table.players,
                deck_index: final(self).table.deck_index,
                ..old(self).table
            }),
            seats_money(final(self).table.players@) == seats_money(old(self).table.players@),
            final(self).table.players@.len() == old(self).table.players@.len(),
            final(self).table.pot as int == seats_bets(final(self).table.players@),
            final(self).table.deck_index <= 52,
            count_in_hand(final(self).table.players@) >= 2,
            forall|m: int|
                0 <= m < final(self).table.players@.len() ==> player_ok(
                    #[trigger] final(self).table.players@[m],
                    m,
                ),
            final(self).table.deck_index == 2 * count_active(old(self).table.players@),
            forall|m: int|
                0 <= m < old(self).table.players@.len() ==> #[trigger] final(self).table.players@[m]
                    == (match old(self).table.players@[m] {
                    Some(p) => if p.status is Active {
                        Some(
                            Player {
                                hole_cards: Some(
                                    (
                                        old(self).table.deck@[2 * count_active(
                                            old(self).table.players@.take(m),
                                        )],
                                        old(self).table.deck@[2 * count_active(
                                            old(self).table.players@.take(m),
                                        ) + 1],
                                    ),
                                ),
                                ..p
                            },
                        )
                    } else {
                        Some(p)
                    },
                    None => None,
                }),
    {
        let n = self.table.players.len();
        let ghost e3 = *old(self);
        let ghost ps_deal = self.table.players@;
        let mut dealt: usize = 0;
        let mut i: usize = 0;
        while i < n
            invariant
                n == self.table.players@.len(),
                n <= 10,
                i <= n,
                dealt <= i,
                (*self == Engine { table: self.table, ..e3 }),
                (self.table == TableState {
                    players: self.table.players,
                    deck_index: self.table.deck_index,
                    ..e3.table
                }),
                self.table.deck@.len() == 52,
                self.table.deck_index == 2 * dealt,
                ps_deal.len() == n,
                dealt as int == count_active(ps_deal.take(i as int)),
                seats_money(self.table.players@) == seats_money(ps_deal),
                seats_bets(self.table.players@) == seats_bets(ps_deal),
                forall|m: int|
                    0 <= m < i ==> #[trigger] self.table.players@[m] == (match ps_deal[m] {
                        Some(p) => if p.status is Active {
                            Some(
                                Player {
                                    hole_cards: Some(
                                        (
                                            e3.table.deck@[2 * count_active(ps_deal.take(m))],
                                            e3.table.deck@[2 * count_active(ps_deal.take(m)) + 1],
                                        ),
                                    ),
                                    ..p
                                },
                            )
                        } else {
                            Some(p)
                        },
                        None => None,
                    }),
                forall|m: int|
                    i <= m < n ==> #[trigger] self.table.players@[m] == ps_deal[m],
                forall|m: int|
                    0 <= m < n ==> player_basics(#[trigger] self.table.players@[m], m),
                forall|m: int|
                    0 <= m < n ==> match #[trigger] self.table.players@[m] {
                        Some(p) => !p.has_folded && (p.total_bet_this_hand > 0 ==> p.status
                            is Active),
                        None => true,
                    },
                forall|m: int|
                    0 <= m < i ==> (seat_active(ps_deal[m]) ==> in_hand(
                        #[trigger] self.table.players@[m],
                    )),
                forall|m: int|
                    0 <= m < n ==> seat_active(#[trigger] self.table.players@[m]) == seat_active(
                        ps_deal[m],
                    ),
            decreases n - i,
        {
            let ghost ps_before = self.table.players@;
            proof {
                assert(ps_deal.take(i + 1).drop_last() =~= ps_deal.take(i as int));
                assert(ps_deal.take(i + 1).last() == ps_deal[i as int]);
            }
            match self.table.players[i] {
                Some(p) => {
                    if matches!(p.status, PlayerStatus::Active) {
                        let c1 = self.table.deck[self.table.deck_index];
                        let c2 = self.table.deck[self.table.deck_index + 1];
                        let mut p2 = p;
                        p2.hole_cards = Some((c1, c2));
                        self.table.players.set(i, Some(p2));
                        self.table.deck_index = self.table.deck_index + 2;
                        dealt = dealt + 1;
                        proof {
                            lemma_seats_update(ps_before, i as int, Some(p2));
                        }
                    }
                },
                None => {},
            }
            i = i + 1;
        }
        proof {
            assert(ps_deal.take(n as int) =~= ps_deal);
            lemma_active_le_in_hand(ps_deal, self.table.players@);
            lemma_seats_nonneg(self.table.players@);
            assert forall|m: int|
                0 <= m < self.table.players@.len() implies player_ok(
                #[trigger] self.table.players@[m],
                m,
            ) by {
                match self.table.players@[m] {
                    Some(p) => {
                        if p.total_bet_this_hand > 0 {
                            assert(p.status is Active);
                            assert(seat_active(ps_deal[m]));
                        }
                    },
                    None => {},
                }
            }
        }
    }

    /// Starts a new hand from 32 bytes of entropy: commits to the seed's
    /// hash, shuffles deterministically, posts antes and blinds, deals the
    /// active seats in, and opens the pre-flop betting.
    ///
    /// Fails, changing no money, unless the table is between hands with at
    /// least two active seats holding chips.  On success the deck is
    /// exactly the seed's shuffle of the canonical deck, the published
    /// commitment is the hex of the seed's SHA-256 hash with the seed
    /// itself still hidden, and the pot holds exactly the antes and
    /// blinds posted.
    #[verifier::loop_isolation(false)]
    #[verifier::rlimit(100)]
    pub fn start_hand_with_seed(&mut self, seed: Vec<u8>, now: u64) -> (r: Result<
        ShuffleProof,
        GameError,
    >)
        requires
            engine_wf(*old(self)),
        ensures
            engine_wf(*final(self)),
            engine_money(*final(self)) == engine_money(*old(self)),
            final(self).balances == old(self).balances,
            r is Err ==> final(self).table.phase == old(self).table.phase,
            r is Ok ==> {
                &&& final(self).table.phase is PreFlop
                &&& pot_exact(final(self).table)
                &&& final(self).table.deck@ == spec_shuffle(
                    crate::cards::standard_deck(),
                    seed@,
                )
                &&& final(self).current_seed == Some(seed)
                &&& match final(self).table.shuffle_proof {
                    Some(proof) => proof.seed_hash@ == crate::shuffle::seed_hash_of(seed@)
                        && proof.revealed_seed is None,
                    None => false,
                }
                &&& old(self).table.hand_number < u64::MAX ==> final(self).table.hand_number
                    == old(self).table.hand_number + 1
            },
            !((old(self).table.phase is WaitingForPlayers || old(self).table.phase is HandComplete) && count_ready_spec(old(self).table.players@) >= 2)
                ==> r is Err,
            r is Ok <==> ((old(self).table.phase is WaitingForPlayers || old(self).table.phase
                is HandComplete) && count_ready_spec(swept_players(old(self).table.players@, now))
                >= 2),
            r is Err ==> (*final(self) == Engine { table: final(self).table, ..*old(self) }) && (
            final(self).table == TableState {
                players: final(self).table.players,
                ..old(self).table
            }) && (final(self).table.players@ == old(self).table.players@
                || final(self).table.players@ == swept_players(old(self).table.players@, now)),
            r is Ok ==> final(self).table.current_bet == old(self).table.config.big_blind
                && final(self).table.min_raise == old(self).table.config.big_blind,
            r is Ok && count_ready_spec(swept_players(old(self).table.players@, now)) == 2
                ==> final(self).table.small_blind_seat == final(self).table.dealer_seat,
            r is Ok ==> final(self).table.action_on as int == spec_next_can_act(
                final(self).table.players@,
                final(self).table.big_blind_seat as int,
            ),
            r is Ok ==> ({
                let sw = swept_players(old(self).table.players@, now);
                let sbn = final(self).table.small_blind_seat as int;
                let bbn = final(self).table.big_blind_seat as int;
                let av = old(self).table.config.ante;
                let sbv = old(self).table.config.small_blind;
                let bbv = old(self).table.config.big_blind;
                &&& sbn != bbn
                &&& final(self).table.players@.len() == sw.len()
                &&& final(self).table.deck_index == 2 * count_active(sw)
                &&& (forall|m: int|
                    0 <= m < sw.len() ==> (match #[trigger] final(self).table.players@[m] {
                        Some(q) => match sw[m] {
                            Some(p0) => {
                                let ante_amt = if p0.status is Active && p0.chips > 0 {
                                    if av < p0.chips {
                                        av as int
                                    } else {
                                        p0.chips as int
                                    }
                                } else {
                                    0
                                };
                                let sb_amt = if m == sbn && p0.status is Active {
                                    if (sbv as int) < p0.chips - ante_amt {
                                        sbv as int
                                    } else {
                                        p0.chips - ante_amt
                                    }
                                } else {
                                    0
                                };
                                let bb_amt = if m == bbn && p0.status is Active {
                                    if (bbv as int) < p0.chips - ante_amt {
                                        bbv as int
                                    } else {
                                        p0.chips - ante_amt
                                    }
                                } else {
                                    0
                                };
                                &&& q.status == p0.status
                                &&& q.principal == p0.principal
                                &&& q.chips == p0.chips - ante_amt - sb_amt - bb_amt
                                &&& q.total_bet_this_hand == ante_amt + sb_amt + bb_amt
                                &&& q.current_bet == sb_amt + bb_amt
                                &&& q.is_all_in == (p0.status is Active && q.chips == 0)
                                &&& !q.has_folded
                                &&& !q.has_acted_this_round
                                &&& (p0.status is Active ==> q.hole_cards == Some(
                                    (
                                        final(self).table.deck@[2 * count_active(sw.take(m))],
                                        final(self).table.deck@[2 * count_active(sw.take(m))
                                            + 1],
                                    ),
                                ))
                                &&& (!(p0.status is Active) ==> q.hole_cards is None)
                            },
                            None => false,
                        },
                        None => sw[m] is None,
                    }))
                &&& final(self).table.bb_has_option == (match final(self).table.players@[bbn] {
                    Some(q) => !q.is_all_in,
                    None => true,
                })
            }),
    {
        if !self.can_start_hand() {
            proof {
                let ps = self.table.players@;
                let sw = swept_players(ps, now);
                assert forall|m: int| 0 <= m < sw.len() implies (seat_ready(#[trigger] sw[m])
                    ==> seat_ready(ps[m])) by {
                    assert(sw[m] == sweep_seat(ps[m], now));
                }
                lemma_count_ready_le_pointwise(sw, ps);
            }
            return Err(GameError::Precondition);
        }
        let now_ts = now;
        let ghost e0 = *old(self);
        // Seats that asked to sit out, and busted seats, sit out first.
        let n = self.table.players.len();
        let mut i: usize = 0;
        while i < n
            invariant
                n == self.table.players@.len(),
                i <= n,
                (*self == Engine { table: self.table, ..e0 }),
                (self.table == TableState { players: self.table.players, ..e0.table }),
                seats_money(self.table.players@) == seats_money(e0.table.players@),
                seats_bets(self.table.players@) == seats_bets(e0.table.players@),
                forall|m: int| 0 <= m < n ==> player_ok(#[trigger] self.table.players@[m], m),
                forall|m: int|
                    0 <= m < n ==> seat_chips(#[trigger] self.table.players@[m]) == seat_chips(
                        e0.table.players@[m],
                    ),
                forall|m: int|
                    0 <= m < i ==> #[trigger] self.table.players@[m] == sweep_seat(
                        e0.table.players@[m],
                        now,
                    ),
                forall|m: int|
                    i <= m < n ==> #[trigger] self.table.players@[m] == e0.table.players@[m],
            decreases n - i,
        {
            let ghost ps_before = self.table.players@;
            match self.table.players[i] {
                Some(p) => {
                    let mut p2 = p;
                    if p2.is_sitting_out_next_hand {
                        p2.status = PlayerStatus::SittingOut;
                        p2.sitting_out_since = Some(now_ts);
                        p2.is_sitting_out_next_hand = false;
                    }
                    if matches!(p2.status, PlayerStatus::Active) && p2.chips == 0 {
                        p2.status = PlayerStatus::SittingOut;
                        p2.sitting_out_since = Some(now_ts);
                    }
                    self.table.players.set(i, Some(p2));
                    proof {
                        lemma_seats_update(ps_before, i as int, Some(p2));
                    }
                },
                None => {},
            }
            i = i + 1;
        }
        proof {
            assert(self.table.players@ =~= swept_players(e0.table.players@, now));
        }
        // Enough players must still be willing to play.
        if self.count_ready() < 2 {
            return Err(GameError::Precondition);
        }
        let ghost ps_recheck = self.table.players@;
        proof {
            lemma_seats_nonneg(self.table.players@);
            lemma_ready_le_active(ps_recheck);
        }
        // Commit to the seed and shuffle the canonical deck with it.
        let proof_rec = commit_seed(&seed, now_ts);
        let mut deck = create_deck();
        shuffle_deck(&mut deck, &seed);
        let published = ShuffleProof {
            seed_hash: clone_string(&proof_rec.seed_hash),
            revealed_seed: None,
            timestamp: now_ts,
        };
        // Move the button and set the blinds.
        let dealer = if self.table.first_hand {
            self.table.first_hand = false;
            self.find_next_ready(0)
        } else {
            let d = self.table.dealer_seat;
            if (d as usize) < self.table.players.len() {
                self.find_next_ready(d)
            } else {
                self.find_next_ready(0)
            }
        };
        self.table.dealer_seat = dealer;
        let ready = self.count_ready();
        let (sb, bb) = if ready == 2 {
            proof {
                lemma_two_ready(self.table.players@, dealer as int);
            }
            let b = self.find_next_ready(dealer);
            (dealer, b)
        } else {
            let s = self.find_next_ready(dealer);
            proof {
                lemma_two_ready(self.table.players@, s as int);
            }
            let b = self.find_next_ready(s);
            (s, b)
        };
        self.table.small_blind_seat = sb;
        self.table.big_blind_seat = bb;
        // Reset the hand state.
        self.table.deck = deck;
        self.table.deck_index = 0;
        self.table.community_cards = Vec::new();
        self.table.pot = 0;
        self.table.side_pots = Vec::new();
        self.table.current_bet = self.table.config.big_blind;
        self.table.min_raise = self.table.config.big_blind;
        self.table.shuffle_proof = Some(published);
        self.table.hand_number = self.table.hand_number.saturating_add(1);
        self.table.last_aggressor = None;
        self.table.bb_has_option = true;
        self.table.auto_deal_at = None;
        self.current_seed = Some(seed);
        self.starting_chips = IdMap::new();
        self.shown_cards = Vec::new();
        self.current_actions = Vec::new();
        // Reset the seats and remember their starting stacks.
        let ghost e1 = *self;
        let mut i: usize = 0;
        while i < n
            invariant
                n == self.table.players@.len(),
                i <= n,
                (*self == Engine {
                    table: self.table,
                    starting_chips: self.starting_chips,
                    ..e1
                }),
                (self.table == TableState { players: self.table.players, ..e1.table }),
                self.starting_chips.wf(),
                seats_money(self.table.players@) == seats_money(e1.table.players@),
                forall|m: int| i <= m < n ==> #[trigger] self.table.players@[m] == e1.table.players@[m],
                forall|m: int| 0 <= m < i ==> seat_bet(#[trigger] self.table.players@[m]) == 0,
                forall|m: int|
                    0 <= m < n ==> seat_chips(#[trigger] self.table.players@[m]) == seat_chips(
                        e1.table.players@[m],
                    ),
                forall|m: int|
                    0 <= m < n ==> seat_active(#[trigger] self.table.players@[m]) == seat_active(
                        e1.table.players@[m],
                    ),
                forall|m: int| 0 <= m < n ==> player_ok(#[trigger] self.table.players@[m], m),
                forall|m: int|
                    0 <= m < i ==> match #[trigger] self.table.players@[m] {
                        Some(p) => !p.has_folded && !p.is_all_in && p.current_bet == 0
                            && p.total_bet_this_hand == 0,
                        None => true,
                    },
                forall|m: int|
                    0 <= m < i ==> #[trigger] self.table.players@[m] == new_hand_reset_seat(
                        e1.table.players@[m],
                    ),
            decreases n - i,
        {
            let ghost ps_before = self.table.players@;
            match self.table.players[i] {
                Some(p) => {
                    self.starting_chips.insert(i as u64, p.chips);
                    let mut p2 = p;
                    p2.hole_cards = None;
                    p2.current_bet = 0;
                    p2.total_bet_this_hand = 0;
                    p2.has_folded = false;
                    p2.has_acted_this_round = false;
                    p2.is_all_in = false;
                    self.table.players.set(i, Some(p2));
                    proof {
                        lemma_seats_update(ps_before, i as int, Some(p2));
                    }
                },
                None => {},
            }
            i = i + 1;
        }
        proof {
            lemma_bets_zero(self.table.players@);
            lemma_seats_nonneg(self.table.players@);
        }
        proof {
            lemma_seats_nonneg(e0.table.players@);
            assert(self.balances == e0.balances);
            assert(engine_money(*self) <= engine_money(e0));
            lemma_bets_zero(self.table.players@);
        }
        let ghost ps_a = self.table.players@;
        self.post_antes();
        let ghost ps_b = self.table.players@;
        let sb_amount = self.table.config.small_blind;
        self.post_blind(sb, sb_amount, false);
        let ghost ps_c = self.table.players@;
        let bb_amount = self.table.config.big_blind;
        self.post_blind(bb, bb_amount, true);
        let ghost ps_d = self.table.players@;
        proof {
            assert(engine_money(*self) <= u64::MAX);
            assert(e1.table.players@ == ps_recheck);
            crate::table::lemma_count_active_pointwise(ps_a, e1.table.players@);
            crate::table::lemma_count_active_pointwise(ps_b, ps_a);
            crate::table::lemma_count_active_pointwise(ps_c, ps_b);
            crate::table::lemma_count_active_pointwise(self.table.players@, ps_c);
            assert(count_active(self.table.players@) >= 2);
        }
        self.deal_hole_cards();
        proof {
            lemma_seats_nonneg(self.table.players@);
        }
        // Action starts left of the big blind.
        self.table.phase = GamePhase::PreFlop;
        let next = self.find_next_can_act(bb);
        self.table.action_on = next;
        self.start_timer(now_ts);
        // Open this hand's history entry; the seed is revealed only when
        // the hand ends.
        let hist = HandHistory {
            hand_number: self.table.hand_number,
            shuffle_proof: proof_rec,
            actions: Vec::new(),
            winners: Vec::new(),
            community_cards: Vec::new(),
            showdown_players: Vec::new(),
        };
        self.hand_history.push(hist);
        let published2 = match &self.table.shuffle_proof {
            Some(pr) => ShuffleProof {
                seed_hash: clone_string(&pr.seed_hash),
                revealed_seed: None,
                timestamp: pr.timestamp,
            },
            None => ShuffleProof {
                seed_hash: String::new(),
                revealed_seed: None,
                timestamp: now_ts,
            },
        };
        proof {
            let sw = swept_players(e0.table.players@, now);
            let nn = sw.len() as int;
            let av = e0.table.config.ante;
            let sbn = sb as int;
            let bbn = bb as int;
            assert(ps_recheck =~= sw);
            assert forall|k: int| 0 <= k < nn implies seat_active(#[trigger] ps_d[k])
                == seat_active(sw[k]) by {
                assert(ps_a[k] == new_hand_reset_seat(sw[k]));
                assert(ps_b[k] == post_ante_seat(ps_a[k], av));
                if k != sbn {
                    assert(ps_c[k] == ps_b[k]);
                }
                if k != bbn {
                    assert(ps_d[k] == ps_c[k]);
                }
            }
            assert forall|m: int|
                0 <= m < nn implies count_active(ps_d.take(m)) == count_active(sw.take(m)) by {
                assert forall|k: int|
                    0 <= k < m implies seat_active(#[trigger] ps_d.take(m)[k]) == seat_active(
                    sw.take(m)[k],
                ) by {
                    assert(ps_d.take(m)[k] == ps_d[k] && sw.take(m)[k] == sw[k]);
                }
                crate::table::lemma_count_active_pointwise(ps_d.take(m), sw.take(m));
            }
            assert(ps_d.take(nn) =~= ps_d);
            assert(sw.take(nn) =~= sw);
            assert(count_active(ps_d) == count_active(sw));
        }
        Ok(published2)
    }
}

/// Copies a string.
pub fn clone_string(s: &String) -> (r: String)
    ensures
        r@ == s@,
{
    String::from_str(s.as_str())
}


/// Copies a winner record.
pub fn clone_winner(w: &Winner) -> (r: Winner)
    ensures
        r.seat == w.seat,
        r.principal == w.principal,
        r.amount == w.amount,
        r.cards == w.cards,
        (match w.hand_rank {
            Some(h) => r.hand_rank matches Some(h2) && h2@ == h@,
            None => r.hand_rank is None,
        }),
{
    Winner {
        seat: w.seat,
        principal: w.principal,
        amount: w.amount,
        hand_rank: match &w.hand_rank {
            Some(h) => Some(crate::showdown::clone_rank(h)),
            None => None,
        },
        cards: w.cards,
    }
}

/// Copies a winner list; the amounts carry over exactly.
pub fn clone_winners(ws: &Vec<Winner>) -> (r: Vec<Winner>)
    ensures
        r@.len() == ws@.len(),
        sum_winners(r@) == sum_winners(ws@),
        forall|i: int|
            0 <= i < r@.len() ==> (#[trigger] r@[i]).seat == ws@[i].seat && r@[i].amount == ws@[
                i
            ].amount && r@[i].principal == ws@[i].principal && (match ws@[i].hand_rank {
                Some(h) => r@[i].hand_rank matches Some(h2) && h2@ == h@,
                None => r@[i].hand_rank is None,
            }),
{
    let mut out: Vec<Winner> = Vec::new();
    let mut i: usize = 0;
    while i < ws.len()
        invariant
            i <= ws@.len(),
            out@.len() == i,
            sum_winners(out@) == sum_winners(ws@.take(i as int)),
            forall|m: int|
                0 <= m < i ==> (#[trigger] out@[m]).seat == ws@[m].seat && out@[m].amount == ws@[
                    m
                ].amount && out@[m].principal == ws@[m].principal && (match ws@[m].hand_rank {
                    Some(h) => out@[m].hand_rank matches Some(h2) && h2@ == h@,
                    None => out@[m].hand_rank is None,
                }),
        decreases ws@.len() - i,
    {
        let w = clone_winner(&ws[i]);
        let ghost before = out@;
        out.push(w);
        proof {
            assert(out@.drop_last() =~= before);
            assert(ws@.take(i + 1).drop_last() =~= ws@.take(i as int));
            assert(ws@.take(i + 1).last() == ws@[i as int]);
        }
        i = i + 1;
    }
    proof {
        assert(ws@.take(ws@.len() as int) =~= ws@);
    }
    out
}

impl Engine {
    /// Moves the hidden seed into the published commitment, in the table
    /// state and in the running hand's history entry.
    fn reveal_seed_on_hand_end(&mut self)
        ensures
            (*final(self) == Engine {
                table: final(self).table,
                hand_history: final(self).hand_history,
                current_seed: None,
                ..*old(self)
            }),
            (final(self).table == TableState {
                shuffle_proof: final(self).table.shuffle_proof,
                ..old(self).table
            }),
            match old(self).current_seed {
                Some(seed) => match old(self).table.shuffle_proof {
                    Some(pr) => match final(self).table.shuffle_proof {
                        Some(pr2) => pr2.seed_hash@ == pr.seed_hash@ && match pr2.revealed_seed {
                            Some(rv) => rv@ == crate::hex::hex_of(seed@),
                            None => false,
                        },
                        None => false,
                    },
                    None => true,
                },
                None => true,
            },
            match old(self).current_seed {
                Some(seed) => old(self).hand_history@.len() > 0 ==> ({
                    let n = old(self).hand_history@.len();
                    let e = old(self).hand_history@[n - 1];
                    let e2 = final(self).hand_history@[n - 1];
                    &&& final(self).hand_history@.len() == n
                    &&& (forall|k: int|
                        0 <= k < n - 1 ==> #[trigger] final(self).hand_history@[k]
                            == old(self).hand_history@[k])
                    &&& e2.hand_number == e.hand_number
                    &&& e2.shuffle_proof.seed_hash == e.shuffle_proof.seed_hash
                    &&& e2.shuffle_proof.timestamp == e.shuffle_proof.timestamp
                    &&& (match e2.shuffle_proof.revealed_seed {
                        Some(rv) => rv@ == crate::hex::hex_of(seed@),
                        None => false,
                    })
                    &&& e2.actions == e.actions
                    &&& e2.winners == e.winners
                    &&& e2.community_cards == e.community_cards
                    &&& e2.showdown_players == e.showdown_players
                }),
                None => final(self).hand_history == old(self).hand_history,
            },
    {
        let seed = match &self.current_seed {
            Some(s) => {
                let mut copy: Vec<u8> = Vec::new();
                let mut k: usize = 0;
                while k < s.len()
                    invariant
                        k <= s@.len(),
                        copy@ =~= s@.take(k as int),
                    decreases s@.len() - k,
                {
                    copy.push(s[k]);
                    proof {
                        assert(copy@ =~= s@.take(k + 1));
                    }
                    k = k + 1;
                }
                proof {
                    assert(s@.take(s@.len() as int) =~= s@);
                }
                Some(copy)
            },
            None => None,
        };
        self.current_seed = None;
        match seed {
            Some(bytes) => {
                let hex_seed = crate::hex::encode(&bytes);
                match &self.table.shuffle_proof {
                    Some(pr) => {
                        let updated = ShuffleProof {
                            seed_hash: clone_string(&pr.seed_hash),
                            revealed_seed: Some(clone_string(&hex_seed)),
                            timestamp: pr.timestamp,
                        };
                        self.table.shuffle_proof = Some(updated);
                    },
                    None => {},
                }
                // Mirror the reveal into the hand's history entry.
                if self.hand_history.len() > 0 {
                    let idx = self.hand_history.len() - 1;
                    match self.hand_history.pop() {
                        Some(entry) => {
                            let updated = HandHistory {
                                hand_number: entry.hand_number,
                                shuffle_proof: ShuffleProof {
                                    seed_hash: entry.shuffle_proof.seed_hash,
                                    revealed_seed: Some(hex_seed),
                                    timestamp: entry.shuffle_proof.timestamp,
                                },
                                actions: entry.actions,
                                winners: entry.winners,
                                community_cards: entry.community_cards,
                                showdown_players: entry.showdown_players,
                            };
                            self.hand_history.push(updated);
                        },
                        None => {},
                    }
                }
            },
            None => {},
        }
    }

    /// Ends the hand with the pot going to a lone survivor: the first seat
    /// still in the hand takes everything, the seed is revealed, and the
    /// table waits for the next deal.
    #[verifier::loop_isolation(false)]
    #[verifier::rlimit(60)]
    fn end_hand_single_winner(&mut self, now: u64)
        requires
            engine_wf_core(*old(self)),
            phase_live(old(self).table.phase),
            count_in_hand(old(self).table.players@) >= 1,
        ensures
            engine_wf(*final(self)),
            engine_money(*final(self)) == engine_money(*old(self)),
            final(self).balances == old(self).balances,
            final(self).table.phase is HandComplete,
            final(self).table.pot == 0,
            sum_winners(final(self).last_hand_winners@) == old(self).table.pot,
            final(self).table.players@.len() == old(self).table.players@.len(),
            forall|m: int|
                0 <= m < old(self).table.players@.len() ==> seat_record_kept(
                    #[trigger] old(self).table.players@[m],
                    final(self).table.players@[m],
                ),
            final(self).current_actions == old(self).current_actions,
            ({
                let i = spec_first_in_hand(old(self).table.players@);
                let p = old(self).table.players@[i]->Some_0;
                &&& final(self).last_hand_winners@.len() == 1
                &&& final(self).last_hand_winners@[0].seat as int == i
                &&& final(self).last_hand_winners@[0].principal == p.principal
                &&& final(self).last_hand_winners@[0].amount == old(self).table.pot
                &&& final(self).last_hand_winners@[0].hand_rank is None
                &&& final(self).last_hand_winners@[0].cards is None
                &&& (match final(self).table.players@[i] {
                    Some(q) => q.chips == p.chips + old(self).table.pot,
                    None => false,
                })
            }),
    {
        self.reveal_seed_on_hand_end();
        // The survivor: the first seat still in the hand.
        let n = self.table.players.len();
        proof {
            lemma_count_positive_witness(self.table.players@);
        }
        let mut winner_seat: usize = 0;
        let mut found = false;
        let mut i: usize = 0;
        while i < n
            invariant
                n == self.table.players@.len(),
                i <= n,
                found ==> winner_seat < n && in_hand(
                    self.table.players@[winner_seat as int],
                ),
                found ==> forall|m: int|
                    0 <= m < winner_seat ==> !in_hand(#[trigger] self.table.players@[m]),
                !found ==> forall|m: int|
                    0 <= m < i ==> !in_hand(#[trigger] self.table.players@[m]),
            decreases n - i,
        {
            if !found {
                match &self.table.players[i] {
                    Some(p) => {
                        if !p.has_folded && p.hole_cards.is_some() {
                            winner_seat = i;
                            found = true;
                        }
                    },
                    None => {},
                }
            }
            i = i + 1;
        }
        proof {
            if !found {
                let m = choose|m: int|
                    0 <= m < self.table.players@.len() && in_hand(
                        #[trigger] self.table.players@[m],
                    );
                assert(false);
            }
            lemma_first_in_hand_skip(self.table.players@, winner_seat as int);
            assert(spec_first_in_hand(self.table.players@) == winner_seat as int);
        }
        let pot = self.table.pot;
        let ghost ps_before = self.table.players@;
        let mut winner_list: Vec<Winner> = Vec::new();
        match self.table.players[winner_seat] {
            Some(p) => {
                proof {
                    lemma_seat_within(ps_before, winner_seat as int);
                    lemma_seats_nonneg(ps_before);
                    self.balances.lemma_balance_le_total(0);
                    self.pending_withdrawals.lemma_balance_le_total(0);
                }
                let mut p2 = p;
                p2.chips = p2.chips + pot;
                self.table.players.set(winner_seat, Some(p2));
                proof {
                    lemma_seats_update(ps_before, winner_seat as int, Some(p2));
                }
                let w = Winner {
                    seat: winner_seat as u8,
                    principal: p.principal,
                    amount: pot,
                    hand_rank: None,
                    cards: None,
                };
                winner_list.push(w);
                proof {
                    assert(winner_list@.drop_last() =~= Seq::<Winner>::empty());
                    assert(winner_list@.last() == w);
                    assert(sum_winners(Seq::<Winner>::empty()) == 0);
                    assert(sum_winners(winner_list@) == pot);
                }
            },
            None => {
                proof {
                    assert(false);
                }
            },
        }
        self.table.pot = 0;
        self.finish_hand(winner_list, now);
    }

    /// Books the winners into the hand's records and closes the hand.
    #[verifier::loop_isolation(false)]
    fn finish_hand(&mut self, winner_list: Vec<Winner>, now: u64)
        requires
            crate::table::config_ok(old(self).table.config),
            old(self).table.players@.len() == old(self).table.config.max_players as int,
            (old(self).table.action_on as int) < old(self).table.players@.len(),
            (old(self).table.dealer_seat as int) < old(self).table.players@.len(),
            (old(self).table.small_blind_seat as int) < old(self).table.players@.len(),
            (old(self).table.big_blind_seat as int) < old(self).table.players@.len(),
            old(self).table.deck_index <= old(self).table.deck@.len(),
            forall|m: int|
                0 <= m < old(self).table.players@.len() ==> player_ok(
                    #[trigger] old(self).table.players@[m],
                    m,
                ),
            old(self).balances.wf(),
            old(self).verified_deposits.wf(),
            old(self).pending_deposits.wf(),
            old(self).pending_withdrawals.wf(),
            old(self).last_withdrawal.wf(),
            old(self).rate_limits.wf(),
            old(self).deposit_rate_limits.wf(),
            old(self).heartbeat_rate_limits.wf(),
            old(self).starting_chips.wf(),
            old(self).balances.total() + seats_money(old(self).table.players@) + old(self).pending_withdrawals.total() <= u64::MAX,
            old(self).table.pot == 0,
        ensures
            engine_wf(*final(self)),
            engine_money(*final(self)) == engine_money(*old(self)),
            final(self).balances == old(self).balances,
            final(self).table.phase is HandComplete,
            final(self).table.pot == 0,
            sum_winners(final(self).last_hand_winners@) == sum_winners(winner_list@),
            final(self).last_hand_winners@ == winner_list@,
            final(self).current_actions == old(self).current_actions,
            final(self).table.players@.len() == old(self).table.players@.len(),
            forall|m: int|
                0 <= m < old(self).table.players@.len() ==> #[trigger] final(self).table.players@[m]
                    == (match old(self).table.players@[m] {
                    Some(p) => Some(
                        Player {
                            broke_at: if p.chips == 0 && p.broke_at is None {
                                Some(now)
                            } else if p.chips > 0 {
                                None
                            } else {
                                p.broke_at
                            },
                            ..p
                        },
                    ),
                    None => None,
                }),
    {
        // Book the winners into the history entry for this hand.
        let actions_copy = self.clone_current_actions();
        let community_copy = crate::eval::copy_cards(&self.table.community_cards);
        if self.hand_history.len() > 0 {
            match self.hand_history.pop() {
                Some(entry) => {
                    let updated = HandHistory {
                        hand_number: entry.hand_number,
                        shuffle_proof: entry.shuffle_proof,
                        actions: actions_copy,
                        winners: clone_winners(&winner_list),
                        community_cards: community_copy,
                        showdown_players: entry.showdown_players,
                    };
                    self.hand_history.push(updated);
                },
                None => {},
            }
        }
        self.last_hand_winners = winner_list;
        self.table.pot = 0;
        self.table.side_pots = Vec::new();
        self.table.phase = GamePhase::HandComplete;
        self.table.action_timer = None;
        // Chipless seats start their broke clock.
        let n = self.table.players.len();
        let ghost e1 = *self;
        let mut i: usize = 0;
        while i < n
            invariant
                n == self.table.players@.len(),
                i <= n,
                (*self == Engine { table: self.table, ..e1 }),
                (self.table == TableState { players: self.table.players, ..e1.table }),
                seats_money(self.table.players@) == seats_money(e1.table.players@),
                forall|m: int| 0 <= m < n ==> player_ok(#[trigger] self.table.players@[m], m),
                forall|m: int|
                    0 <= m < i ==> #[trigger] self.table.players@[m] == (
                    match e1.table.players@[m] {
                        Some(p) => Some(
                            Player {
                                broke_at: if p.chips == 0 && p.broke_at is None {
                                    Some(now)
                                } else if p.chips > 0 {
                                    None
                                } else {
                                    p.broke_at
                                },
                                ..p
                            },
                        ),
                        None => None,
                    }),
                forall|m: int|
                    i <= m < n ==> #[trigger] self.table.players@[m] == e1.table.players@[m],
            decreases n - i,
        {
            let ghost ps_before = self.table.players@;
            match self.table.players[i] {
                Some(p) => {
                    let mut p2 = p;
                    if p2.chips == 0 && p2.broke_at.is_none() {
                        p2.broke_at = Some(now);
                    } else if p2.chips > 0 {
                        p2.broke_at = None;
                    }
                    self.table.players.set(i, Some(p2));
                    proof {
                        lemma_seats_update(ps_before, i as int, Some(p2));
                    }
                },
                None => {},
            }
            i = i + 1;
        }
        self.table.auto_deal_at = Some(now.saturating_add(AUTO_DEAL_DELAY_NS));
    }

    /// Copies the running action log.
    fn clone_current_actions(&self) -> (r: Vec<ActionRecord>)
        ensures
            r@.len() == self.current_actions@.len(),
    {
        let mut out: Vec<ActionRecord> = Vec::new();
        let mut i: usize = 0;
        while i < self.current_actions.len()
            invariant
                i <= self.current_actions@.len(),
                out@.len() == i,
            decreases self.current_actions@.len() - i,
        {
            let a = &self.current_actions[i];
            out.push(
                ActionRecord {
                    seat: a.seat,
                    action: a.action,
                    timestamp: a.timestamp,
                    phase: clone_string(&a.phase),
                },
            );
            i = i + 1;
        }
        out
    }

    /// The bets every seat has in the pot, for side-pot construction.
    #[verifier::loop_isolation(false)]
    fn collect_contributions(&self) -> (r: Vec<PlayerContribution>)
        requires
            self.table.players@.len() <= 255,
            forall|m: int|
                0 <= m < self.table.players@.len() ==> player_ok(
                    #[trigger] self.table.players@[m],
                    m,
                ),
        ensures
            sum_bets(r@) == seats_bets(self.table.players@),
            forall|k: int|
                0 <= k < r@.len() ==> ((#[trigger] r@[k]).seat as int)
                    < self.table.players@.len() && match self.table.players@[r@[k].seat as int] {
                    Some(p) => p.total_bet_this_hand == r@[k].total_bet && p.has_folded == r@[
                        k
                    ].has_folded && r@[k].total_bet > 0,
                    None => false,
                },
    {
        let ps = &self.table.players;
        let mut out: Vec<PlayerContribution> = Vec::new();
        let mut i: usize = 0;
        proof {
            assert(ps@.take(0) =~= Seq::<Option<Player>>::empty());
        }
        while i < ps.len()
            invariant
                i <= ps@.len(),
                sum_bets(out@) == seats_bets(ps@.take(i as int)),
                forall|k: int|
                    0 <= k < out@.len() ==> ((#[trigger] out@[k]).seat as int) < ps@.len()
                        && match ps@[out@[k].seat as int] {
                        Some(p) => p.total_bet_this_hand == out@[k].total_bet && p.has_folded
                            == out@[k].has_folded && out@[k].total_bet > 0,
                        None => false,
                    },
            decreases ps@.len() - i,
        {
            proof {
                crate::table::lemma_seats_money_take_step(ps@, i as int);
            }
            match &ps[i] {
                Some(p) => {
                    if p.total_bet_this_hand > 0 {
                        let ghost before = out@;
                        let c = PlayerContribution {
                            seat: i as u8,
                            total_bet: p.total_bet_this_hand,
                            has_folded: p.has_folded,
                            is_all_in: p.is_all_in,
                        };
                        out.push(c);
                        proof {
                            assert(out@.drop_last() =~= before);
                            assert(out@.last() == c);
                            assert(sum_bets(out@) == sum_bets(before) + c.total_bet);
                            assert forall|k: int|
                                0 <= k < out@.len() implies ((#[trigger] out@[k]).seat as int)
                                < ps@.len() && match ps@[out@[k].seat as int] {
                                Some(pp) => pp.total_bet_this_hand == out@[k].total_bet
                                    && pp.has_folded == out@[k].has_folded && out@[k].total_bet
                                    > 0,
                                None => false,
                            } by {
                                if k < out@.len() - 1 {
                                    assert(out@[k] == before[k]);
                                } else {
                                    assert(out@[k] == c);
                                }
                            }
                        }
                    }
                },
                None => {},
            }
            i = i + 1;
        }
        proof {
            assert(ps@.take(ps@.len() as int) =~= ps@);
        }
        out
    }

    /// Evaluates every seat still in the hand against the board.
    #[verifier::loop_isolation(false)]
    #[verifier::rlimit(100)]
    #[verifier::spinoff_prover]
    fn collect_showdown_hands(&self) -> (r: Vec<ShowdownHand>)
        requires
            self.table.players@.len() <= 255,
            forall|m: int|
                0 <= m < self.table.players@.len() ==> player_ok(
                    #[trigger] self.table.players@[m],
                    m,
                ),
        ensures
            crate::showdown::hands_distinct(r@),
            forall|h: int|
                0 <= h < r@.len() ==> ((#[trigger] r@[h]).seat as int)
                    < self.table.players@.len() && match self.table.players@[r@[h].seat as int] {
                    Some(p) => !p.has_folded && p.hole_cards is Some && p.principal == r@[
                        h
                    ].principal,
                    None => false,
                },
            forall|m: int|
                0 <= m < self.table.players@.len() && in_hand(#[trigger] self.table.players@[m])
                    ==> exists|h: int| 0 <= h < r@.len() && (#[trigger] r@[h]).seat as int == m,
    {
        let ps = &self.table.players;
        let mut out: Vec<ShowdownHand> = Vec::new();
        let mut i: usize = 0;
        while i < ps.len()
            invariant
                i <= ps@.len(),
                forall|h: int|
                    0 <= h < out@.len() ==> ((#[trigger] out@[h]).seat as int) < i,
                forall|p: int, q: int|
                    0 <= p < q < out@.len() ==> (#[trigger] out@[p]).seat < (
                    #[trigger] out@[q]).seat,
                forall|h: int|
                    0 <= h < out@.len() ==> match ps@[(#[trigger] out@[h]).seat as int] {
                        Some(p) => !p.has_folded && p.hole_cards is Some && p.principal == out@[
                            h
                        ].principal,
                        None => false,
                    },
                forall|m: int|
                    0 <= m < i && in_hand(#[trigger] ps@[m]) ==> exists|h: int|
                        0 <= h < out@.len() && (#[trigger] out@[h]).seat as int == m,
            decreases ps@.len() - i,
        {
            match &ps[i] {
                Some(p) => {
                    if !p.has_folded && p.hole_cards.is_some() {
                        let cards = match p.hole_cards {
                            Some(c) => c,
                            None => {
                                proof {
                                    assert(false);
                                }
                                (self.table.deck[0], self.table.deck[0])
                            },
                        };
                        let rank = evaluate_hand(&cards, &self.table.community_cards);
                        let ghost before = out@;
                        let h = ShowdownHand {
                            seat: i as u8,
                            principal: p.principal,
                            rank,
                            cards,
                        };
                        out.push(h);
                        proof {
                            assert(out@.drop_last() =~= before);
                            assert forall|m: int|
                                0 <= m < i + 1 && in_hand(#[trigger] ps@[m]) implies exists|hh: int|
                                0 <= hh < out@.len() && (#[trigger] out@[hh]).seat as int == m by {
                                if m < i {
                                    let hh = choose|hh: int|
                                        0 <= hh < before.len() && (#[trigger] before[hh]).seat as int
                                            == m;
                                    assert(out@[hh].seat as int == m);
                                } else {
                                    assert(out@[out@.len() - 1].seat as int == m);
                                }
                            }
                        }
                    }
                },
                None => {},
            }
            i = i + 1;
        }
        proof {
            assert forall|p: int, q: int|
                0 <= p < q < out@.len() implies (#[trigger] out@[p]).seat != (
            #[trigger] out@[q]).seat by {}
        }
        out
    }

    /// Resolves the showdown: rebuilds the side pots from the seats' bets,
    /// awards each pot to its best eligible hands, reveals the seed, and
    /// closes the hand.  What the winners receive adds up to exactly the
    /// pot.
    #[verifier::loop_isolation(false)]
    #[verifier::rlimit(100)]
    fn determine_winners(&mut self, now: u64)
        requires
            engine_wf_core(*old(self)),
            phase_live(old(self).table.phase),
            count_in_hand(old(self).table.players@) >= 1,
        ensures
            engine_wf(*final(self)),
            engine_money(*final(self)) == engine_money(*old(self)),
            final(self).balances == old(self).balances,
            final(self).table.phase is HandComplete,
            final(self).table.pot == 0,
            sum_winners(final(self).last_hand_winners@) == old(self).table.pot,
            forall|w: int, w2: int|
                0 <= w < w2 < final(self).last_hand_winners@.len() ==> (
                #[trigger] final(self).last_hand_winners@[w]).seat != (
                #[trigger] final(self).last_hand_winners@[w2]).seat,
            forall|w: int|
                0 <= w < final(self).last_hand_winners@.len() ==> ((
                #[trigger] final(self).last_hand_winners@[w]).seat as int)
                    < old(self).table.players@.len() && in_hand(
                    old(self).table.players@[final(self).last_hand_winners@[w].seat as int],
                ),
            final(self).table.players@.len() == old(self).table.players@.len(),
            forall|m: int|
                0 <= m < old(self).table.players@.len() ==> seat_record_kept(
                    #[trigger] old(self).table.players@[m],
                    final(self).table.players@[m],
                ),
            final(self).current_actions == old(self).current_actions,
    {
        self.reveal_seed_on_hand_end();
        let hands = self.collect_showdown_hands();
        proof {
            lemma_count_positive_witness(self.table.players@);
            let m = choose|m: int|
                0 <= m < self.table.players@.len() && in_hand(#[trigger] self.table.players@[m]);
            assert(exists|h: int|
                0 <= h < hands@.len() && (#[trigger] hands@[h]).seat as int == m);
        }
        let contributions = self.collect_contributions();
        proof {
            lemma_seats_nonneg(self.table.players@);
        }
        let pots = calculate_side_pots(&contributions, self.table.pot);
        let num_seats = self.table.players.len();
        let dealer = self.table.dealer_seat;
        let winner_list: Vec<Winner>;
        if pots.len() > 0 {
            proof {
                // A non-empty pot list means a live contributor exists, so
                // the pots hold exactly the table pot; and every eligible
                // seat's contributor is an un-folded seat with cards, hence
                // has a hand.
                assert(crate::pots::has_live_contributor(contributions@));
                assert forall|p: int, q: int|
                    0 <= p < pots@.len() && 0 <= q < pots@[p].eligible_players@.len()
                        implies exists|h: int|
                    0 <= h < hands@.len() && (#[trigger] hands@[h]).seat == #[trigger] pots@[
                        p
                    ].eligible_players@[q] by {
                    assert(crate::pots::pot_eligible_ok(pots@[p], contributions@));
                    assert(crate::pots::seat_is_live(
                        contributions@,
                        pots@[p].eligible_players@[q],
                    ));
                    let k = choose|k: int|
                        0 <= k < contributions@.len() && (#[trigger] contributions@[k]).seat
                            == pots@[p].eligible_players@[q] && !contributions@[k].has_folded
                            && contributions@[k].total_bet > 0;
                    let seat = contributions@[k].seat as int;
                    assert(in_hand(self.table.players@[seat]));
                    let h = choose|h: int|
                        0 <= h < hands@.len() && (#[trigger] hands@[h]).seat as int == seat;
                    assert(hands@[h].seat == pots@[p].eligible_players@[q]);
                }
            }
            winner_list = award_pots(&hands, &pots, dealer, num_seats);
        } else {
            // No layered pots: the whole pot goes to the best hands among
            // every seat still in.
            let mut all_seats: Vec<u8> = Vec::new();
            let mut i: usize = 0;
            while i < hands.len()
                invariant
                    i <= hands@.len(),
                    all_seats@.len() == i,
                    forall|m: int| 0 <= m < i ==> #[trigger] all_seats@[m] == hands@[m].seat,
                decreases hands@.len() - i,
            {
                all_seats.push(hands[i].seat);
                i = i + 1;
            }
            let pot_amount = self.table.pot;
            let single = SidePot { amount: pot_amount, eligible_players: all_seats };
            let mut single_pots: Vec<SidePot> = Vec::new();
            proof {
                crate::pots::lemma_sum_bets_nonneg(contributions@);
                assert(hands@.len() > 0);
                assert(single.eligible_players@.len() > 0);
            }
            single_pots.push(single);
            proof {
                assert(single_pots@.drop_last() =~= Seq::<SidePot>::empty());
                assert(single_pots@.last().amount == pot_amount);
                assert(sum_pots(Seq::<SidePot>::empty()) == 0);
                assert(sum_pots(single_pots@) == pot_amount);
                assert forall|p: int, q: int|
                    0 <= p < single_pots@.len() && 0 <= q
                        < single_pots@[p].eligible_players@.len() implies exists|h: int|
                    0 <= h < hands@.len() && (#[trigger] hands@[h]).seat == #[trigger] single_pots@[
                        p
                    ].eligible_players@[q] by {
                    assert(single_pots@[p].eligible_players@[q] == hands@[q].seat);
                }
            }
            winner_list = award_pots(&hands, &single_pots, dealer, num_seats);
        }
        // Credit the winners, then the pot has been paid out in full.
        proof {
            lemma_seats_nonneg(self.table.players@);
            self.balances.lemma_balance_le_total(0);
            self.pending_withdrawals.lemma_balance_le_total(0);
        }
        self.credit_winners(&winner_list);
        self.table.pot = 0;
        proof {
            assert forall|w: int|
                0 <= w < winner_list@.len() implies ((#[trigger] winner_list@[w]).seat as int)
                < old(self).table.players@.len() && in_hand(
                old(self).table.players@[winner_list@[w].seat as int],
            ) by {
                let h = choose|h: int|
                    0 <= h < hands@.len() && (#[trigger] winner_list@[w]).seat == hands@[h].seat
                        && winner_list@[w].principal == hands@[h].principal;
                assert(in_hand(old(self).table.players@[hands@[h].seat as int]));
            }
        }
        self.finish_hand(winner_list, now);
    }

    /// Adds each winner's amount to its seat's chips.
    #[verifier::loop_isolation(false)]
    #[verifier::rlimit(60)]
    fn credit_winners(&mut self, winner_list: &Vec<Winner>)
        requires
            seats_money(old(self).table.players@) + sum_winners(winner_list@) <= u64::MAX,
            forall|h: int|
                0 <= h < winner_list@.len() ==> ((#[trigger] winner_list@[h]).seat as int) < old(self).table.players@.len(),
            forall|m: int|
                0 <= m < old(self).table.players@.len() ==> player_ok(
                    #[trigger] old(self).table.players@[m],
                    m,
                ),
        ensures
            (*final(self) == Engine { table: final(self).table, ..*old(self) }),
            (final(self).table == TableState {
                players: final(self).table.players,
                ..old(self).table
            }),
            final(self).table.players@.len() == old(self).table.players@.len(),
            seats_money(final(self).table.players@) <= seats_money(old(self).table.players@)
                + sum_winners(winner_list@),
            seats_money(final(self).table.players@) >= seats_money(old(self).table.players@),
            (forall|h: int|
                0 <= h < winner_list@.len() ==> old(self).table.players@[(
                #[trigger] winner_list@[h]).seat as int] is Some) ==> seats_money(
                final(self).table.players@,
            ) == seats_money(old(self).table.players@) + sum_winners(winner_list@),
            count_in_hand(final(self).table.players@) == count_in_hand(old(self).table.players@),
            forall|m: int|
                0 <= m < final(self).table.players@.len() ==> player_ok(
                    #[trigger] final(self).table.players@[m],
                    m,
                ),
            forall|m: int|
                0 <= m < old(self).table.players@.len() ==> seat_record_kept(
                    #[trigger] old(self).table.players@[m],
                    final(self).table.players@[m],
                ),
    {
        let ghost ps0 = self.table.players@;
        let ghost e_credit = *old(self);
        let mut wi: usize = 0;
        proof {
            assert(winner_list@.take(0) =~= Seq::<Winner>::empty());
            assert(sum_winners(Seq::<Winner>::empty()) == 0);
            lemma_seats_nonneg(ps0);
            assert(forall|m: int|
                0 <= m < ps0.len() ==> (#[trigger] self.table.players@[m]) == ps0[m]);
        }
        while wi < winner_list.len()
            invariant
                wi <= winner_list@.len(),
                (*self == Engine { table: self.table, ..e_credit }),
                (self.table == TableState { players: self.table.players, ..e_credit.table }),
                self.table.players@.len() == ps0.len(),
                seats_money(self.table.players@) <= seats_money(ps0) + sum_winners(
                    winner_list@.take(wi as int),
                ),
                seats_money(self.table.players@) >= seats_money(ps0),
                (forall|h: int|
                    0 <= h < winner_list@.len() ==> ps0[(#[trigger] winner_list@[h]).seat as int]
                        is Some) ==> seats_money(self.table.players@) == seats_money(ps0)
                    + sum_winners(winner_list@.take(wi as int)),
                count_in_hand(self.table.players@) == count_in_hand(ps0),
                forall|m: int|
                    0 <= m < ps0.len() ==> ((#[trigger] self.table.players@[m]) is Some <==> ps0[
                        m
                    ] is Some),
                forall|m: int|
                    0 <= m < ps0.len() ==> player_ok(#[trigger] self.table.players@[m], m),
                forall|m: int|
                    0 <= m < ps0.len() ==> seat_record_kept(
                        #[trigger] ps0[m],
                        self.table.players@[m],
                    ),
            decreases winner_list@.len() - wi,
        {
            proof {
                assert(winner_list@.take(wi + 1).drop_last() =~= winner_list@.take(wi as int));
                assert(winner_list@.take(wi + 1).last() == winner_list@[wi as int]);
                lemma_sum_winners_prefix_engine(winner_list@, wi + 1);
            }
            let seat = winner_list[wi].seat as usize;
            let amt = winner_list[wi].amount;
            let ghost ps_before = self.table.players@;
            match self.table.players[seat] {
                Some(p) => {
                    proof {
                        lemma_seat_within(ps_before, seat as int);
                        lemma_seats_nonneg(ps_before);
                    }
                    let mut p2 = p;
                    p2.chips = p2.chips + amt;
                    self.table.players.set(seat, Some(p2));
                    proof {
                        lemma_seats_update(ps_before, seat as int, Some(p2));
                    }
                },
                None => {},
            }
            wi = wi + 1;
        }
        proof {
            assert(winner_list@.take(winner_list@.len() as int) =~= winner_list@);
        }
    }
}

/// The winner amounts of a prefix are bounded by the whole.
proof fn lemma_sum_winners_prefix_engine(ws: Seq<Winner>, k: int)
    requires
        0 <= k <= ws.len(),
    ensures
        0 <= sum_winners(ws.take(k)) <= sum_winners(ws),
    decreases ws.len() - k,
{
    if k == ws.len() {
        assert(ws.take(k) =~= ws);
        lemma_sum_winners_nonneg_engine(ws);
    } else {
        lemma_sum_winners_prefix_engine(ws, k + 1);
        assert(ws.take(k + 1).drop_last() =~= ws.take(k));
        assert(sum_winners(ws.take(k + 1)) == sum_winners(ws.take(k)) + ws[k].amount);
        lemma_sum_winners_nonneg_engine(ws.take(k));
    }
}

proof fn lemma_sum_winners_nonneg_engine(ws: Seq<Winner>)
    ensures
        sum_winners(ws) >= 0,
    decreases ws.len(),
{
    if ws.len() > 0 {
        lemma_sum_winners_nonneg_engine(ws.drop_last());
    }
}


/// The big blind still holds the pre-flop option to raise.
pub open spec fn bb_needs_action(t: TableState) -> bool {
    &&& t.phase is PreFlop
    &&& t.bb_has_option
    &&& t.action_on == t.big_blind_seat
    &&& (t.big_blind_seat as int) < t.players@.len()
    &&& match t.players@[t.big_blind_seat as int] {
        Some(p) => !p.has_acted_this_round && !p.is_all_in && !p.has_folded,
        None => false,
    }
}

/// The seat has nothing left to do this street: it cannot act, or it has
/// acted and its street bet matches the table's.
pub open spec fn seat_settled(op: Option<Player>, current_bet: u64) -> bool {
    match op {
        Some(p) => p.has_folded || p.is_all_in || !(p.status is Active) || (
        p.has_acted_this_round && p.current_bet >= current_bet),
        None => true,
    }
}

/// A betting round is complete: no seat can act at all, or the big blind's
/// option is spent and every seat that can act has acted and matched the
/// current bet.
pub open spec fn spec_round_complete(t: TableState) -> bool {
    count_can_act(t.players@) == 0 || (!bb_needs_action(t) && forall|i: int|
        0 <= i < t.players@.len() ==> seat_settled(#[trigger] t.players@[i], t.current_bet))
}

impl Engine {
    /// How many seats may still act.
    fn count_can_act_exec(&self) -> (r: usize)
        ensures
            r as int == count_can_act(self.table.players@),
    {
        let ps = &self.table.players;
        let mut n: usize = 0;
        let mut i: usize = 0;
        proof {
            assert(ps@.take(0) =~= Seq::<Option<Player>>::empty());
        }
        while i < ps.len()
            invariant
                i <= ps@.len(),
                n as int == count_can_act(ps@.take(i as int)),
                n <= i,
            decreases ps@.len() - i,
        {
            proof {
                assert(ps@.take(i + 1).drop_last() =~= ps@.take(i as int));
                assert(ps@.take(i + 1).last() == ps@[i as int]);
                lemma_can_act_bound(ps@.take(i as int));
            }
            match &ps[i] {
                Some(p) => {
                    if !p.has_folded && !p.is_all_in && matches!(p.status, PlayerStatus::Active) {
                        n = n + 1;
                    }
                },
                None => {},
            }
            i = i + 1;
        }
        proof {
            assert(ps@.take(ps@.len() as int) =~= ps@);
        }
        n
    }

    /// Is the current betting round complete?
    #[verifier::loop_isolation(false)]
    pub fn is_betting_round_complete(&self) -> (r: bool)
        requires
            (self.table.big_blind_seat as int) < self.table.players@.len(),
        ensures
            r == spec_round_complete(self.table),
    {
        if self.count_can_act_exec() == 0 {
            return true;
        }
        // Pre-flop, the big blind may still have the option.
        if matches!(self.table.phase, GamePhase::PreFlop) && self.table.bb_has_option
            && self.table.action_on == self.table.big_blind_seat {
            match &self.table.players[self.table.big_blind_seat as usize] {
                Some(p) => {
                    if !p.has_acted_this_round && !p.is_all_in && !p.has_folded {
                        return false;
                    }
                },
                None => {},
            }
        }
        let ps = &self.table.players;
        let cur = self.table.current_bet;
        let mut i: usize = 0;
        while i < ps.len()
            invariant
                i <= ps@.len(),
                forall|m: int| 0 <= m < i ==> seat_settled(#[trigger] ps@[m], cur),
            decreases ps@.len() - i,
        {
            match &ps[i] {
                Some(p) => {
                    if !p.has_folded && !p.is_all_in && matches!(p.status, PlayerStatus::Active) {
                        if !p.has_acted_this_round || p.current_bet < cur {
                            return false;
                        }
                    }
                },
                None => {},
            }
            i = i + 1;
        }
        true
    }

    /// Closes the street: clears street bets and acted flags, rebuilds the
    /// side pots when someone is all-in, deals the next street, and hands
    /// action to the first seat clockwise from the button; when no betting
    /// is possible the rest of the board runs out.
    #[verifier::loop_isolation(false)]
    #[verifier::rlimit(100)]
    fn advance_to_next_street(&mut self, now: u64)
        requires
            engine_wf_core(*old(self)),
            phase_live(old(self).table.phase),
            count_in_hand(old(self).table.players@) >= 2,
        ensures
            engine_wf(*final(self)),
            engine_money(*final(self)) == engine_money(*old(self)),
            final(self).balances == old(self).balances,
            phase_live(final(self).table.phase) || final(self).table.phase is HandComplete,
            pot_exact(old(self).table) ==> pot_exact(final(self).table),
            final(self).table.phase != old(self).table.phase,
            final(self).table.phase is Flop ==> old(self).table.phase is PreFlop,
            final(self).table.phase is Turn ==> old(self).table.phase is Flop,
            final(self).table.phase is River ==> old(self).table.phase is Turn,
            phase_live(final(self).table.phase) ==> final(self).table.current_bet == 0
                && final(self).table.min_raise == old(self).table.config.big_blind
                && !final(self).table.bb_has_option && final(self).table.pot
                == old(self).table.pot && (forall|m: int|
                0 <= m < final(self).table.players@.len()
                    ==> match #[trigger] final(self).table.players@[m] {
                    Some(q) => q.current_bet == 0 && !q.has_acted_this_round,
                    None => true,
                }),
            phase_live(final(self).table.phase) ==> final(self).table.dealer_seat
                == old(self).table.dealer_seat && final(self).table.action_on as int
                == spec_next_can_act(
                final(self).table.players@,
                final(self).table.dealer_seat as int,
            ) && (match final(self).table.action_timer {
                Some(tm) => tm.player_seat == final(self).table.action_on && tm.started_at == now
                    && tm.expires_at == sat_add(
                    now,
                    (old(self).table.config.action_timeout_secs * NS_PER_SEC) as u64,
                ) && !tm.using_time_bank,
                None => false,
            }),
            phase_live(final(self).table.phase) ==> (forall|m: int|
                0 <= m < old(self).table.players@.len() ==> #[trigger] final(self).table.players@[m]
                    == street_reset_seat(old(self).table.players@[m])),
            final(self).table.players@.len() == old(self).table.players@.len(),
            forall|m: int|
                0 <= m < old(self).table.players@.len() ==> seat_record_kept(
                    #[trigger] old(self).table.players@[m],
                    final(self).table.players@[m],
                ),
            final(self).current_actions == old(self).current_actions,
            phase_live(final(self).table.phase) ==> final(self).table.deck
                == old(self).table.deck && final(self).table.deck_index
                >= old(self).table.deck_index,
            phase_live(final(self).table.phase) && old(self).table.phase is PreFlop
                && old(self).table.deck@.len() - old(self).table.deck_index > 3 ==> (
            final(self).table.community_cards@ == old(self).table.community_cards@
                + seq![
                old(self).table.deck@[old(self).table.deck_index + 1],
                old(self).table.deck@[old(self).table.deck_index + 2],
                old(self).table.deck@[old(self).table.deck_index + 3],
            ] && final(self).table.deck_index == old(self).table.deck_index + 4),
            phase_live(final(self).table.phase) && (old(self).table.phase is Flop
                || old(self).table.phase is Turn) && old(self).table.deck@.len()
                - old(self).table.deck_index > 1 ==> (final(self).table.community_cards@
                == old(self).table.community_cards@.push(
                old(self).table.deck@[old(self).table.deck_index + 1],
            ) && final(self).table.deck_index == old(self).table.deck_index + 2),
    {
        // Reset the street.
        self.table.current_bet = 0;
        self.table.min_raise = self.table.config.big_blind;
        self.table.bb_has_option = false;
        let n = self.table.players.len();
        let ghost e1 = *self;
        let mut i: usize = 0;
        let mut any_all_in = false;
        while i < n
            invariant
                n == self.table.players@.len(),
                i <= n,
                (*self == Engine { table: self.table, ..e1 }),
                (self.table == TableState { players: self.table.players, ..e1.table }),
                seats_money(self.table.players@) == seats_money(e1.table.players@),
                seats_bets(self.table.players@) == seats_bets(e1.table.players@),
                count_in_hand(self.table.players@) == count_in_hand(e1.table.players@),
                forall|m: int| 0 <= m < n ==> player_ok(#[trigger] self.table.players@[m], m),
                forall|m: int|
                    0 <= m < i ==> match #[trigger] self.table.players@[m] {
                        Some(q) => q.current_bet == 0 && !q.has_acted_this_round,
                        None => true,
                    },
                forall|m: int|
                    0 <= m < i ==> #[trigger] self.table.players@[m] == street_reset_seat(
                        e1.table.players@[m],
                    ),
                forall|m: int|
                    i <= m < n ==> #[trigger] self.table.players@[m] == e1.table.players@[m],
            decreases n - i,
        {
            let ghost ps_before = self.table.players@;
            match self.table.players[i] {
                Some(p) => {
                    if p.is_all_in {
                        any_all_in = true;
                    }
                    let mut p2 = p;
                    p2.current_bet = 0;
                    p2.has_acted_this_round = false;
                    self.table.players.set(i, Some(p2));
                    proof {
                        lemma_seats_update(ps_before, i as int, Some(p2));
                    }
                },
                None => {},
            }
            i = i + 1;
        }
        // With an all-in on the table the pots are layered now, so the
        // interim breakdown is visible.
        if any_all_in {
            let contributions = self.collect_contributions();
            proof {
                lemma_seats_nonneg(self.table.players@);
            }
            self.table.side_pots = calculate_side_pots(&contributions, self.table.pot);
        }
        // Deal the next street.
        match self.table.phase {
            GamePhase::PreFlop => {
                if self.table.deck.len() - self.table.deck_index > 3 {
                    let c1 = self.table.deck[self.table.deck_index + 1];
                    let c2 = self.table.deck[self.table.deck_index + 2];
                    let c3 = self.table.deck[self.table.deck_index + 3];
                    self.table.community_cards.push(c1);
                    self.table.community_cards.push(c2);
                    self.table.community_cards.push(c3);
                    self.table.deck_index = self.table.deck_index + 4;
                }
                self.table.phase = GamePhase::Flop;
            },
            GamePhase::Flop => {
                if self.table.deck.len() - self.table.deck_index > 1 {
                    let c = self.table.deck[self.table.deck_index + 1];
                    self.table.community_cards.push(c);
                    self.table.deck_index = self.table.deck_index + 2;
                }
                self.table.phase = GamePhase::Turn;
            },
            GamePhase::Turn => {
                if self.table.deck.len() - self.table.deck_index > 1 {
                    let c = self.table.deck[self.table.deck_index + 1];
                    self.table.community_cards.push(c);
                    self.table.deck_index = self.table.deck_index + 2;
                }
                self.table.phase = GamePhase::River;
            },
            GamePhase::River => {
                let ghost ps_mid = self.table.players@;
                self.determine_winners(now);
                proof {
                    assert forall|m: int|
                        0 <= m < old(self).table.players@.len() implies seat_record_kept(
                        #[trigger] old(self).table.players@[m],
                        self.table.players@[m],
                    ) by {
                        assert(ps_mid[m] == street_reset_seat(old(self).table.players@[m]));
                        assert(seat_record_kept(ps_mid[m], self.table.players@[m]));
                    }
                }
                return ;
            },
            _ => {},
        }
        // Without two seats able to act, the board runs out to showdown.
        if self.count_can_act_exec() < 2 {
            let ghost ps_mid = self.table.players@;
            self.run_out_board(now);
            proof {
                assert forall|m: int|
                    0 <= m < old(self).table.players@.len() implies seat_record_kept(
                    #[trigger] old(self).table.players@[m],
                    self.table.players@[m],
                ) by {
                    assert(ps_mid[m] == street_reset_seat(old(self).table.players@[m]));
                    assert(seat_record_kept(ps_mid[m], self.table.players@[m]));
                }
            }
            return ;
        }
        let dealer = self.table.dealer_seat;
        let next = self.find_next_can_act(dealer);
        self.table.action_on = next;
        self.start_timer(now);
    }

    /// Runs the remaining streets without betting and resolves the
    /// showdown.
    #[verifier::loop_isolation(false)]
    fn run_out_board(&mut self, now: u64)
        requires
            engine_wf_core(*old(self)),
            phase_live(old(self).table.phase),
        ensures
            engine_wf(*final(self)),
            engine_money(*final(self)) == engine_money(*old(self)),
            final(self).balances == old(self).balances,
            final(self).table.phase is HandComplete,
            pot_exact(old(self).table) ==> pot_exact(final(self).table),
            final(self).table.players@.len() == old(self).table.players@.len(),
            forall|m: int|
                0 <= m < old(self).table.players@.len() ==> seat_record_kept(
                    #[trigger] old(self).table.players@[m],
                    final(self).table.players@[m],
                ),
            final(self).current_actions == old(self).current_actions,
    {
        let ghost e1 = *self;
        let mut guard: usize = 0;
        while guard < 4
            invariant
                guard <= 4,
                engine_wf_core(*self),
                phase_live(self.table.phase),
                engine_money(*self) == engine_money(e1),
                self.balances == e1.balances,
                seats_bets(self.table.players@) == seats_bets(e1.table.players@),
                self.table.pot == e1.table.pot,
                guard >= 1 ==> !(self.table.phase is PreFlop),
                guard >= 2 ==> !(self.table.phase is Flop),
                guard >= 3 ==> !(self.table.phase is Turn),
                self.table.players@ == e1.table.players@,
                self.current_actions == e1.current_actions,
            decreases 4 - guard,
        {
            match self.table.phase {
                GamePhase::PreFlop => {
                    if self.table.deck.len() - self.table.deck_index > 3 {
                        let c1 = self.table.deck[self.table.deck_index + 1];
                        let c2 = self.table.deck[self.table.deck_index + 2];
                        let c3 = self.table.deck[self.table.deck_index + 3];
                        self.table.community_cards.push(c1);
                        self.table.community_cards.push(c2);
                        self.table.community_cards.push(c3);
                        self.table.deck_index = self.table.deck_index + 4;
                    }
                    self.table.phase = GamePhase::Flop;
                },
                GamePhase::Flop => {
                    if self.table.deck.len() - self.table.deck_index > 1 {
                        let c = self.table.deck[self.table.deck_index + 1];
                        self.table.community_cards.push(c);
                        self.table.deck_index = self.table.deck_index + 2;
                    }
                    self.table.phase = GamePhase::Turn;
                },
                GamePhase::Turn => {
                    if self.table.deck.len() - self.table.deck_index > 1 {
                        let c = self.table.deck[self.table.deck_index + 1];
                        self.table.community_cards.push(c);
                        self.table.deck_index = self.table.deck_index + 2;
                    }
                    self.table.phase = GamePhase::River;
                },
                GamePhase::River => {
                    self.determine_winners(now);
                    return ;
                },
                _ => {},
            }
            guard = guard + 1;
        }
        self.determine_winners(now);
    }

    /// Advances the game after an action: pays a lone survivor, closes a
    /// finished betting round, or passes action to the next seat.
    fn advance_game(&mut self, now: u64)
        requires
            engine_wf_core(*old(self)),
            phase_live(old(self).table.phase),
        ensures
            engine_wf(*final(self)),
            engine_money(*final(self)) == engine_money(*old(self)),
            final(self).balances == old(self).balances,
            pot_exact(old(self).table) ==> pot_exact(final(self).table),
            final(self).table.phase == old(self).table.phase ==> (*final(self) == Engine {
                table: final(self).table,
                ..*old(self)
            }) && (final(self).table == TableState {
                action_on: final(self).table.action_on,
                action_timer: final(self).table.action_timer,
                ..old(self).table
            }),
            final(self).table.players@.len() == old(self).table.players@.len(),
            forall|m: int|
                0 <= m < old(self).table.players@.len() ==> seat_record_kept(
                    #[trigger] old(self).table.players@[m],
                    final(self).table.players@[m],
                ),
            final(self).table.phase is HandComplete || (match final(self).table.action_timer {
                Some(tm) => tm.started_at == now,
                None => false,
            }),
            final(self).current_actions == old(self).current_actions,
            phase_live(final(self).table.phase) && final(self).table.phase != old(self).table.phase ==> ({
                &&& final(self).table.current_bet == 0
                &&& final(self).table.min_raise == old(self).table.config.big_blind
                &&& !final(self).table.bb_has_option
                &&& final(self).table.pot == old(self).table.pot
                &&& (forall|m: int|
                    0 <= m < old(self).table.players@.len()
                        ==> #[trigger] final(self).table.players@[m] == street_reset_seat(
                        old(self).table.players@[m],
                    ))
                &&& final(self).table.dealer_seat == old(self).table.dealer_seat
                &&& final(self).table.action_on as int == spec_next_can_act(
                    final(self).table.players@,
                    final(self).table.dealer_seat as int,
                )
                &&& (match final(self).table.action_timer {
                    Some(tm) => tm.player_seat == final(self).table.action_on && tm.started_at
                        == now && tm.expires_at == sat_add(
                        now,
                        (old(self).table.config.action_timeout_secs * NS_PER_SEC) as u64,
                    ) && !tm.using_time_bank,
                    None => false,
                })
                &&& (final(self).table.phase is Flop ==> old(self).table.phase is PreFlop)
                &&& (final(self).table.phase is Turn ==> old(self).table.phase is Flop)
                &&& (final(self).table.phase is River ==> old(self).table.phase is Turn)
                &&& final(self).table.deck == old(self).table.deck
                &&& (old(self).table.phase is PreFlop && old(self).table.deck@.len() - old(self).table.deck_index > 3 ==> (final(self).table.community_cards@ == old(self).table.community_cards@
                    + seq![
                    old(self).table.deck@[old(self).table.deck_index + 1],
                    old(self).table.deck@[old(self).table.deck_index + 2],
                    old(self).table.deck@[old(self).table.deck_index + 3],
                ] && final(self).table.deck_index == old(self).table.deck_index + 4))
                &&& ((old(self).table.phase is Flop || old(self).table.phase is Turn)
                    && old(self).table.deck@.len() - old(self).table.deck_index > 1 ==> (final(self).table.community_cards@ == old(self).table.community_cards@.push(
                    old(self).table.deck@[old(self).table.deck_index + 1],
                ) && final(self).table.deck_index == old(self).table.deck_index + 2))
            }),
    {
        if self.count_in_hand_exec() == 1 {
            self.end_hand_single_winner(now);
            return ;
        }
        proof {
            lemma_seats_nonneg(self.table.players@);
        }
        if self.count_in_hand_exec() == 0 {
            // Unreachable in play: a live hand always keeps a seat in it.
            self.table.phase = GamePhase::HandComplete;
            let pot = self.table.pot;
            self.table.pot = 0;
            self.table.side_pots = Vec::new();
            proof {
                self.balances.lemma_balance_le_total(0);
                self.pending_withdrawals.lemma_balance_le_total(0);
            }
            self.table.action_timer = None;
            self.finish_pot_to_balances(pot);
            return ;
        }
        if self.is_betting_round_complete() {
            self.advance_to_next_street(now);
            return ;
        }
        let from = self.table.action_on;
        let next = self.find_next_can_act(from);
        self.table.action_on = next;
        self.start_timer(now);
    }

    /// Sweeps an orphaned pot into the house escrow under identity zero,
    /// so no money is ever destroyed even if every seat abandons a hand.
    /// Identity zero is reserved for this sink: callers hand players only
    /// identities from one upward, so no player can claim the sweep.
    fn finish_pot_to_balances(&mut self, pot: u64)
        requires
            old(self).balances.wf(),
            old(self).balances.total() + pot <= u64::MAX,
        ensures
            (*final(self) == Engine { balances: final(self).balances, ..*old(self) }),
            final(self).balances.wf(),
            final(self).balances.total() == old(self).balances.total() + pot,
    {
        self.balances.credit(0, pot);
    }
}

proof fn lemma_can_act_bound(ps: Seq<Option<Player>>)
    ensures
        0 <= count_can_act(ps) <= ps.len(),
    decreases ps.len(),
{
    if ps.len() > 0 {
        lemma_can_act_bound(ps.drop_last());
    }
}


impl Engine {
    /// Spends one token from the caller's action bucket; reports whether
    /// the caller is over the limit of actions per window.
    fn check_rate_limit(&mut self, caller: u64, now: u64) -> (limited: bool)
        requires
            old(self).rate_limits.wf(),
        ensures
            (*final(self) == Engine { rate_limits: final(self).rate_limits, ..*old(self) }),
            final(self).rate_limits.wf(),
            limited == action_bucket_limited(*old(self), caller, now),
    {
        match self.rate_limits.get(caller) {
            Some((last_time, count)) => {
                if now > last_time.saturating_add(RATE_LIMIT_WINDOW_NS) {
                    self.rate_limits.insert(caller, (now, 1));
                    false
                } else if count >= MAX_ACTIONS_PER_WINDOW {
                    true
                } else {
                    self.rate_limits.insert(caller, (last_time, count + 1));
                    false
                }
            },
            None => {
                self.rate_limits.insert(caller, (now, 1));
                false
            },
        }
    }

    /// Appends the action to the hand's log and remembers it for display.
    fn record_action(&mut self, seat: u8, action: PlayerAction, display: LastAction, now: u64)
        ensures
            (*final(self) == Engine {
                current_actions: final(self).current_actions,
                table: final(self).table,
                ..*old(self)
            }),
            (final(self).table == TableState {
                last_action: final(self).table.last_action,
                ..old(self).table
            }),
            final(self).current_actions@.len() == old(self).current_actions@.len() + 1,
            final(self).current_actions@ == old(self).current_actions@.push(
                final(self).current_actions@.last(),
            ),
            final(self).current_actions@.last().seat == seat,
            final(self).current_actions@.last().action == action,
            final(self).current_actions@.last().timestamp == now,
    {
        let phase = phase_to_string(&self.table.phase);
        self.current_actions.push(ActionRecord { seat, action, timestamp: now, phase });
        self.table.last_action = Some(LastActionInfo { seat, action: display, timestamp: now });
    }

    /// Applies one action's own arm: checks its amounts, moves the money
    /// from the acting seat into the pot, and updates the betting
    /// pointers.  The acted flags of the other seats and the advance of
    /// the game stay with the caller.
    #[verifier::rlimit(100)]
    fn apply_action_arm(&mut self, seat: usize, action: PlayerAction, now: u64) -> (r: Result<
        (LastAction, bool),
        GameError,
    >)
        requires
            engine_wf(*old(self)),
            phase_live(old(self).table.phase),
            (seat as int) < old(self).table.players@.len(),
            old(self).table.players@[seat as int] is Some,
            old(self).table.players@[seat as int]->Some_0.hole_cards is Some,
        ensures
            r is Err ==> *final(self) == *old(self) && !action_legal(
                old(self).table,
                seat as int,
                action,
            ),
            r is Ok ==> action_legal(old(self).table, seat as int, action),
            r matches Ok(x) ==> x.1 == action_aggressive(old(self).table, seat as int, action)
                && acting_seat_updated(
                old(self).table,
                final(self).table,
                seat as int,
                action,
                now,
            ) && (forall|j: int|
                0 <= j < old(self).table.players@.len() && j != seat as int
                    ==> #[trigger] final(self).table.players@[j] == old(self).table.players@[j]) && (
            *final(self) == Engine { table: final(self).table, ..*old(self) }),
            r is Ok ==> engine_wf_core(*final(self)) && engine_money(*final(self)) == engine_money(
                *old(self),
            ) && (pot_exact(old(self).table) ==> pot_exact(final(self).table)) && count_in_hand(
                final(self).table.players@,
            ) >= count_in_hand(old(self).table.players@) - 1 && (phase_live(old(self).table.phase)
                ==> phase_live(final(self).table.phase)),
    {
        let p = match self.table.players[seat] {
            Some(p) => p,
            None => {
                return Err(GameError::Precondition);
            },
        };
        let is_bb_option = matches!(self.table.phase, GamePhase::PreFlop)
            && self.table.bb_has_option && seat == self.table.big_blind_seat as usize;
        let ghost ps0 = self.table.players@;
        proof {
            lemma_seat_within(ps0, seat as int);
            lemma_seats_nonneg(ps0);
            self.balances.lemma_balance_le_total(0);
            self.pending_withdrawals.lemma_balance_le_total(0);
        }
        let mut should_reset_acted = false;
        let display: LastAction;
        match action {
            PlayerAction::Fold => {
                let mut p2 = p;
                p2.has_folded = true;
                p2.last_seen = now;
                p2.has_acted_this_round = true;
                self.table.players.set(seat, Some(p2));
                proof {
                    lemma_seats_update(ps0, seat as int, Some(p2));
                }
                if is_bb_option {
                    self.table.bb_has_option = false;
                }
                display = LastAction::Fold;
            },
            PlayerAction::Check => {
                let can_check = self.table.current_bet == p.current_bet || (is_bb_option
                    && self.table.current_bet == self.table.config.big_blind);
                if !can_check {
                    return Err(GameError::Precondition);
                }
                let mut p2 = p;
                p2.last_seen = now;
                p2.has_acted_this_round = true;
                self.table.players.set(seat, Some(p2));
                proof {
                    lemma_seats_update(ps0, seat as int, Some(p2));
                }
                if is_bb_option {
                    self.table.bb_has_option = false;
                }
                display = LastAction::Check;
            },
            PlayerAction::Call => {
                if self.table.current_bet <= p.current_bet {
                    return Err(GameError::Precondition);
                }
                let to_call = self.table.current_bet - p.current_bet;
                let actual = if to_call < p.chips {
                    to_call
                } else {
                    p.chips
                };
                let mut p2 = p;
                p2.chips = p2.chips - actual;
                p2.current_bet = p2.current_bet + actual;
                p2.total_bet_this_hand = p2.total_bet_this_hand + actual;
                if p2.chips == 0 {
                    p2.is_all_in = true;
                }
                p2.last_seen = now;
                p2.has_acted_this_round = true;
                self.table.players.set(seat, Some(p2));
                self.table.pot = self.table.pot + actual;
                proof {
                    lemma_seats_update(ps0, seat as int, Some(p2));
                }
                display = LastAction::Call { amount: actual };
            },
            PlayerAction::Bet(amount) => {
                if self.table.current_bet > 0 {
                    return Err(GameError::Precondition);
                }
                if amount < self.table.config.big_blind {
                    return Err(GameError::Precondition);
                }
                if amount > p.chips {
                    return Err(GameError::Arithmetic);
                }
                let mut p2 = p;
                p2.chips = p2.chips - amount;
                p2.current_bet = amount;
                p2.total_bet_this_hand = p2.total_bet_this_hand + amount;
                if p2.chips == 0 {
                    p2.is_all_in = true;
                }
                p2.last_seen = now;
                p2.has_acted_this_round = true;
                self.table.players.set(seat, Some(p2));
                self.table.pot = self.table.pot + amount;
                self.table.current_bet = amount;
                self.table.min_raise = amount;
                self.table.last_aggressor = Some(seat as u8);
                self.table.bb_has_option = false;
                should_reset_acted = true;
                proof {
                    lemma_seats_update(ps0, seat as int, Some(p2));
                }
                display = LastAction::Bet { amount };
            },
            PlayerAction::Raise(amount) => {
                if self.table.current_bet == 0 {
                    return Err(GameError::Precondition);
                }
                let raise_amount = if amount >= self.table.current_bet {
                    amount - self.table.current_bet
                } else {
                    0
                };
                if raise_amount < self.table.min_raise {
                    return Err(GameError::Arithmetic);
                }
                let total_needed = if amount >= p.current_bet {
                    amount - p.current_bet
                } else {
                    0
                };
                if total_needed > p.chips {
                    return Err(GameError::Arithmetic);
                }
                let mut p2 = p;
                p2.chips = p2.chips - total_needed;
                p2.current_bet = amount;
                p2.total_bet_this_hand = p2.total_bet_this_hand + total_needed;
                if p2.chips == 0 {
                    p2.is_all_in = true;
                }
                p2.last_seen = now;
                p2.has_acted_this_round = true;
                self.table.players.set(seat, Some(p2));
                self.table.pot = self.table.pot + total_needed;
                self.table.min_raise = raise_amount;
                self.table.current_bet = amount;
                self.table.last_aggressor = Some(seat as u8);
                self.table.bb_has_option = false;
                should_reset_acted = true;
                proof {
                    lemma_seats_update(ps0, seat as int, Some(p2));
                }
                display = LastAction::Raise { amount };
            },
            PlayerAction::AllIn => {
                let all_in_amount = p.chips;
                let mut p2 = p;
                p2.chips = 0;
                p2.current_bet = p2.current_bet + all_in_amount;
                p2.total_bet_this_hand = p2.total_bet_this_hand + all_in_amount;
                p2.is_all_in = true;
                p2.last_seen = now;
                p2.has_acted_this_round = true;
                let final_bet = p2.current_bet;
                self.table.players.set(seat, Some(p2));
                self.table.pot = self.table.pot + all_in_amount;
                proof {
                    lemma_seats_update(ps0, seat as int, Some(p2));
                }
                if final_bet > self.table.current_bet {
                    // An all-in above the bet is a raise; only one that
                    // reaches the minimum raise re-sets the raise size.
                    let raise_amount = final_bet - self.table.current_bet;
                    if raise_amount >= self.table.min_raise {
                        self.table.min_raise = raise_amount;
                    }
                    self.table.current_bet = final_bet;
                    self.table.last_aggressor = Some(seat as u8);
                    self.table.bb_has_option = false;
                    should_reset_acted = true;
                }
                display = LastAction::AllIn { amount: final_bet };
            },
        }
        Ok((display, should_reset_acted))
    }

    /// Handles one player action.
    ///
    /// The action is accepted only from the seat that holds the action
    /// pointer, while a street is being bet, before the action clock has
    /// run out, and if its amounts are legal for the street; the money an
    /// accepted action moves goes from the seat's chips into the pot, and
    /// the pot stays exactly the sum of the seats' bets.  A rejected
    /// action changes nothing but the caller's rate-limit bucket.
    #[verifier::loop_isolation(false)]
    #[verifier::rlimit(100)]
    pub fn player_action(&mut self, caller: u64, action: PlayerAction, now: u64) -> (r: Result<
        (),
        GameError,
    >)
        requires
            engine_wf(*old(self)),
        ensures
            engine_wf(*final(self)),
            engine_money(*final(self)) == engine_money(*old(self)),
            final(self).balances == old(self).balances,
            pot_exact(old(self).table) ==> pot_exact(final(self).table),
            r is Ok ==> (old(self).table.action_on as int) < old(self).table.players@.len()
                && seat_holds(
                old(self).table.players@[old(self).table.action_on as int],
                caller,
            ) && phase_live(old(self).table.phase),
            r is Ok <==> action_accepted(*old(self), caller, action, now),
            r is Ok ==> (old(self).table.action_timer matches Some(tm) ==> now <= tm.expires_at),
            r is Ok && phase_live(final(self).table.phase) && final(self).table.phase != old(self).table.phase ==> (exists|mid: TableState|
                #[trigger] action_applied(
                    old(self).table,
                    mid,
                    old(self).table.action_on as int,
                    action,
                    now,
                ) && mid.phase == old(self).table.phase && final(self).table.pot == mid.pot && (
                forall|m: int|
                    0 <= m < mid.players@.len() ==> #[trigger] final(self).table.players@[m]
                        == street_reset_seat(mid.players@[m]))),
            r is Ok && phase_live(final(self).table.phase) && final(self).table.phase != old(self).table.phase ==> ({
                &&& final(self).table.current_bet == 0
                &&& final(self).table.min_raise == old(self).table.config.big_blind
                &&& !final(self).table.bb_has_option
                &&& final(self).table.dealer_seat == old(self).table.dealer_seat
                &&& final(self).table.action_on as int == spec_next_can_act(
                    final(self).table.players@,
                    final(self).table.dealer_seat as int,
                )
                &&& (final(self).table.phase is Flop ==> old(self).table.phase is PreFlop)
                &&& (final(self).table.phase is Turn ==> old(self).table.phase is Flop)
                &&& (final(self).table.phase is River ==> old(self).table.phase is Turn)
                &&& (old(self).table.phase is PreFlop && old(self).table.deck@.len() - old(self).table.deck_index > 3 ==> final(self).table.community_cards@.len() == old(self).table.community_cards@.len() + 3)
            }),
            r is Ok && final(self).table.phase == old(self).table.phase ==> action_applied(
                old(self).table,
                final(self).table,
                old(self).table.action_on as int,
                action,
                now,
            ) && (*final(self) == Engine {
                table: final(self).table,
                current_actions: final(self).current_actions,
                rate_limits: final(self).rate_limits,
                ..*old(self)
            }) && final(self).current_actions@.len() == old(self).current_actions@.len() + 1,
            r is Err ==> (*final(self) == Engine {
                rate_limits: final(self).rate_limits,
                ..*old(self)
            }),
    {
        if self.check_rate_limit(caller, now) {
            return Err(GameError::RateLimit);
        }
        let seat = match self.find_seat(caller) {
            Some(s) => s,
            None => {
                return Err(GameError::Precondition);
            },
        };
        if seat != self.table.action_on as usize {
            return Err(GameError::Precondition);
        }
        if !phase_live_exec(self.table.phase) {
            return Err(GameError::Precondition);
        }
        match &self.table.action_timer {
            Some(tm) => {
                if now > tm.expires_at {
                    return Err(GameError::Precondition);
                }
            },
            None => {},
        }
        let p = match self.table.players[seat] {
            Some(p) => p,
            None => {
                return Err(GameError::Precondition);
            },
        };
        if p.hole_cards.is_none() {
            // A seat that was not dealt into this hand cannot act in it.
            return Err(GameError::Precondition);
        }
        let (display, should_reset_acted) = match self.apply_action_arm(seat, action, now) {
            Ok(x) => x,
            Err(e) => {
                return Err(e);
            },
        };
        // An aggressive action re-opens the round for every seat that can
        // still act.
        if should_reset_acted {
            let n = self.table.players.len();
            let ghost e_r = *self;
            let mut i: usize = 0;
            while i < n
                invariant
                    n == self.table.players@.len(),
                    i <= n,
                    seat < n,
                    (*self == Engine { table: self.table, ..e_r }),
                    (self.table == TableState { players: self.table.players, ..e_r.table }),
                    seats_money(self.table.players@) == seats_money(e_r.table.players@),
                    seats_bets(self.table.players@) == seats_bets(e_r.table.players@),
                    count_in_hand(self.table.players@) == count_in_hand(e_r.table.players@),
                    forall|m: int|
                        0 <= m < n ==> player_ok(#[trigger] self.table.players@[m], m),
                    forall|m: int|
                        0 <= m < i && m != seat as int ==> #[trigger] self.table.players@[m]
                            == reset_acted_seat(e_r.table.players@[m]),
                    forall|m: int|
                        (i <= m < n || m == seat as int) ==> #[trigger] self.table.players@[m]
                            == e_r.table.players@[m],
                decreases n - i,
            {
                let ghost ps_b = self.table.players@;
                if i != seat {
                    match self.table.players[i] {
                        Some(q) => {
                            if !q.has_folded && !q.is_all_in {
                                let mut q2 = q;
                                q2.has_acted_this_round = false;
                                self.table.players.set(i, Some(q2));
                                proof {
                                    lemma_seats_update(ps_b, i as int, Some(q2));
                                }
                            }
                        },
                        None => {},
                    }
                }
                i = i + 1;
            }
        }
        self.record_action(seat as u8, action, display, now);
        proof {
            lemma_seats_nonneg(self.table.players@);
            let t0 = old(self).table;
            let t1 = self.table;
            let i = seat as int;
            let mv = action_amount(t0, i, action);
            assert(t0.players@[i] == Some(p));
            assert(t1.pot == t0.pot + mv);
            assert(t1.players@.len() == t0.players@.len());
            assert(match t1.players@[i] {
                Some(q) => q.has_acted_this_round && q.last_seen == now && q.chips == p.chips - mv
                    && q.total_bet_this_hand == p.total_bet_this_hand + mv && q.has_folded == (
                p.has_folded || action is Fold),
                None => false,
            });
            assert(forall|j: int|
                0 <= j < t0.players@.len() && j != i ==> #[trigger] t1.players@[j] == (
                if action_aggressive(t0, i, action) {
                    reset_acted_seat(t0.players@[j])
                } else {
                    t0.players@[j]
                }));
            assert(action_applied(t0, t1, i, action, now));
            assert(action_accepted(*old(self), caller, action, now));
        }
        self.advance_game(now);
        Ok(())
    }
}


impl Engine {
    /// Reserves a deposit verification for a block index.
    ///
    /// Succeeds exactly when the caller's verification bucket has room and
    /// the block index has never been credited and is not already being
    /// verified; the reservation blocks a concurrent duplicate.
    pub fn begin_deposit(&mut self, caller: u64, block_index: u64, now: u64) -> (r: Result<
        (),
        GameError,
    >)
        requires
            engine_wf(*old(self)),
        ensures
            engine_wf(*final(self)),
            engine_money(*final(self)) == engine_money(*old(self)),
            final(self).balances == old(self).balances,
            final(self).verified_deposits == old(self).verified_deposits,
            old(self).verified_deposits.view_map().contains_key(block_index) ==> r is Err,
            old(self).pending_deposits.view_map().contains_key(block_index) ==> r is Err,
            r is Ok <==> (!deposit_bucket_limited(*old(self), caller, now)
                && !old(self).verified_deposits.view_map().contains_key(block_index)
                && !old(self).pending_deposits.view_map().contains_key(block_index)),
            r is Ok ==> final(self).pending_deposits.view_map() == old(self).pending_deposits.view_map().insert(
                block_index,
                caller,
            ),
            r is Err ==> final(self).pending_deposits == old(self).pending_deposits,
            (*final(self) == Engine {
                deposit_rate_limits: final(self).deposit_rate_limits,
                pending_deposits: final(self).pending_deposits,
                ..*old(self)
            }),
    {
        // Verification attempts are limited per minute.
        let minute_ns: u64 = 60_000_000_000;
        let limited: bool = match self.deposit_rate_limits.get(caller) {
            Some((window_start, count)) => {
                if now > window_start.saturating_add(minute_ns) {
                    self.deposit_rate_limits.insert(caller, (now, 1));
                    false
                } else if count >= MAX_DEPOSIT_VERIFICATIONS_PER_MINUTE {
                    true
                } else {
                    self.deposit_rate_limits.insert(caller, (window_start, count + 1));
                    false
                }
            },
            None => {
                self.deposit_rate_limits.insert(caller, (now, 1));
                false
            },
        };
        if limited {
            return Err(GameError::RateLimit);
        }
        if self.verified_deposits.contains(block_index) {
            return Err(GameError::Reservation);
        }
        if self.pending_deposits.contains(block_index) {
            return Err(GameError::Reservation);
        }
        self.pending_deposits.insert(block_index, caller);
        Ok(())
    }

    /// Settles a reserved deposit verification with what the ledger said.
    ///
    /// The reservation is released either way.  The caller's balance is
    /// credited exactly when the ledger confirmed an amount, the
    /// reservation was held, and the block index has never been credited
    /// before; the block index is then recorded as credited for good, so
    /// no block index is ever credited twice.  A credit that would push
    /// the custodied total past the machine word is refused outright
    /// rather than saturated: a clipped credit would break conservation,
    /// and a refused one can be retried once funds have left.
    pub fn settle_deposit(&mut self, caller: u64, block_index: u64, verified_amount: Option<
        u64,
    >) -> (r: Result<u64, GameError>)
        requires
            engine_wf(*old(self)),
        ensures
            engine_wf(*final(self)),
            (*final(self) == Engine {
                pending_deposits: final(self).pending_deposits,
                verified_deposits: final(self).verified_deposits,
                balances: final(self).balances,
                ..*old(self)
            }),
            !final(self).pending_deposits.view_map().contains_key(block_index),
            final(self).pending_deposits.view_map() == old(self).pending_deposits.view_map().remove(
                block_index,
            ),
            r is Ok <==> (verified_amount is Some
                && old(self).pending_deposits.view_map().contains_key(block_index)
                && !old(self).verified_deposits.view_map().contains_key(block_index)
                && engine_money(*old(self)) + verified_amount->Some_0 <= u64::MAX),
            r is Ok ==> final(self).verified_deposits.view_map() == old(self).verified_deposits.view_map().insert(block_index, caller),
            r is Ok ==> final(self).balances.balance_of(caller) == old(self).balances.balance_of(
                caller,
            ) + verified_amount->Some_0 && engine_money(*final(self)) == engine_money(*old(self))
                + verified_amount->Some_0,
            r is Err ==> final(self).balances == old(self).balances && final(self).verified_deposits == old(self).verified_deposits && engine_money(*final(self))
                == engine_money(*old(self)),
    {
        let was_pending = self.pending_deposits.contains(block_index);
        self.pending_deposits.remove(block_index);
        if !was_pending {
            return Err(GameError::Reservation);
        }
        let amount = match verified_amount {
            Some(a) => a,
            None => {
                // The ledger had no matching transfer at this index.
                return Err(GameError::NotFound);
            },
        };
        if self.verified_deposits.contains(block_index) {
            return Err(GameError::Reservation);
        }
        // The credit must keep the custodied total within range.
        let chips = self.table_chips();
        proof {
            lemma_seats_nonneg(self.table.players@);
            self.balances.lemma_balance_le_total(0);
            self.pending_withdrawals.lemma_balance_le_total(0);
        }
        let escrow = self.balances.total_value();
        let held = self.pending_withdrawals.total_value();
        let pot = self.table.pot;
        let headroom0 = u64::MAX - escrow;
        if chips > headroom0 || pot > headroom0 - chips || held > headroom0 - chips - pot || amount
            > headroom0 - chips - pot - held {
            return Err(GameError::Arithmetic);
        }
        self.verified_deposits.insert(block_index, caller);
        self.balances.credit(caller, amount);
        let new_balance = self.balances.get(caller);
        Ok(new_balance)
    }

    /// Re-records a block index as already credited, for the restore step
    /// after a code upgrade.  No money moves: the credit happened before
    /// the upgrade, and replaying the record keeps the index from ever
    /// being credited twice.
    pub fn restore_credited_deposit(&mut self, block_index: u64, caller: u64)
        requires
            engine_wf(*old(self)),
        ensures
            engine_wf(*final(self)),
            engine_money(*final(self)) == engine_money(*old(self)),
            final(self).verified_deposits.view_map() == old(self).verified_deposits.view_map().insert(
                block_index,
                caller,
            ),
            (*final(self) == Engine {
                verified_deposits: final(self).verified_deposits,
                ..*old(self)
            }),
    {
        self.verified_deposits.insert(block_index, caller);
    }

    /// Starts a withdrawal: debits the balance and reserves the caller.
    ///
    /// Succeeds exactly when the amount lies within the currency's limits,
    /// the caller's cooldown has passed, no withdrawal of theirs is in
    /// flight, they are not in a live hand un-folded, and their balance
    /// covers the amount.  The debited amount is held with the reservation
    /// until the ledger call settles.
    pub fn begin_withdraw(&mut self, caller: u64, amount: u64, now: u64) -> (r: Result<
        (),
        GameError,
    >)
        requires
            engine_wf(*old(self)),
        ensures
            engine_wf(*final(self)),
            engine_money(*final(self)) == engine_money(*old(self)),
            r is Err ==> *final(self) == *old(self),
            r is Ok <==> withdraw_allowed(*old(self), caller, amount, now),
            r is Ok ==> final(self).balances.balance_of(caller) == old(self).balances.balance_of(
                caller,
            ) - amount && final(self).pending_withdrawals.balance_of(caller) == amount,
            r is Ok ==> (*final(self) == Engine {
                balances: final(self).balances,
                pending_withdrawals: final(self).pending_withdrawals,
                ..*old(self)
            }),
    {
        let currency = self.table.config.currency;
        if amount < currency.min_withdrawal() {
            return Err(GameError::Precondition);
        }
        if amount > currency.max_withdrawal() {
            return Err(GameError::Precondition);
        }
        match self.last_withdrawal.get(caller) {
            Some(last) => {
                if now < last.saturating_add(WITHDRAWAL_COOLDOWN_NS) {
                    return Err(GameError::RateLimit);
                }
            },
            None => {},
        }
        if self.pending_withdrawals.get(caller) > 0 {
            return Err(GameError::Reservation);
        }
        if phase_live_exec(self.table.phase) {
            match self.find_seat(caller) {
                Some(seat) => {
                    match &self.table.players[seat] {
                        Some(p) => {
                            if !p.has_folded {
                                return Err(GameError::Precondition);
                            }
                        },
                        None => {},
                    }
                },
                None => {},
            }
        }
        let balance = self.balances.get(caller);
        if amount > balance {
            return Err(GameError::Arithmetic);
        }
        proof {
            self.balances.lemma_balance_le_total(caller);
            self.pending_withdrawals.lemma_balance_le_total(caller);
            lemma_seats_nonneg(self.table.players@);
        }
        self.balances.debit(caller, amount);
        self.pending_withdrawals.credit(caller, amount);
        Ok(())
    }

    /// Settles a withdrawal with the ledger's verdict.
    ///
    /// The reservation is released either way.  On success the money has
    /// left the table and the cooldown clock starts; on failure the debit
    /// is refunded in full, so a withdrawal that fails at the ledger never
    /// reduces the caller's balance on net.
    pub fn finish_withdraw(&mut self, caller: u64, now: u64, success: bool)
        requires
            engine_wf(*old(self)),
        ensures
            engine_wf(*final(self)),
            final(self).pending_withdrawals.balance_of(caller) == 0,
            (*final(self) == Engine {
                balances: final(self).balances,
                pending_withdrawals: final(self).pending_withdrawals,
                last_withdrawal: final(self).last_withdrawal,
                ..*old(self)
            }),
            success ==> final(self).balances == old(self).balances && engine_money(*final(self))
                == engine_money(*old(self)) - old(self).pending_withdrawals.balance_of(caller),
            success ==> final(self).last_withdrawal.view_map() == old(self).last_withdrawal.view_map().insert(
                caller,
                now,
            ),
            !success ==> final(self).balances.balance_of(caller) == old(self).balances.balance_of(
                caller,
            ) + old(self).pending_withdrawals.balance_of(caller) && engine_money(*final(self))
                == engine_money(*old(self)),
            !success ==> final(self).last_withdrawal == old(self).last_withdrawal,
    {
        let held = self.pending_withdrawals.get(caller);
        proof {
            self.pending_withdrawals.lemma_balance_le_total(caller);
            self.balances.lemma_balance_le_total(caller);
            lemma_seats_nonneg(self.table.players@);
        }
        self.pending_withdrawals.debit(caller, held);
        if success {
            self.last_withdrawal.insert(caller, now);
        } else {
            self.balances.credit(caller, held);
        }
    }

    /// Credits a confirmed push-style deposit the ledger already executed.
    pub fn credit_push_deposit(&mut self, caller: u64, amount: u64) -> (r: Result<u64, GameError>)
        requires
            engine_wf(*old(self)),
        ensures
            engine_wf(*final(self)),
            r is Ok <==> engine_money(*old(self)) + amount <= u64::MAX,
            r is Ok ==> final(self).balances.balance_of(caller) == old(self).balances.balance_of(
                caller,
            ) + amount && engine_money(*final(self)) == engine_money(*old(self)) + amount
                && (*final(self) == Engine { balances: final(self).balances, ..*old(self) }),
            r is Err ==> *final(self) == *old(self),
    {
        let chips = self.table_chips();
        proof {
            lemma_seats_nonneg(self.table.players@);
            self.balances.lemma_balance_le_total(0);
            self.pending_withdrawals.lemma_balance_le_total(0);
        }
        let escrow = self.balances.total_value();
        let held = self.pending_withdrawals.total_value();
        let pot = self.table.pot;
        let headroom0 = u64::MAX - escrow;
        if chips > headroom0 || pot > headroom0 - chips || held > headroom0 - chips - pot || amount
            > headroom0 - chips - pot - held {
            return Err(GameError::Arithmetic);
        }
        self.balances.credit(caller, amount);
        let b = self.balances.get(caller);
        Ok(b)
    }
}


impl Engine {
    /// Leaves the table, folding first if a hand is running; the remaining
    /// chips go back to escrow, and the pot keeps what was bet.  When the
    /// leaver was one of the last two seats in the hand, the hand ends at
    /// once: the other survivor is paid, or the leaver takes the pot along
    /// if nobody else is left in it.
    #[verifier::loop_isolation(false)]
    #[verifier::rlimit(60)]
    pub fn leave_table(&mut self, caller: u64, now: u64) -> (r: Result<u64, GameError>)
        requires
            engine_wf(*old(self)),
        ensures
            engine_wf(*final(self)),
            engine_money(*final(self)) == engine_money(*old(self)),
            r is Err ==> *final(self) == *old(self),
            r is Ok <==> spec_first_seat(old(self).table.players@, caller) is Some,
            r matches Ok(chips) ==> (match spec_first_seat(old(self).table.players@, caller) {
                Some(i) => {
                    let removed = old(self).table.players@.update(i, None::<Player>);
                    &&& chips == old(self).table.players@[i]->Some_0.chips
                    &&& final(self).table.players@[i] is None
                    &&& final(self).balances.balance_of(caller) == old(self).balances.balance_of(
                        caller,
                    ) + chips + (if phase_live(old(self).table.phase) && count_in_hand(removed)
                        == 0 {
                        old(self).table.pot as int
                    } else {
                        0
                    })
                },
                None => false,
            }),
    {
        let seat = match self.find_seat(caller) {
            Some(s) => s,
            None => {
                return Err(GameError::Precondition);
            },
        };
        let player = match self.table.players[seat] {
            Some(p) => p,
            None => {
                return Err(GameError::Precondition);
            },
        };
        let live = phase_live_exec(self.table.phase);
        let was_in_hand = live && !player.has_folded && player.hole_cards.is_some();
        let was_action_on = self.table.action_on as usize == seat;
        proof {
            lemma_seat_within(self.table.players@, seat as int);
            lemma_seats_nonneg(self.table.players@);
            self.balances.lemma_balance_le_total(0);
            self.pending_withdrawals.lemma_balance_le_total(0);
        }
        let chips = player.chips;
        let ghost ps_before = self.table.players@;
        self.table.players.set(seat, None);
        proof {
            lemma_seats_update(ps_before, seat as int, None);
        }
        self.balances.credit(caller, chips);
        if live {
            let remaining = self.count_in_hand_exec();
            if was_in_hand && remaining == 1 {
                let ghost ps_mid2 = self.table.players@;
                self.end_hand_single_winner(now);
                proof {
                    assert(seat_record_kept(
                        ps_mid2[seat as int],
                        self.table.players@[seat as int],
                    ));
                }
            } else if was_in_hand && remaining == 0 {
                // The leaver was the last seat in the hand: the pot goes
                // with them rather than be stranded.
                let pot = self.table.pot;
                self.table.pot = 0;
                proof {
                    self.balances.lemma_balance_le_total(0);
                    self.pending_withdrawals.lemma_balance_le_total(0);
                    lemma_seats_nonneg(self.table.players@);
                }
                self.balances.credit(caller, pot);
                self.table.phase = GamePhase::HandComplete;
                self.table.side_pots = Vec::new();
                self.table.action_timer = None;
                self.table.auto_deal_at = Some(now.saturating_add(AUTO_DEAL_DELAY_NS));
            } else if remaining == 0 {
                // No seat is in the hand at all (the leaver was already
                // folded): close the hand the same way.
                let pot = self.table.pot;
                self.table.pot = 0;
                proof {
                    self.balances.lemma_balance_le_total(0);
                    self.pending_withdrawals.lemma_balance_le_total(0);
                    lemma_seats_nonneg(self.table.players@);
                }
                self.balances.credit(caller, pot);
                self.table.phase = GamePhase::HandComplete;
                self.table.side_pots = Vec::new();
                self.table.action_timer = None;
                self.table.auto_deal_at = Some(now.saturating_add(AUTO_DEAL_DELAY_NS));
            } else if remaining == 1 {
                let ghost ps_mid2 = self.table.players@;
                self.end_hand_single_winner(now);
                proof {
                    assert(seat_record_kept(
                        ps_mid2[seat as int],
                        self.table.players@[seat as int],
                    ));
                }
            } else if was_action_on {
                let next = self.find_next_can_act(self.table.action_on);
                self.table.action_on = next;
                self.start_timer(now);
            }
        }
        Ok(chips)
    }

    /// Refreshes the caller's liveness clock and reconnects them.
    pub fn heartbeat(&mut self, caller: u64, now: u64) -> (r: Result<(), GameError>)
        requires
            engine_wf(*old(self)),
        ensures
            engine_wf(*final(self)),
            engine_money(*final(self)) == engine_money(*old(self)),
            final(self).balances == old(self).balances,
            r is Ok <==> (!heartbeat_bucket_limited(*old(self), caller, now) && spec_first_seat(
                old(self).table.players@,
                caller,
            ) is Some),
            (*final(self) == Engine {
                table: final(self).table,
                heartbeat_rate_limits: final(self).heartbeat_rate_limits,
                ..*old(self)
            }),
            (final(self).table == TableState {
                players: final(self).table.players,
                ..old(self).table
            }),
            r is Ok ==> (match spec_first_seat(old(self).table.players@, caller) {
                Some(i) => {
                    let p = old(self).table.players@[i]->Some_0;
                    final(self).table.players@ == old(self).table.players@.update(
                        i,
                        Some(
                            Player {
                                last_seen: now,
                                status: if p.status is Disconnected {
                                    PlayerStatus::Active
                                } else {
                                    p.status
                                },
                                ..p
                            },
                        ),
                    )
                },
                None => false,
            }),
            r is Err ==> final(self).table == old(self).table,
    {
        // Heartbeats have their own, tighter bucket.
        let limited: bool = match self.heartbeat_rate_limits.get(caller) {
            Some((last_time, count)) => {
                if now > last_time.saturating_add(RATE_LIMIT_WINDOW_NS) {
                    self.heartbeat_rate_limits.insert(caller, (now, 1));
                    false
                } else if count >= MAX_HEARTBEATS_PER_SECOND {
                    true
                } else {
                    self.heartbeat_rate_limits.insert(caller, (last_time, count + 1));
                    false
                }
            },
            None => {
                self.heartbeat_rate_limits.insert(caller, (now, 1));
                false
            },
        };
        if limited {
            return Err(GameError::RateLimit);
        }
        let seat = match self.find_seat(caller) {
            Some(s) => s,
            None => {
                return Err(GameError::Precondition);
            },
        };
        let ghost ps_before = self.table.players@;
        match self.table.players[seat] {
            Some(p) => {
                let mut p2 = p;
                p2.last_seen = now;
                if matches!(p2.status, PlayerStatus::Disconnected) {
                    p2.status = PlayerStatus::Active;
                }
                self.table.players.set(seat, Some(p2));
                proof {
                    lemma_seats_update(ps_before, seat as int, Some(p2));
                }
                Ok(())
            },
            None => Err(GameError::Precondition),
        }
    }

    /// Sits the caller out voluntarily.
    pub fn sit_out(&mut self, caller: u64, now: u64) -> (r: Result<(), GameError>)
        requires
            engine_wf(*old(self)),
        ensures
            engine_wf(*final(self)),
            engine_money(*final(self)) == engine_money(*old(self)),
            final(self).balances == old(self).balances,
            r is Ok <==> spec_first_seat(old(self).table.players@, caller) is Some,
            r is Err ==> *final(self) == *old(self),
            r is Ok ==> (match spec_first_seat(old(self).table.players@, caller) {
                Some(i) => final(self).table.players@ == old(self).table.players@.update(
                    i,
                    Some(
                        Player {
                            status: PlayerStatus::SittingOut,
                            sitting_out_since: Some(now),
                            ..old(self).table.players@[i]->Some_0
                        },
                    ),
                ),
                None => false,
            }) && (*final(self) == Engine { table: final(self).table, ..*old(self) }) && (
            final(self).table == TableState {
                players: final(self).table.players,
                ..old(self).table
            }),
    {
        let seat = match self.find_seat(caller) {
            Some(s) => s,
            None => {
                return Err(GameError::Precondition);
            },
        };
        let ghost ps_before = self.table.players@;
        match self.table.players[seat] {
            Some(p) => {
                let mut p2 = p;
                p2.status = PlayerStatus::SittingOut;
                p2.sitting_out_since = Some(now);
                self.table.players.set(seat, Some(p2));
                proof {
                    lemma_seats_update(ps_before, seat as int, Some(p2));
                }
                Ok(())
            },
            None => Err(GameError::Precondition),
        }
    }

    /// Brings the caller back in, clearing their timeout strikes.
    pub fn sit_in(&mut self, caller: u64, now: u64) -> (r: Result<(), GameError>)
        requires
            engine_wf(*old(self)),
        ensures
            engine_wf(*final(self)),
            engine_money(*final(self)) == engine_money(*old(self)),
            final(self).balances == old(self).balances,
            r is Ok <==> spec_first_seat(old(self).table.players@, caller) is Some,
            r is Err ==> *final(self) == *old(self),
            r is Ok ==> (match spec_first_seat(old(self).table.players@, caller) {
                Some(i) => final(self).table.players@ == old(self).table.players@.update(
                    i,
                    Some(
                        Player {
                            status: PlayerStatus::Active,
                            timeout_count: 0,
                            is_sitting_out_next_hand: false,
                            last_seen: now,
                            sitting_out_since: None,
                            ..old(self).table.players@[i]->Some_0
                        },
                    ),
                ),
                None => false,
            }) && (*final(self) == Engine { table: final(self).table, ..*old(self) }) && (
            final(self).table == TableState {
                players: final(self).table.players,
                auto_deal_at: final(self).table.auto_deal_at,
                ..old(self).table
            }),
    {
        let seat = match self.find_seat(caller) {
            Some(s) => s,
            None => {
                return Err(GameError::Precondition);
            },
        };
        let ghost ps_before = self.table.players@;
        match self.table.players[seat] {
            Some(p) => {
                let mut p2 = p;
                p2.status = PlayerStatus::Active;
                p2.timeout_count = 0;
                p2.is_sitting_out_next_hand = false;
                p2.last_seen = now;
                p2.sitting_out_since = None;
                self.table.players.set(seat, Some(p2));
                proof {
                    lemma_seats_update(ps_before, seat as int, Some(p2));
                }
                let phase_ok = matches!(self.table.phase, GamePhase::WaitingForPlayers)
                    || matches!(self.table.phase, GamePhase::HandComplete);
                if phase_ok && self.count_ready() >= 2 && self.table.auto_deal_at.is_none() {
                    self.table.auto_deal_at = Some(now.saturating_add(AUTO_DEAL_DELAY_NS));
                }
                Ok(())
            },
            None => Err(GameError::Precondition),
        }
    }

    /// Marks the caller to sit out when the current hand ends.
    pub fn sit_out_next_hand(&mut self, caller: u64) -> (r: Result<(), GameError>)
        requires
            engine_wf(*old(self)),
        ensures
            engine_wf(*final(self)),
            engine_money(*final(self)) == engine_money(*old(self)),
            final(self).balances == old(self).balances,
            r is Ok <==> spec_first_seat(old(self).table.players@, caller) is Some,
            r is Err ==> *final(self) == *old(self),
            r is Ok ==> (match spec_first_seat(old(self).table.players@, caller) {
                Some(i) => final(self).table.players@ == old(self).table.players@.update(
                    i,
                    Some(
                        Player {
                            is_sitting_out_next_hand: true,
                            ..old(self).table.players@[i]->Some_0
                        },
                    ),
                ),
                None => false,
            }) && (*final(self) == Engine { table: final(self).table, ..*old(self) }) && (
            final(self).table == TableState {
                players: final(self).table.players,
                ..old(self).table
            }),
    {
        let seat = match self.find_seat(caller) {
            Some(s) => s,
            None => {
                return Err(GameError::Precondition);
            },
        };
        let ghost ps_before = self.table.players@;
        match self.table.players[seat] {
            Some(p) => {
                let mut p2 = p;
                p2.is_sitting_out_next_hand = true;
                self.table.players.set(seat, Some(p2));
                proof {
                    lemma_seats_update(ps_before, seat as int, Some(p2));
                }
                Ok(())
            },
            None => Err(GameError::Precondition),
        }
    }

    /// Spends the caller's whole time bank once, extending the running
    /// action clock.
    pub fn use_time_bank(&mut self, caller: u64, now: u64) -> (r: Result<u64, GameError>)
        requires
            engine_wf(*old(self)),
        ensures
            engine_wf(*final(self)),
            engine_money(*final(self)) == engine_money(*old(self)),
            final(self).balances == old(self).balances,
            r is Ok ==> r->Ok_0 == 0,
            r is Ok <==> (spec_first_seat(old(self).table.players@, caller) == Some(
                old(self).table.action_on as int,
            ) && (old(self).table.action_timer matches Some(tm) ==> !tm.using_time_bank) && old(
                self,
            ).table.players@[old(self).table.action_on as int]->Some_0.time_bank_remaining > 0),
            r is Err ==> *final(self) == *old(self),
            r is Ok ==> {
                let i = old(self).table.action_on as int;
                let p = old(self).table.players@[i]->Some_0;
                &&& final(self).table.players@ == old(self).table.players@.update(
                    i,
                    Some(Player { time_bank_remaining: 0, ..p }),
                )
                &&& (match final(self).table.action_timer {
                    Some(tm) => tm.player_seat as int == i && tm.started_at == now
                        && tm.expires_at == sat_add(
                        now,
                        (p.time_bank_remaining * NS_PER_SEC) as u64,
                    ) && tm.using_time_bank,
                    None => false,
                })
                &&& (*final(self) == Engine { table: final(self).table, ..*old(self) })
                &&& (final(self).table == TableState {
                    players: final(self).table.players,
                    action_timer: final(self).table.action_timer,
                    ..old(self).table
                })
            },
    {
        let seat = match self.find_seat(caller) {
            Some(s) => s,
            None => {
                return Err(GameError::Precondition);
            },
        };
        if seat != self.table.action_on as usize {
            return Err(GameError::Precondition);
        }
        match &self.table.action_timer {
            Some(tm) => {
                if tm.using_time_bank {
                    return Err(GameError::Precondition);
                }
            },
            None => {},
        }
        let ghost ps_before = self.table.players@;
        match self.table.players[seat] {
            Some(p) => {
                if p.time_bank_remaining == 0 {
                    return Err(GameError::Precondition);
                }
                let extra_ns = p.time_bank_remaining * NS_PER_SEC;
                let mut p2 = p;
                p2.time_bank_remaining = 0;
                self.table.players.set(seat, Some(p2));
                proof {
                    lemma_seats_update(ps_before, seat as int, Some(p2));
                }
                self.table.action_timer = Some(
                    ActionTimer {
                        player_seat: seat as u8,
                        started_at: now,
                        expires_at: now.saturating_add(extra_ns),
                        using_time_bank: true,
                    },
                );
                Ok(0)
            },
            None => Err(GameError::Precondition),
        }
    }

    /// Shows the caller's hole cards to the table, allowed once they have
    /// folded or the hand is over.
    pub fn show_cards(&mut self, caller: u64) -> (r: Result<(Card, Card), GameError>)
        requires
            engine_wf(*old(self)),
        ensures
            engine_wf(*final(self)),
            engine_money(*final(self)) == engine_money(*old(self)),
            final(self).balances == old(self).balances,
            r is Ok <==> (match spec_first_seat(old(self).table.players@, caller) {
                Some(i) => {
                    let p = old(self).table.players@[i]->Some_0;
                    p.hole_cards is Some && (p.has_folded || old(self).table.phase is HandComplete)
                },
                None => false,
            }),
            r is Err ==> *final(self) == *old(self),
            r matches Ok(cards) ==> (match spec_first_seat(old(self).table.players@, caller) {
                Some(i) => Some(cards) == old(self).table.players@[i]->Some_0.hole_cards
                    && final(self).shown_cards@.contains(
                    (old(self).table.hand_number, i as u8),
                ),
                None => false,
            }) && (*final(self) == Engine {
                shown_cards: final(self).shown_cards,
                ..*old(self)
            }),
            (forall|a: int, b: int|
                0 <= a < b < old(self).shown_cards@.len() ==> old(self).shown_cards@[a]
                    != old(self).shown_cards@[b]) ==> (forall|a: int, b: int|
                0 <= a < b < final(self).shown_cards@.len() ==> final(self).shown_cards@[a]
                    != final(self).shown_cards@[b]),
    {
        let seat = match self.find_seat(caller) {
            Some(s) => s,
            None => {
                return Err(GameError::Precondition);
            },
        };
        let p = match self.table.players[seat] {
            Some(p) => p,
            None => {
                return Err(GameError::Precondition);
            },
        };
        let cards = match p.hole_cards {
            Some(c) => c,
            None => {
                return Err(GameError::Precondition);
            },
        };
        let showdown_or_done = matches!(self.table.phase, GamePhase::HandComplete) || matches!(
            self.table.phase,
            GamePhase::Showdown,
        );
        if !p.has_folded && !showdown_or_done {
            return Err(GameError::Precondition);
        }
        let hand = self.table.hand_number;
        if !self.did_player_show(seat as u8) {
            self.shown_cards.push((hand, seat as u8));
            proof {
                assert(self.shown_cards@.last() == (hand, seat as u8));
                assert(self.shown_cards@.contains((hand, seat as u8)));
            }
        }
        Ok(cards)
    }

    /// Did the seat voluntarily show its cards this hand?
    pub fn did_player_show(&self, seat: u8) -> (r: bool)
        ensures
            r == self.shown_cards@.contains((self.table.hand_number, seat)),
    {
        let hand = self.table.hand_number;
        let mut i: usize = 0;
        while i < self.shown_cards.len()
            invariant
                i <= self.shown_cards@.len(),
                hand == self.table.hand_number,
                forall|m: int| 0 <= m < i ==> #[trigger] self.shown_cards@[m] != (hand, seat),
            decreases self.shown_cards@.len() - i,
        {
            let (h, s) = self.shown_cards[i];
            if h == hand && s == seat {
                return true;
            }
            i = i + 1;
        }
        false
    }

    /// The cards of a seat that showed them this hand.
    pub fn get_shown_cards(&self, seat: u8) -> (r: Option<(Card, Card)>)
        ensures
            r is Some ==> self.shown_cards@.contains((self.table.hand_number, seat)),
    {
        if !self.did_player_show(seat) {
            return None;
        }
        if (seat as usize) < self.table.players.len() {
            match &self.table.players[seat as usize] {
                Some(p) => p.hole_cards,
                None => None,
            }
        } else {
            None
        }
    }

    /// Sweeps every clock: liveness, broke timers, idle auto-kicks, the
    /// auto-deal deadline, and the action clock.  A run-down action clock
    /// folds the seat on action, counts the strike, and advances the game.
    #[verifier::loop_isolation(false)]
    #[verifier::rlimit(100)]
    pub fn check_timeouts(&mut self, now: u64) -> (r: TimeoutCheckResult)
        requires
            engine_wf(*old(self)),
        ensures
            engine_wf(*final(self)),
            engine_money(*final(self)) == engine_money(*old(self)),
            r is AutoDealReady <==> ((old(self).table.phase is WaitingForPlayers || old(
                self,
            ).table.phase is HandComplete) && count_ready_live(old(self).table.players@, now) >= 2
                && (match old(self).table.auto_deal_at {
                Some(w) => now >= w,
                None => now >= sat_add(now, AUTO_DEAL_DELAY_NS),
            })),
            r is PlayerTimedOut ==> (match old(self).table.action_timer {
                Some(tm) => r == TimeoutCheckResult::PlayerTimedOut(tm.player_seat) && phase_live(
                    old(self).table.phase,
                ) && now > tm.expires_at && (tm.player_seat as int)
                    < old(self).table.players@.len(),
                None => false,
            }),
            (phase_live(old(self).table.phase) && (match old(self).table.action_timer {
                Some(tm) => now > tm.expires_at && (tm.player_seat as int)
                    < old(self).table.players@.len(),
                None => false,
            })) ==> r is PlayerTimedOut,
            (old(self).table.phase is WaitingForPlayers || old(self).table.phase is HandComplete)
                ==> ({
                let ps0 = old(self).table.players@;
                &&& final(self).table.players@.len() == ps0.len()
                &&& (forall|m: int|
                    0 <= m < ps0.len() ==> #[trigger] final(self).table.players@[m] == (
                    if kicked_between(sweep_live_seat(ps0[m], now), now) {
                        None::<Player>
                    } else {
                        sweep_live_seat(ps0[m], now)
                    }))
                &&& (forall|m: int|
                    0 <= m < ps0.len() && kicked_between(sweep_live_seat(ps0[m], now), now)
                        ==> final(self).balances.balance_of(
                        (#[trigger] sweep_live_seat(ps0[m], now))->Some_0.principal,
                    ) >= old(self).balances.balance_of(
                        sweep_live_seat(ps0[m], now)->Some_0.principal,
                    ) + sweep_live_seat(ps0[m], now)->Some_0.chips)
                &&& ((forall|m: int|
                    0 <= m < ps0.len() ==> !kicked_between(
                        #[trigger] sweep_live_seat(ps0[m], now),
                        now,
                    )) ==> final(self).balances == old(self).balances)
                &&& (*final(self) == Engine {
                    table: final(self).table,
                    balances: final(self).balances,
                    ..*old(self)
                })
                &&& (final(self).table == TableState {
                    players: final(self).table.players,
                    auto_deal_at: final(self).table.auto_deal_at,
                    ..old(self).table
                })
                &&& final(self).table.auto_deal_at == spec_auto_deal(
                    old(self).table.auto_deal_at,
                    count_ready_live(ps0, now),
                    now,
                )
            }),
            (phase_live(old(self).table.phase) && !(match old(self).table.action_timer {
                Some(tm) => now > tm.expires_at && (tm.player_seat as int)
                    < old(self).table.players@.len(),
                None => false,
            })) ==> ((forall|m: int|
                0 <= m < old(self).table.players@.len()
                    ==> #[trigger] final(self).table.players@[m] == sweep_live_seat(
                    old(self).table.players@[m],
                    now,
                )) && (*final(self) == Engine { table: final(self).table, ..*old(self) }) && (
            final(self).table == TableState {
                players: final(self).table.players,
                ..old(self).table
            })),
            r is PlayerTimedOut ==> (match old(self).table.action_timer {
                Some(tm) => {
                    let s = tm.player_seat as int;
                    &&& (match final(self).table.players@[s] {
                        Some(q) => q.has_folded && (match old(self).table.players@[s] {
                            Some(p) => q.timeout_count == (
                            if p.timeout_count >= MAX_TIMEOUTS_BEFORE_SITOUT {
                                p.timeout_count as int
                            } else {
                                p.timeout_count + 1
                            }) && (q.timeout_count >= MAX_TIMEOUTS_BEFORE_SITOUT ==> q.status
                                is SittingOut),
                            None => true,
                        }),
                        None => old(self).table.players@[s] is None,
                    })
                    &&& (old(self).table.players@[s] is Some ==> {
                        let acts = final(self).current_actions@;
                        acts.len() == old(self).current_actions@.len() + 1 && acts.last().seat
                            == tm.player_seat && acts.last().action is Fold
                            && acts.last().timestamp == now
                    })
                    &&& (final(self).table.phase is HandComplete || (
                    match final(self).table.action_timer {
                        Some(t2) => t2.started_at == now,
                        None => false,
                    }))
                },
                None => false,
            }),
    {
        let n = self.table.players.len();
        let ghost e0 = *old(self);
        // Liveness: a seat silent too long counts as disconnected.
        let mut i: usize = 0;
        while i < n
            invariant
                n == self.table.players@.len(),
                i <= n,
                (*self == Engine { table: self.table, ..e0 }),
                (self.table == TableState { players: self.table.players, ..e0.table }),
                seats_money(self.table.players@) == seats_money(e0.table.players@),
                seats_bets(self.table.players@) == seats_bets(e0.table.players@),
                count_in_hand(self.table.players@) == count_in_hand(e0.table.players@),
                forall|m: int| 0 <= m < n ==> player_ok(#[trigger] self.table.players@[m], m),
                forall|m: int|
                    0 <= m < i ==> seat_ready(#[trigger] self.table.players@[m]) == seat_ready_live(
                        e0.table.players@[m],
                        now,
                    ),
                forall|m: int|
                    0 <= m < i ==> #[trigger] self.table.players@[m] == sweep_live_seat(
                        e0.table.players@[m],
                        now,
                    ),
                forall|m: int|
                    i <= m < n ==> #[trigger] self.table.players@[m] == e0.table.players@[m],
            decreases n - i,
        {
            let ghost ps_before = self.table.players@;
            match self.table.players[i] {
                Some(p) => {
                    let mut p2 = p;
                    if matches!(p2.status, PlayerStatus::Active) && now > p2.last_seen.saturating_add(
                        DISCONNECT_TIMEOUT_NS,
                    ) {
                        p2.status = PlayerStatus::Disconnected;
                        if p2.sitting_out_since.is_none() {
                            p2.sitting_out_since = Some(now);
                        }
                    }
                    // A seat broke for too long sits out.
                    match p2.broke_at {
                        Some(broke_time) => {
                            if p2.chips == 0 && now > broke_time.saturating_add(
                                RELOAD_TIMEOUT_SECS * NS_PER_SEC,
                            ) {
                                p2.status = PlayerStatus::SittingOut;
                                p2.sitting_out_since = Some(now);
                                p2.broke_at = None;
                            }
                        },
                        None => {},
                    }
                    self.table.players.set(i, Some(p2));
                    proof {
                        lemma_seats_update(ps_before, i as int, Some(p2));
                    }
                },
                None => {},
            }
            i = i + 1;
        }
        // Between hands, seats idle too long are kicked and their chips go
        // back to escrow.
        let between = matches!(self.table.phase, GamePhase::WaitingForPlayers) || matches!(
            self.table.phase,
            GamePhase::HandComplete,
        );
        if between {
            let ghost e1 = *self;
            let ghost money1 = engine_money(*self);
            let mut i: usize = 0;
            while i < n
                invariant
                    n == self.table.players@.len(),
                    i <= n,
                    (*self == Engine {
                        table: self.table,
                        balances: self.balances,
                        ..e1
                    }),
                    (self.table == TableState { players: self.table.players, ..e1.table }),
                    self.balances.wf(),
                    engine_money(*self) == money1,
                    forall|m: int|
                        0 <= m < n ==> player_ok(#[trigger] self.table.players@[m], m),
                    forall|m: int|
                        0 <= m < i ==> seat_ready(#[trigger] self.table.players@[m]) == seat_ready(
                            e1.table.players@[m],
                        ),
                    forall|m: int|
                        0 <= m < i ==> #[trigger] self.table.players@[m] == (if kicked_between(
                            e1.table.players@[m],
                            now,
                        ) {
                            None::<Player>
                        } else {
                            e1.table.players@[m]
                        }),
                    forall|m: int|
                        i <= m < n ==> #[trigger] self.table.players@[m] == e1.table.players@[m],
                    forall|id: u64|
                        #[trigger] self.balances.balance_of(id) >= e1.balances.balance_of(id),
                    forall|m: int|
                        0 <= m < i && kicked_between(#[trigger] e1.table.players@[m], now)
                            ==> self.balances.balance_of(e1.table.players@[m]->Some_0.principal)
                            >= e1.balances.balance_of(e1.table.players@[m]->Some_0.principal)
                            + e1.table.players@[m]->Some_0.chips,
                    (forall|m: int|
                        0 <= m < i ==> !kicked_between(#[trigger] e1.table.players@[m], now))
                        ==> self.balances == e1.balances,
                decreases n - i,
            {
                let ghost ps_before = self.table.players@;
                match self.table.players[i] {
                    Some(p) => {
                        if matches!(p.status, PlayerStatus::SittingOut) || matches!(
                            p.status,
                            PlayerStatus::Disconnected,
                        ) {
                            let idle_since = match p.sitting_out_since {
                                Some(t) => t,
                                None => p.last_seen,
                            };
                            if now > idle_since.saturating_add(SITTING_OUT_KICK_SECS * NS_PER_SEC) {
                                proof {
                                    lemma_seat_within(ps_before, i as int);
                                    lemma_seats_nonneg(ps_before);
                                    self.balances.lemma_balance_le_total(0);
                                    self.pending_withdrawals.lemma_balance_le_total(0);
                                }
                                self.table.players.set(i, None);
                                proof {
                                    lemma_seats_update(ps_before, i as int, None);
                                }
                                self.balances.credit(p.principal, p.chips);
                            }
                        }
                    },
                    None => {},
                }
                i = i + 1;
            }
            // Auto-deal: arm the deadline when enough seats are ready, and
            // signal when it passes.
            proof {
                lemma_count_ready_eq_live(self.table.players@, e0.table.players@, now);
                assert forall|m: int|
                    0 <= m < n implies #[trigger] self.table.players@[m] == (if kicked_between(
                    sweep_live_seat(e0.table.players@[m], now),
                    now,
                ) {
                    None::<Player>
                } else {
                    sweep_live_seat(e0.table.players@[m], now)
                }) by {
                    assert(e1.table.players@[m] == sweep_live_seat(e0.table.players@[m], now));
                }
                assert forall|m: int|
                    0 <= m < n && kicked_between(
                        sweep_live_seat(e0.table.players@[m], now),
                        now,
                    ) implies self.balances.balance_of(
                    (#[trigger] sweep_live_seat(e0.table.players@[m], now))->Some_0.principal,
                ) >= e0.balances.balance_of(
                    sweep_live_seat(e0.table.players@[m], now)->Some_0.principal,
                ) + sweep_live_seat(e0.table.players@[m], now)->Some_0.chips by {
                    assert(e1.table.players@[m] == sweep_live_seat(e0.table.players@[m], now));
                    assert(kicked_between(e1.table.players@[m], now));
                }
                if forall|m: int|
                    0 <= m < n ==> !kicked_between(
                        #[trigger] sweep_live_seat(e0.table.players@[m], now),
                        now,
                    ) {
                    assert forall|m: int|
                        0 <= m < n implies !kicked_between(
                        #[trigger] e1.table.players@[m],
                        now,
                    ) by {
                        assert(e1.table.players@[m] == sweep_live_seat(e0.table.players@[m], now));
                    }
                    assert(self.balances == e1.balances);
                }
            }
            let ghost ready_live = count_ready_live(e0.table.players@, now);
            let ghost auto0 = self.table.auto_deal_at;
            if self.table.auto_deal_at.is_none() && self.count_ready() >= 2 {
                self.table.auto_deal_at = Some(now.saturating_add(AUTO_DEAL_DELAY_NS));
            }
            match self.table.auto_deal_at {
                Some(when) => {
                    if now >= when {
                        if self.count_ready() >= 2 {
                            proof {
                                assert(self.table.auto_deal_at == spec_auto_deal(
                                    auto0,
                                    ready_live,
                                    now,
                                ));
                            }
                            return TimeoutCheckResult::AutoDealReady;
                        }
                        self.table.auto_deal_at = None;
                    }
                },
                None => {},
            }
            proof {
                assert(self.table.auto_deal_at == spec_auto_deal(auto0, ready_live, now));
            }
            return TimeoutCheckResult::NoAction;
        }
        // A live hand: fold the seat whose action clock has run out.
        if !phase_live_exec(self.table.phase) {
            return TimeoutCheckResult::NoAction;
        }
        let timer = match &self.table.action_timer {
            Some(tm) => *tm,
            None => {
                return TimeoutCheckResult::NoAction;
            },
        };
        if now <= timer.expires_at {
            return TimeoutCheckResult::NoAction;
        }
        let seat = timer.player_seat as usize;
        if seat >= self.table.players.len() {
            return TimeoutCheckResult::NoAction;
        }
        let ghost ps_before = self.table.players@;
        match self.table.players[seat] {
            Some(p) => {
                let mut p2 = p;
                p2.has_folded = true;
                p2.has_acted_this_round = true;
                p2.timeout_count = if p2.timeout_count >= MAX_TIMEOUTS_BEFORE_SITOUT {
                    p2.timeout_count
                } else {
                    p2.timeout_count + 1
                };
                if p2.timeout_count >= MAX_TIMEOUTS_BEFORE_SITOUT {
                    p2.status = PlayerStatus::SittingOut;
                    p2.sitting_out_since = Some(now);
                }
                self.table.players.set(seat, Some(p2));
                proof {
                    lemma_seats_update(ps_before, seat as int, Some(p2));
                }
                self.record_action(seat as u8, PlayerAction::Fold, LastAction::Fold, now);
            },
            None => {},
        }
        proof {
            lemma_seats_nonneg(self.table.players@);
        }
        if self.count_in_hand_exec() == 0 {
            // Nobody is left in the hand; close it and keep the money safe.
            self.table.phase = GamePhase::HandComplete;
            let pot = self.table.pot;
            self.table.pot = 0;
            self.table.side_pots = Vec::new();
            proof {
                self.balances.lemma_balance_le_total(0);
                self.pending_withdrawals.lemma_balance_le_total(0);
            }
            self.table.action_timer = None;
            self.finish_pot_to_balances(pot);
            return TimeoutCheckResult::PlayerTimedOut(timer.player_seat);
        }
        let ghost ps_mid = self.table.players@;
        let ghost acts_mid = self.current_actions;
        self.advance_game(now);
        proof {
            let s = timer.player_seat as int;
            assert(seat_record_kept(ps_mid[s], self.table.players@[s]));
            assert(self.current_actions == acts_mid);
            match ps_mid[s] {
                Some(q0) => {
                    assert(q0.has_folded);
                    match self.table.players@[s] {
                        Some(q) => {
                            assert(q.has_folded && q.timeout_count == q0.timeout_count);
                        },
                        None => {
                            assert(false);
                        },
                    }
                },
                None => {},
            }
        }
        TimeoutCheckResult::PlayerTimedOut(timer.player_seat)
    }

    /// The pot on the table.
    pub fn get_pot(&self) -> (r: u64)
        ensures
            r == self.table.pot,
    {
        self.table.pot
    }

    /// The board so far.
    pub fn get_community_cards(&self) -> (r: Vec<Card>)
        ensures
            r@ == self.table.community_cards@,
    {
        crate::eval::copy_cards(&self.table.community_cards)
    }

    /// The caller's own hole cards, if seated and dealt in.
    pub fn get_my_cards(&self, caller: u64) -> (r: Option<(Card, Card)>)
        ensures
            r == (match spec_first_seat(self.table.players@, caller) {
                Some(i) => self.table.players@[i]->Some_0.hole_cards,
                None => None::<(Card, Card)>,
            }),
            match r {
                Some(c) => exists|i: int|
                    0 <= i < self.table.players@.len() && seat_holds(
                        #[trigger] self.table.players@[i],
                        caller,
                    ) && (match self.table.players@[i] {
                        Some(p) => p.hole_cards == Some(c),
                        None => false,
                    }),
                None => true,
            },
    {
        match self.find_seat(caller) {
            Some(seat) => {
                match &self.table.players[seat] {
                    Some(p) => {
                        proof {
                            if p.hole_cards is Some {
                                assert(seat_holds(self.table.players@[seat as int], caller));
                            }
                        }
                        p.hole_cards
                    },
                    None => None,
                }
            },
            None => None,
        }
    }

    /// The running action clock.
    pub fn get_action_timer(&self) -> (r: Option<ActionTimer>)
        ensures
            r == self.table.action_timer,
    {
        self.table.action_timer
    }

    /// Seconds left on the action clock, zero once it has run out.
    pub fn get_time_remaining(&self, now: u64) -> (r: Option<u64>)
        ensures
            match self.table.action_timer {
                Some(tm) => now >= tm.expires_at ==> r == Some(0u64),
                None => r is None,
            },
            match self.table.action_timer {
                Some(tm) => now < tm.expires_at ==> (match r {
                    Some(v) => v as int == ((tm.expires_at - now) as int) / (NS_PER_SEC as int),
                    None => false,
                }),
                None => true,
            },
    {
        match &self.table.action_timer {
            Some(tm) => {
                if now >= tm.expires_at {
                    Some(0)
                } else {
                    Some((tm.expires_at - now) / NS_PER_SEC)
                }
            },
            None => None,
        }
    }

    /// How many seats are taken.
    pub fn get_player_count(&self) -> (r: u8)
        requires
            self.table.players@.len() <= 255,
        ensures
            r as int == count_occupied(self.table.players@),
    {
        let ps = &self.table.players;
        let mut count: u8 = 0;
        let mut i: usize = 0;
        proof {
            assert(ps@.take(0) =~= Seq::<Option<Player>>::empty());
        }
        while i < ps.len()
            invariant
                i <= ps@.len(),
                ps@.len() <= 255,
                count as int == count_occupied(ps@.take(i as int)),
                count <= i,
            decreases ps@.len() - i,
        {
            proof {
                assert(ps@.take(i + 1).drop_last() =~= ps@.take(i as int));
                assert(ps@.take(i + 1).last() == ps@[i as int]);
                lemma_count_occupied_bound(ps@.take(i as int));
            }
            if ps[i].is_some() {
                count = count + 1;
            }
            i = i + 1;
        }
        proof {
            assert(ps@.take(ps@.len() as int) =~= ps@);
        }
        count
    }

    /// The table's seat count.
    pub fn get_max_players(&self) -> (r: u8)
        ensures
            r == self.table.config.max_players,
    {
        self.table.config.max_players
    }

    /// The commitment of the latest hand, with the seed revealed once that
    /// hand has ended.
    pub fn get_shuffle_proof(&self) -> (r: Option<ShuffleProof>)
        ensures
            r is Some <==> self.hand_history@.len() > 0,
            r matches Some(pr) ==> {
                let e = self.hand_history@[self.hand_history@.len() - 1];
                &&& pr.seed_hash@ == e.shuffle_proof.seed_hash@
                &&& pr.timestamp == e.shuffle_proof.timestamp
                &&& (match e.shuffle_proof.revealed_seed {
                    Some(s) => pr.revealed_seed matches Some(s2) && s2@ == s@,
                    None => pr.revealed_seed is None,
                })
            },
    {
        match self.hand_history.last() {
            Some(entry) => Some(
                ShuffleProof {
                    seed_hash: clone_string(&entry.shuffle_proof.seed_hash),
                    revealed_seed: match &entry.shuffle_proof.revealed_seed {
                        Some(s) => Some(clone_string(s)),
                        None => None,
                    },
                    timestamp: entry.shuffle_proof.timestamp,
                },
            ),
            None => None,
        }
    }
}


/// The archive record faithfully mirrors a stored hand: same hand, same
/// commitment, the action log one to one, the winners seat for seat and
/// amount for amount, and the board streets read off the community cards
/// in order.
pub open spec fn record_mirrors_entry(
    rec: crate::history::HandHistoryRecord,
    e: HandHistory,
    t: TableState,
) -> bool {
    &&& rec.hand_id == e.hand_number
    &&& rec.hand_number == e.hand_number
    &&& rec.table_id == t.id
    &&& rec.small_blind == t.config.small_blind
    &&& rec.big_blind == t.config.big_blind
    &&& rec.ante == t.config.ante
    &&& rec.dealer_seat == t.dealer_seat
    &&& rec.rake == 0
    &&& rec.shuffle_proof.seed_hash@ == e.shuffle_proof.seed_hash@
    &&& rec.shuffle_proof.timestamp == e.shuffle_proof.timestamp
    &&& (match e.shuffle_proof.revealed_seed {
        Some(s) => rec.shuffle_proof.revealed_seed@ == s@,
        None => rec.shuffle_proof.revealed_seed@.len() == 0,
    })
    &&& rec.actions@.len() == e.actions@.len()
    &&& (forall|a: int|
        0 <= a < e.actions@.len() ==> {
            let ra = #[trigger] rec.actions@[a];
            ra.seat == e.actions@[a].seat && ra.action == e.actions@[a].action && ra.timestamp
                == e.actions@[a].timestamp && ra.phase@ == e.actions@[a].phase@
        })
    &&& rec.winners@.len() == e.winners@.len()
    &&& (forall|w: int|
        0 <= w < e.winners@.len() ==> {
            let rw = #[trigger] rec.winners@[w];
            rw.seat == e.winners@[w].seat && rw.principal == e.winners@[w].principal && rw.amount
                == e.winners@[w].amount
        })
    &&& (sum_winners(e.winners@) <= u64::MAX ==> rec.total_pot == sum_winners(e.winners@))
    &&& rec.flop == (if e.community_cards@.len() >= 3 {
        Some((e.community_cards@[0], e.community_cards@[1], e.community_cards@[2]))
    } else {
        None::<(Card, Card, Card)>
    })
    &&& rec.turn == (if e.community_cards@.len() >= 4 {
        Some(e.community_cards@[3])
    } else {
        None::<Card>
    })
    &&& rec.river == (if e.community_cards@.len() >= 5 {
        Some(e.community_cards@[4])
    } else {
        None::<Card>
    })
    &&& rec.went_to_showdown == (e.showdown_players@.len() > 0)
}

impl Engine {
    /// The caller's view of the table.
    ///
    /// Everything public is copied out; the deck, the deck cursor and the
    /// hidden seed are never part of a view, and each seat's hole cards
    /// appear exactly when the card-visibility policy admits this caller.
    #[verifier::loop_isolation(false)]
    pub fn get_table_view(&self, caller: u64, now: u64) -> (r: TableView)
        requires
            engine_wf(*self),
        ensures
            r.players@.len() == self.table.players@.len(),
            forall|i: int|
                0 <= i < r.players@.len() ==> (match #[trigger] r.players@[i] {
                    Some(v) => self.table.players@[i] is Some && {
                        let p = self.table.players@[i]->Some_0;
                        &&& v.principal == p.principal
                        &&& v.seat == p.seat
                        &&& v.chips == p.chips
                        &&& v.current_bet == p.current_bet
                        &&& v.has_folded == p.has_folded
                        &&& v.is_all_in == p.is_all_in
                        &&& v.status == p.status
                        &&& v.is_self == seat_holds(self.table.players@[i], caller)
                        &&& v.hole_cards == (if hole_cards_visible(*self, caller, i) {
                            p.hole_cards
                        } else {
                            None::<(Card, Card)>
                        })
                    },
                    None => self.table.players@[i] is None,
                }),
            r.pot == self.table.pot,
            r.current_bet == self.table.current_bet,
            r.min_raise == self.table.min_raise,
            r.phase == self.table.phase,
            r.dealer_seat == self.table.dealer_seat,
            r.action_on == self.table.action_on,
            r.hand_number == self.table.hand_number,
            r.community_cards@ == self.table.community_cards@,
            r.is_my_turn == (spec_first_seat(self.table.players@, caller) == Some(
                self.table.action_on as int,
            )),
    {
        let n = self.table.players.len();
        let mut views: Vec<Option<PlayerView>> = Vec::new();
        let showdown_or_done = matches!(self.table.phase, GamePhase::Showdown) || matches!(
            self.table.phase,
            GamePhase::HandComplete,
        );
        let mut i: usize = 0;
        while i < n
            invariant
                n == self.table.players@.len(),
                i <= n,
                views@.len() == i,
                engine_wf(*self),
                showdown_or_done == self.table.phase is HandComplete,
                forall|m: int|
                    0 <= m < i ==> (match #[trigger] views@[m] {
                        Some(v) => self.table.players@[m] is Some && {
                            let p = self.table.players@[m]->Some_0;
                            &&& v.principal == p.principal
                            &&& v.seat == p.seat
                            &&& v.chips == p.chips
                            &&& v.current_bet == p.current_bet
                            &&& v.has_folded == p.has_folded
                            &&& v.is_all_in == p.is_all_in
                            &&& v.status == p.status
                            &&& v.is_self == seat_holds(self.table.players@[m], caller)
                            &&& v.hole_cards == (if hole_cards_visible(*self, caller, m) {
                                p.hole_cards
                            } else {
                                None::<(Card, Card)>
                            })
                        },
                        None => self.table.players@[m] is None,
                    }),
            decreases n - i,
        {
            match &self.table.players[i] {
                Some(p) => {
                    let is_self = p.principal == caller;
                    let showed = self.did_player_show(i as u8);
                    let can_see = is_self || (showdown_or_done && !p.has_folded) || showed;
                    views.push(
                        Some(
                            PlayerView {
                                principal: p.principal,
                                seat: p.seat,
                                chips: p.chips,
                                hole_cards: if can_see {
                                    p.hole_cards
                                } else {
                                    None
                                },
                                current_bet: p.current_bet,
                                has_folded: p.has_folded,
                                is_all_in: p.is_all_in,
                                status: p.status,
                                is_self,
                            },
                        ),
                    );
                },
                None => {
                    views.push(None);
                },
            }
            i = i + 1;
        }
        let my_seat = self.find_seat(caller);
        let is_my_turn = match my_seat {
            Some(seat) => seat == self.table.action_on as usize,
            None => false,
        };
        let time_remaining = self.get_time_remaining(now);
        let (call_amount, can_check, can_raise) = match my_seat {
            Some(seat) => {
                match &self.table.players[seat] {
                    Some(p) => {
                        let to_call = if self.table.current_bet > p.current_bet {
                            self.table.current_bet - p.current_bet
                        } else {
                            0
                        };
                        let bb_opt = matches!(self.table.phase, GamePhase::PreFlop)
                            && self.table.bb_has_option && seat
                            == self.table.big_blind_seat as usize && self.table.current_bet
                            == self.table.config.big_blind;
                        (to_call, to_call == 0 || bb_opt, p.chips > to_call && !p.is_all_in)
                    },
                    None => (0, false, false),
                }
            },
            None => (0, false, false),
        };
        TableView {
            players: views,
            community_cards: crate::eval::copy_cards(&self.table.community_cards),
            pot: self.table.pot,
            current_bet: self.table.current_bet,
            min_raise: self.table.min_raise,
            phase: self.table.phase,
            dealer_seat: self.table.dealer_seat,
            action_on: self.table.action_on,
            hand_number: self.table.hand_number,
            time_remaining,
            is_my_turn,
            call_amount,
            can_check,
            can_raise,
        }
    }

    /// The archive record of the hand that just finished, built from the
    /// stored entry; nothing when no hand has been completed.  The one-way
    /// send to the archive is the caller's.
    #[verifier::loop_isolation(false)]
    pub fn build_hand_history_record(&self) -> (r: Option<crate::history::HandHistoryRecord>)
        requires
            engine_wf(*self),
        ensures
            r is Some <==> (self.hand_history@.len() > 0 && self.table.phase is HandComplete),
            r matches Some(rec) ==> record_mirrors_entry(
                rec,
                self.hand_history@[self.hand_history@.len() - 1],
                self.table,
            ),
    {
        if !matches!(self.table.phase, GamePhase::HandComplete) {
            return None;
        }
        if self.hand_history.len() == 0 {
            return None;
        }
        let e = &self.hand_history[self.hand_history.len() - 1];
        let sp = crate::history::ShuffleProofRecord {
            seed_hash: clone_string(&e.shuffle_proof.seed_hash),
            revealed_seed: match &e.shuffle_proof.revealed_seed {
                Some(seed) => clone_string(seed),
                None => String::new(),
            },
            timestamp: e.shuffle_proof.timestamp,
        };
        let mut actions: Vec<crate::history::HistoryActionRecord> = Vec::new();
        let mut a: usize = 0;
        while a < e.actions.len()
            invariant
                a <= e.actions@.len(),
                actions@.len() == a,
                forall|m: int|
                    0 <= m < a ==> {
                        let ra = #[trigger] actions@[m];
                        ra.seat == e.actions@[m].seat && ra.action == e.actions@[m].action
                            && ra.timestamp == e.actions@[m].timestamp && ra.phase@
                            == e.actions@[m].phase@
                    },
            decreases e.actions@.len() - a,
        {
            let act = &e.actions[a];
            let principal = if (act.seat as usize) < self.table.players.len() {
                match &self.table.players[act.seat as usize] {
                    Some(p) => p.principal,
                    None => 0,
                }
            } else {
                0
            };
            actions.push(
                crate::history::HistoryActionRecord {
                    seat: act.seat,
                    principal,
                    action: act.action,
                    timestamp: act.timestamp,
                    phase: clone_string(&act.phase),
                },
            );
            a = a + 1;
        }
        let mut winners: Vec<crate::history::WinnerRecord> = Vec::new();
        let mut total_pot: u64 = 0;
        let ghost ws = e.winners@;
        proof {
            assert(ws.take(0) =~= Seq::<Winner>::empty());
        }
        let mut w: usize = 0;
        while w < e.winners.len()
            invariant
                w <= ws.len(),
                ws == e.winners@,
                winners@.len() == w,
                sum_winners(ws.take(w as int)) <= u64::MAX ==> total_pot as int == sum_winners(
                    ws.take(w as int),
                ),
                forall|m: int|
                    0 <= m < w ==> {
                        let rw = #[trigger] winners@[m];
                        rw.seat == ws[m].seat && rw.principal == ws[m].principal && rw.amount
                            == ws[m].amount
                    },
            decreases ws.len() - w,
        {
            proof {
                assert(ws.take(w + 1).drop_last() =~= ws.take(w as int));
                assert(ws.take(w + 1).last() == ws[w as int]);
                lemma_sum_winners_nonneg_engine(ws.take(w as int));
            }
            let win = &e.winners[w];
            winners.push(
                crate::history::WinnerRecord {
                    seat: win.seat,
                    principal: win.principal,
                    amount: win.amount,
                    hand_rank: match &win.hand_rank {
                        Some(h) => Some(crate::showdown::clone_rank(h)),
                        None => None,
                    },
                    pot_type: String::from_str("main"),
                },
            );
            total_pot = total_pot.saturating_add(win.amount);
            w = w + 1;
        }
        proof {
            assert(ws.take(ws.len() as int) =~= ws);
        }
        let mut players: Vec<crate::history::PlayerHandRecord> = Vec::new();
        let mut q: usize = 0;
        while q < e.showdown_players.len()
            invariant
                q <= e.showdown_players@.len(),
            decreases e.showdown_players@.len() - q,
        {
            let spd = &e.showdown_players[q];
            let current_chips = if (spd.seat as usize) < self.table.players.len() {
                match &self.table.players[spd.seat as usize] {
                    Some(p) => p.chips,
                    None => 0,
                }
            } else {
                0
            };
            let starting = match self.starting_chips.get(spd.seat as u64) {
                Some(c) => c,
                None => current_chips,
            };
            let position = if spd.seat == self.table.dealer_seat {
                String::from_str("BTN")
            } else if spd.seat == self.table.small_blind_seat {
                String::from_str("SB")
            } else if spd.seat == self.table.big_blind_seat {
                String::from_str("BB")
            } else {
                crate::currency::format_units(spd.seat as u64)
            };
            players.push(
                crate::history::PlayerHandRecord {
                    seat: spd.seat,
                    principal: spd.principal,
                    starting_chips: starting,
                    ending_chips: current_chips,
                    hole_cards: spd.cards,
                    final_hand_rank: match &spd.hand_rank {
                        Some(h) => Some(crate::showdown::clone_rank(h)),
                        None => None,
                    },
                    amount_won: spd.amount_won,
                    position,
                },
            );
            q = q + 1;
        }
        let went_to_showdown = e.showdown_players.len() > 0;
        let ncc = e.community_cards.len();
        let flop = if ncc >= 3 {
            Some((e.community_cards[0], e.community_cards[1], e.community_cards[2]))
        } else {
            None
        };
        let turn = if ncc >= 4 {
            Some(e.community_cards[3])
        } else {
            None
        };
        let river = if ncc >= 5 {
            Some(e.community_cards[4])
        } else {
            None
        };
        Some(
            crate::history::HandHistoryRecord {
                hand_id: e.hand_number,
                table_id: self.table.id,
                hand_number: e.hand_number,
                timestamp: e.shuffle_proof.timestamp,
                small_blind: self.table.config.small_blind,
                big_blind: self.table.config.big_blind,
                ante: self.table.config.ante,
                shuffle_proof: sp,
                players,
                dealer_seat: self.table.dealer_seat,
                flop,
                turn,
                river,
                actions,
                total_pot,
                rake: 0,
                winners,
                went_to_showdown,
            },
        )
    }
}

} // verus!
