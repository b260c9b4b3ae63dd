//! The hand-history archive's record types and its pure logic: shuffle
//! re-verification, per-player statistics, summaries and pagination.

use vstd::prelude::*;

use crate::cards::Card;
use crate::digest::{sha256, sha256_of};
use crate::eval::HandRank;
use crate::hex;
use crate::shuffle::eq_ignore_ascii_case;
use crate::table::GameError;

verus! {

/// One logged action of an archived hand.
#[derive(Clone, Debug)]
pub struct HistoryActionRecord {
    pub seat: u8,
    pub principal: u64,
    pub action: crate::table::PlayerAction,
    pub timestamp: u64,
    pub phase: String,
}

/// One player's part in an archived hand.
#[derive(Clone, Debug)]
pub struct PlayerHandRecord {
    pub seat: u8,
    pub principal: u64,
    pub starting_chips: u64,
    pub ending_chips: u64,
    pub hole_cards: Option<(Card, Card)>,
    pub final_hand_rank: Option<HandRank>,
    pub amount_won: u64,
    pub position: String,
}

/// The commitment of an archived hand, seed revealed.
#[derive(Clone, Debug)]
pub struct ShuffleProofRecord {
    pub seed_hash: String,
    pub revealed_seed: String,
    pub timestamp: u64,
}

/// One archived winner.
#[derive(Clone, Debug)]
pub struct WinnerRecord {
    pub seat: u8,
    pub principal: u64,
    pub amount: u64,
    pub hand_rank: Option<HandRank>,
    pub pot_type: String,
}

/// A full archived hand.
#[derive(Clone, Debug)]
pub struct HandHistoryRecord {
    pub hand_id: u64,
    pub table_id: u64,
    pub hand_number: u64,
    pub timestamp: u64,
    pub small_blind: u64,
    pub big_blind: u64,
    pub ante: u64,
    pub shuffle_proof: ShuffleProofRecord,
    pub players: Vec<PlayerHandRecord>,
    pub dealer_seat: u8,
    pub flop: Option<(Card, Card, Card)>,
    pub turn: Option<Card>,
    pub river: Option<Card>,
    pub actions: Vec<HistoryActionRecord>,
    pub total_pot: u64,
    pub rake: u64,
    pub winners: Vec<WinnerRecord>,
    pub went_to_showdown: bool,
}

/// The short form of an archived hand.
#[derive(Clone, Debug)]
pub struct HandSummary {
    pub hand_id: u64,
    pub table_id: u64,
    pub hand_number: u64,
    pub timestamp: u64,
    pub player_count: u8,
    pub total_pot: u64,
    pub went_to_showdown: bool,
}

/// Lifetime statistics of one player.
#[derive(Clone, Debug)]
pub struct PlayerStats {
    pub principal: u64,
    pub hands_played: u64,
    pub hands_won: u64,
    pub total_winnings: i64,
    pub biggest_pot_won: u64,
    pub showdowns_won: u64,
    pub showdowns_total: u64,
}

impl Default for PlayerStats {
    /// Fresh statistics: everything zero.
    fn default() -> (r: Self)
        ensures
            r.principal == 0 && r.hands_played == 0 && r.hands_won == 0 && r.total_winnings == 0
                && r.biggest_pot_won == 0 && r.showdowns_won == 0 && r.showdowns_total == 0,
    {
        PlayerStats {
            principal: 0,
            hands_played: 0,
            hands_won: 0,
            total_winnings: 0,
            biggest_pot_won: 0,
            showdowns_won: 0,
            showdowns_total: 0,
        }
    }
}

/// Checks an archived commitment: the revealed seed must be well-formed
/// hex whose SHA-256 hash, in hex, matches the committed hash.
pub fn verify_shuffle_proof(proof: &ShuffleProofRecord) -> (r: Result<bool, GameError>)
    ensures
        match hex::hex_to_bytes(proof.revealed_seed@) {
            Some(bytes) => r == Result::<bool, GameError>::Ok(
                eq_ignore_ascii_case(hex::hex_of(sha256_of(bytes)), proof.seed_hash@),
            ),
            None => r is Err,
        },
{
    let bytes = match hex::decode(proof.revealed_seed.as_str()) {
        Ok(b) => b,
        Err(_) => {
            return Err(GameError::Precondition);
        },
    };
    let digest = sha256(&bytes);
    let computed = hex::encode(&digest);
    Ok(str_eq_nocase(computed.as_str(), proof.seed_hash.as_str()))
}

/// Compares two strings up to ASCII case.
fn str_eq_nocase(a: &str, b: &str) -> (r: bool)
    ensures
        r == eq_ignore_ascii_case(a@, b@),
{
    let alen = a.unicode_len();
    let blen = b.unicode_len();
    if alen != blen {
        return false;
    }
    let mut k: usize = 0;
    while k < alen
        invariant
            alen == a@.len(),
            alen == b@.len(),
            k <= alen,
            forall|m: int|
                0 <= m < k ==> crate::shuffle::lower_code(a@[m]) == crate::shuffle::lower_code(
                    b@[m],
                ),
        decreases alen - k,
    {
        let ca = a.get_char(k) as u32;
        let cb = b.get_char(k) as u32;
        let fa = if 65 <= ca && ca <= 90 {
            ca + 32
        } else {
            ca
        };
        let fb = if 65 <= cb && cb <= 90 {
            cb + 32
        } else {
            cb
        };
        if fa != fb {
            return false;
        }
        k = k + 1;
    }
    true
}

/// Folds one hand into a player's lifetime statistics.
///
/// The hand count always rises by one; the winnings move by the chip
/// profit; a positive award counts a win and can set a new biggest pot; a
/// shown hand at showdown counts a showdown, won when something was won.
/// The counters hold at their bounds instead of wrapping.
pub fn update_player_stats(stats: &mut PlayerStats, player: &PlayerHandRecord, went_to_showdown: bool)
    requires
        player.starting_chips <= i64::MAX as u64,
        player.ending_chips <= i64::MAX as u64,
    ensures
        old(stats).hands_played < u64::MAX ==> final(stats).hands_played == old(stats).hands_played + 1,
        ({
            let profit = player.ending_chips as int - player.starting_chips as int;
            (i64::MIN <= old(stats).total_winnings + profit <= i64::MAX) ==> final(stats).total_winnings == old(stats).total_winnings + profit
        }),
        player.amount_won > 0 && old(stats).hands_won < u64::MAX ==> final(stats).hands_won == old(stats).hands_won + 1,
        player.amount_won == 0 ==> final(stats).hands_won == old(stats).hands_won,
        final(stats).biggest_pot_won == (
        if player.amount_won > old(stats).biggest_pot_won {
            player.amount_won
        } else {
            old(stats).biggest_pot_won
        }),
        (went_to_showdown && player.hole_cards is Some && old(stats).showdowns_total < u64::MAX)
            ==> final(stats).showdowns_total == old(stats).showdowns_total + 1,
        !(went_to_showdown && player.hole_cards is Some) ==> final(stats).showdowns_total == old(stats).showdowns_total && final(stats).showdowns_won == old(stats).showdowns_won,
        final(stats).principal == old(stats).principal,
{
    stats.hands_played = stats.hands_played.saturating_add(1);
    let ending = player.ending_chips as i64;
    let starting = player.starting_chips as i64;
    let profit = ending - starting;
    stats.total_winnings = add_winnings(stats.total_winnings, profit);
    if player.amount_won > 0 {
        stats.hands_won = stats.hands_won.saturating_add(1);
        if player.amount_won > stats.biggest_pot_won {
            stats.biggest_pot_won = player.amount_won;
        }
    }
    if went_to_showdown && player.hole_cards.is_some() {
        stats.showdowns_total = stats.showdowns_total.saturating_add(1);
        if player.amount_won > 0 {
            stats.showdowns_won = stats.showdowns_won.saturating_add(1);
        }
    }
}

/// Signed addition that holds at the numeric bounds.
pub fn add_winnings(a: i64, b: i64) -> (r: i64)
    ensures
        (i64::MIN <= a + b <= i64::MAX) ==> r == a + b,
{
    if b >= 0 {
        if a <= i64::MAX - b {
            a + b
        } else {
            i64::MAX
        }
    } else {
        if a >= i64::MIN - b {
            a + b
        } else {
            i64::MIN
        }
    }
}

/// Builds a hand's short form from its parts.
pub fn create_hand_summary(
    hand_id: u64,
    hand_number: u64,
    timestamp: u64,
    players: &Vec<PlayerHandRecord>,
    total_pot: u64,
    went_to_showdown: bool,
) -> (r: HandSummary)
    requires
        players@.len() <= 255,
    ensures
        r.hand_id == hand_id,
        r.hand_number == hand_number,
        r.timestamp == timestamp,
        r.player_count == players@.len(),
        r.total_pot == total_pot,
        r.went_to_showdown == went_to_showdown,
{
    HandSummary {
        hand_id,
        table_id: 0,
        hand_number,
        timestamp,
        player_count: players.len() as u8,
        total_pot,
        went_to_showdown,
    }
}

/// The short form of an archived hand.
pub fn to_summary(hand: &HandHistoryRecord) -> (r: HandSummary)
    requires
        hand.players@.len() <= 255,
    ensures
        r.hand_id == hand.hand_id,
        r.table_id == hand.table_id,
        r.hand_number == hand.hand_number,
        r.timestamp == hand.timestamp,
        r.player_count == hand.players@.len(),
        r.total_pot == hand.total_pot,
        r.went_to_showdown == hand.went_to_showdown,
{
    HandSummary {
        hand_id: hand.hand_id,
        table_id: hand.table_id,
        hand_number: hand.hand_number,
        timestamp: hand.timestamp,
        player_count: hand.players.len() as u8,
        total_pot: hand.total_pot,
        went_to_showdown: hand.went_to_showdown,
    }
}

/// A page of the newest items: walks the list backwards, skipping
/// `offset` items and yielding at most `limit`.
pub fn paginate<T: Copy>(items: &Vec<T>, offset: usize, limit: usize) -> (r: Vec<T>)
    ensures
        r@.len() == (
        if offset >= items@.len() {
            0int
        } else if items@.len() - offset < limit as int {
            items@.len() - offset
        } else {
            limit as int
        }),
        forall|k: int|
            0 <= k < r@.len() ==> #[trigger] r@[k] == items@[items@.len() - 1 - offset - k],
{
    let mut out: Vec<T> = Vec::new();
    let n = items.len();
    if offset >= n {
        return out;
    }
    let mut k: usize = 0;
    let avail = n - offset;
    let want = if avail < limit {
        avail
    } else {
        limit
    };
    while k < want
        invariant
            offset < n == items@.len(),
            want as int == (
            if items@.len() - offset < limit as int {
                items@.len() - offset
            } else {
                limit as int
            }),
            k <= want,
            out@.len() == k,
            forall|m: int|
                0 <= m < k ==> #[trigger] out@[m] == items@[items@.len() - 1 - offset - m],
        decreases want - k,
    {
        out.push(items[n - 1 - offset - k]);
        k = k + 1;
    }
    out
}

} // verus!
