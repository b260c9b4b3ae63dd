//! The lobby's catalog logic: stake levels, table filters, player
//! profiles, the leaderboard, and username rules.

use vstd::prelude::*;

use crate::currency::Currency;
use crate::table::{GameError, TableConfig};

verus! {

/// Coarse stake bands by big blind.
#[derive(Clone, Copy, Debug, PartialEq, Eq, Structural)]
pub enum StakeLevel {
    Micro,
    Low,
    Medium,
    High,
    VIP,
}

/// A lobby entry's lifecycle.
#[derive(Clone, Copy, Debug, PartialEq, Eq, Structural)]
pub enum TableStatus {
    WaitingForPlayers,
    InProgress,
    Paused,
    Closed,
}

/// One table as the lobby lists it.  `canister_id` and `created_by` are
/// numeric identities of the table instance and its creator.
#[derive(Clone, Debug)]
pub struct TableInfo {
    pub id: u64,
    pub canister_id: Option<u64>,
    pub config: TableConfig,
    pub name: String,
    pub player_count: u8,
    pub status: TableStatus,
    pub created_at: u64,
    pub created_by: u64,
    pub currency: Currency,
}

/// One registered player.
#[derive(Clone, Debug)]
pub struct PlayerProfile {
    pub principal: u64,
    pub username: String,
    pub total_winnings: i64,
    pub hands_played: u64,
    pub created_at: u64,
}

/// The stake band a big blind falls into.
pub open spec fn spec_stake_level(big_blind: u64) -> StakeLevel {
    if big_blind < 10 {
        StakeLevel::Micro
    } else if big_blind < 50 {
        StakeLevel::Low
    } else if big_blind < 200 {
        StakeLevel::Medium
    } else if big_blind < 1000 {
        StakeLevel::High
    } else {
        StakeLevel::VIP
    }
}

/// Buckets a big blind into its stake band.
pub fn get_stake_level(big_blind: u64) -> (r: StakeLevel)
    ensures
        r == spec_stake_level(big_blind),
{
    if big_blind < 10 {
        StakeLevel::Micro
    } else if big_blind < 50 {
        StakeLevel::Low
    } else if big_blind < 200 {
        StakeLevel::Medium
    } else if big_blind < 1000 {
        StakeLevel::High
    } else {
        StakeLevel::VIP
    }
}

/// The big-blind range of a stake band, upper end exclusive.
pub open spec fn stake_range(stake: StakeLevel) -> (int, int) {
    match stake {
        StakeLevel::Micro => (1, 10),
        StakeLevel::Low => (10, 50),
        StakeLevel::Medium => (50, 200),
        StakeLevel::High => (200, 1000),
        StakeLevel::VIP => (1000, u64::MAX as int + 1),
    }
}

/// The table shows in the listing for a stake band.
pub open spec fn in_stake_band(t: TableInfo, stake: StakeLevel) -> bool {
    &&& !(t.status is Closed)
    &&& stake_range(stake).0 <= t.config.big_blind as int
    &&& (t.config.big_blind as int) < stake_range(stake).1
}

/// The table has a free seat and is open.
pub open spec fn has_free_seat(t: TableInfo) -> bool {
    !(t.status is Closed) && t.player_count < t.config.max_players
}

/// A character allowed in a username.
pub open spec fn username_char_ok(c: char) -> bool {
    ('a' <= c && c <= 'z') || ('A' <= c && c <= 'Z') || ('0' <= c && c <= '9') || c == '_'
}

/// The username's shape is acceptable: 3 to 20 characters, ASCII letters,
/// digits and underscores, starting with a letter.  (Reserved names are
/// checked separately.)
pub open spec fn username_shape_ok(s: Seq<char>) -> bool {
    &&& 3 <= s.len() <= 20
    &&& (forall|k: int| 0 <= k < s.len() ==> username_char_ok(#[trigger] s[k]))
    &&& (('a' <= s[0] && s[0] <= 'z') || ('A' <= s[0] && s[0] <= 'Z'))
}

/// Checks a username's length, characters and first letter.
///
/// Names carrying a reserved word are also refused; the reserved list is
/// matched against the lowercase form.
#[verifier::loop_isolation(false)]
pub fn validate_username(username: &str) -> (r: Result<(), GameError>)
    ensures
        r is Ok ==> username_shape_ok(username@),
        !username_shape_ok(username@) ==> r is Err,
{
    let len = username.unicode_len();
    if len < 3 {
        return Err(GameError::Precondition);
    }
    if len > 20 {
        return Err(GameError::Precondition);
    }
    let mut lowered: Vec<u8> = Vec::new();
    let mut k: usize = 0;
    while k < len
        invariant
            len == username@.len(),
            3 <= len <= 20,
            k <= len,
            forall|m: int| 0 <= m < k ==> username_char_ok(#[trigger] username@[m]),
            k >= 1 ==> (('a' <= username@[0] && username@[0] <= 'z') || ('A' <= username@[0]
                && username@[0] <= 'Z')),
        decreases len - k,
    {
        let c = username.get_char(k);
        let v = c as u32;
        let is_lower = 97 <= v && v <= 122;
        let is_upper = 65 <= v && v <= 90;
        let is_digit = 48 <= v && v <= 57;
        let is_underscore = v == 95;
        if !(is_lower || is_upper || is_digit || is_underscore) {
            proof {
                assert(!username_char_ok(username@[k as int]));
            }
            return Err(GameError::Precondition);
        }
        if k == 0 && !(is_lower || is_upper) {
            return Err(GameError::Precondition);
        }
        proof {
            assert(username_char_ok(username@[k as int]));
        }
        let folded: u8 = if is_upper {
            (v + 32) as u8
        } else {
            v as u8
        };
        lowered.push(folded);
        k = k + 1;
    }
    // Reserved words may not appear anywhere in the name.
    if contains_word(&lowered, &[97, 100, 109, 105, 110])  // admin
        || contains_word(&lowered, &[109, 111, 100])  // mod
        || contains_word(&lowered, &[115, 121, 115, 116, 101, 109])  // system
        || contains_word(&lowered, &[115, 117, 112, 112, 111, 114, 116])  // support
        || contains_word(&lowered, &[104, 101, 108, 112])  // help
        || contains_word(&lowered, &[111, 102, 102, 105, 99, 105, 97, 108])  // official
        || contains_word(&lowered, &[115, 116, 97, 102, 102])  // staff
        || contains_word(&lowered, &[98, 111, 116])  // bot
        || contains_word(&lowered, &[100, 101, 97, 108, 101, 114])  // dealer
        || contains_word(&lowered, &[104, 111, 117, 115, 101])  // house
    {
        return Err(GameError::Precondition);
    }
    Ok(())
}

/// Does the needle occur anywhere in the haystack?
#[verifier::loop_isolation(false)]
fn contains_word(haystack: &Vec<u8>, needle: &[u8]) -> (r: bool)
{
    let hn = haystack.len();
    let nn = needle.len();
    if nn == 0 || nn > hn {
        return false;
    }
    let mut i: usize = 0;
    while i <= hn - nn
        invariant
            nn >= 1,
            nn <= hn == haystack@.len(),
            nn == needle@.len(),
            i <= hn - nn + 1,
        decreases hn - nn - i + 1,
    {
        let mut j: usize = 0;
        let mut matched = true;
        while j < nn
            invariant
                nn <= hn == haystack@.len(),
                nn == needle@.len(),
                i <= hn - nn,
                j <= nn,
            decreases nn - j,
        {
            if haystack[i + j] != needle[j] {
                matched = false;
                break ;
            }
            j = j + 1;
        }
        if matched && j == nn {
            return true;
        }
        i = i + 1;
    }
    false
}

/// The two entries list the same table.
pub open spec fn same_table(a: TableInfo, b: TableInfo) -> bool {
    &&& a.id == b.id
    &&& a.canister_id == b.canister_id
    &&& a.config == b.config
    &&& a.name@ == b.name@
    &&& a.player_count == b.player_count
    &&& a.status == b.status
    &&& a.created_at == b.created_at
    &&& a.created_by == b.created_by
    &&& a.currency == b.currency
}

/// Copies a lobby entry.
pub fn clone_table_info(t: &TableInfo) -> (r: TableInfo)
    ensures
        same_table(r, *t),
{
    TableInfo {
        id: t.id,
        canister_id: t.canister_id,
        config: t.config,
        name: crate::engine::clone_string(&t.name),
        player_count: t.player_count,
        status: t.status,
        created_at: t.created_at,
        created_by: t.created_by,
        currency: t.currency,
    }
}

/// The two profiles describe the same player state.
pub open spec fn same_profile(a: PlayerProfile, b: PlayerProfile) -> bool {
    &&& a.principal == b.principal
    &&& a.username@ == b.username@
    &&& a.total_winnings == b.total_winnings
    &&& a.hands_played == b.hands_played
    &&& a.created_at == b.created_at
}

/// Copies a profile.
pub fn clone_profile(p: &PlayerProfile) -> (r: PlayerProfile)
    ensures
        same_profile(r, *p),
{
    PlayerProfile {
        principal: p.principal,
        username: crate::engine::clone_string(&p.username),
        total_winnings: p.total_winnings,
        hands_played: p.hands_played,
        created_at: p.created_at,
    }
}

/// The open tables in a stake band.
#[verifier::loop_isolation(false)]
pub fn filter_tables_by_stake(tables: &Vec<TableInfo>, stake: StakeLevel) -> (r: Vec<TableInfo>)
    ensures
        forall|k: int| 0 <= k < r@.len() ==> in_stake_band(#[trigger] r@[k], stake),
        forall|k: int|
            0 <= k < tables@.len() && in_stake_band(#[trigger] tables@[k], stake) ==> exists|j: int|
                0 <= j < r@.len() && same_table(#[trigger] r@[j], tables@[k]),
{
    let (lo, hi_opt): (u64, Option<u64>) = match stake {
        StakeLevel::Micro => (1, Some(10)),
        StakeLevel::Low => (10, Some(50)),
        StakeLevel::Medium => (50, Some(200)),
        StakeLevel::High => (200, Some(1000)),
        StakeLevel::VIP => (1000, None),
    };
    let mut out: Vec<TableInfo> = Vec::new();
    let mut i: usize = 0;
    while i < tables.len()
        invariant
            i <= tables@.len(),
            forall|k: int| 0 <= k < out@.len() ==> in_stake_band(#[trigger] out@[k], stake),
            forall|k: int|
                0 <= k < i && in_stake_band(#[trigger] tables@[k], stake) ==> exists|j: int|
                    0 <= j < out@.len() && same_table(#[trigger] out@[j], tables@[k]),
        decreases tables@.len() - i,
    {
        let t = &tables[i];
        let bb = t.config.big_blind;
        let band_ok = bb >= lo && match hi_opt {
            Some(hi) => bb < hi,
            None => true,
        };
        let ghost before = out@;
        if band_ok && !matches!(t.status, TableStatus::Closed) {
            let copy = clone_table_info(t);
            out.push(copy);
            proof {
                assert(out@.drop_last() =~= before);
                assert(same_table(out@[out@.len() - 1], tables@[i as int]));
            }
        }
        proof {
            assert forall|k: int|
                0 <= k < i + 1 && in_stake_band(#[trigger] tables@[k], stake) implies exists|j: int|
                0 <= j < out@.len() && same_table(#[trigger] out@[j], tables@[k]) by {
                if k < i {
                    let m = choose|m: int|
                        0 <= m < before.len() && same_table(#[trigger] before[m], tables@[k]);
                    assert(same_table(out@[m], tables@[k]));
                } else {
                    assert(same_table(out@[out@.len() - 1], tables@[k]));
                }
            }
        }
        i = i + 1;
    }
    out
}

/// The open tables with a free seat.
#[verifier::loop_isolation(false)]
pub fn filter_available_tables(tables: &Vec<TableInfo>) -> (r: Vec<TableInfo>)
    ensures
        forall|k: int| 0 <= k < r@.len() ==> has_free_seat(#[trigger] r@[k]),
        forall|k: int|
            0 <= k < tables@.len() && has_free_seat(#[trigger] tables@[k]) ==> exists|j: int|
                0 <= j < r@.len() && same_table(#[trigger] r@[j], tables@[k]),
{
    let mut out: Vec<TableInfo> = Vec::new();
    let mut i: usize = 0;
    while i < tables.len()
        invariant
            i <= tables@.len(),
            forall|k: int| 0 <= k < out@.len() ==> has_free_seat(#[trigger] out@[k]),
            forall|k: int|
                0 <= k < i && has_free_seat(#[trigger] tables@[k]) ==> exists|j: int|
                    0 <= j < out@.len() && same_table(#[trigger] out@[j], tables@[k]),
        decreases tables@.len() - i,
    {
        let t = &tables[i];
        let ghost before = out@;
        if !matches!(t.status, TableStatus::Closed) && t.player_count < t.config.max_players {
            let copy = clone_table_info(t);
            out.push(copy);
            proof {
                assert(out@.drop_last() =~= before);
                assert(same_table(out@[out@.len() - 1], tables@[i as int]));
            }
        }
        proof {
            assert forall|k: int|
                0 <= k < i + 1 && has_free_seat(#[trigger] tables@[k]) implies exists|j: int|
                0 <= j < out@.len() && same_table(#[trigger] out@[j], tables@[k]) by {
                if k < i {
                    let m = choose|m: int|
                        0 <= m < before.len() && same_table(#[trigger] before[m], tables@[k]);
                    assert(same_table(out@[m], tables@[k]));
                } else {
                    assert(same_table(out@[out@.len() - 1], tables@[k]));
                }
            }
        }
        i = i + 1;
    }
    out
}

/// Profiles in falling order of winnings.
pub open spec fn sorted_by_winnings(s: Seq<PlayerProfile>) -> bool {
    forall|i: int, j: int|
        0 <= i < j < s.len() ==> (#[trigger] s[i]).total_winnings >= (#[trigger] s[j]).total_winnings
}

/// The top players by lifetime winnings, at most `limit` of them.
#[verifier::loop_isolation(false)]
pub fn get_leaderboard(players: &Vec<PlayerProfile>, limit: usize) -> (r: Vec<PlayerProfile>)
    ensures
        sorted_by_winnings(r@),
        r@.len() == (
        if players@.len() < limit as int {
            players@.len() as int
        } else {
            limit as int
        }),
{
    let mut sorted: Vec<PlayerProfile> = Vec::new();
    let mut i: usize = 0;
    while i < players.len()
        invariant
            i <= players@.len(),
            sorted@.len() == i,
            sorted_by_winnings(sorted@),
        decreases players@.len() - i,
    {
        let p = clone_profile(&players[i]);
        // Insert before the first entry with smaller winnings.
        let mut idx: usize = 0;
        while idx < sorted.len() && sorted[idx].total_winnings >= p.total_winnings
            invariant
                idx <= sorted@.len(),
                forall|m: int|
                    0 <= m < idx ==> (#[trigger] sorted@[m]).total_winnings >= p.total_winnings,
            decreases sorted@.len() - idx,
        {
            idx = idx + 1;
        }
        let ghost before = sorted@;
        let ghost pv = p;
        sorted.insert(idx, p);
        proof {
            before.insert_ensures(idx as int, pv);
            assert forall|a: int, b: int|
                0 <= a < b < sorted@.len() implies (#[trigger] sorted@[a]).total_winnings >= (
            #[trigger] sorted@[b]).total_winnings by {
                let ix = idx as int;
                if b < ix {
                    assert(sorted@[a] == before[a] && sorted@[b] == before[b]);
                } else if b == ix {
                    assert(sorted@[a] == before[a]);
                } else if a < ix {
                    assert(sorted@[a] == before[a] && sorted@[b] == before[b - 1]);
                    if b - 1 >= ix {
                        assert(before[b - 1].total_winnings < pv.total_winnings || ix
                            > before.len() - 1);
                    }
                } else if a == ix {
                    assert(sorted@[b] == before[b - 1]);
                } else {
                    assert(sorted@[a] == before[a - 1] && sorted@[b] == before[b - 1]);
                }
            }
        }
        i = i + 1;
    }
    // Keep only the head of the list.
    let want = if players.len() < limit {
        players.len()
    } else {
        limit
    };
    let mut out: Vec<PlayerProfile> = Vec::new();
    let mut k: usize = 0;
    while k < want
        invariant
            want <= sorted@.len(),
            k <= want,
            out@.len() == k,
            sorted_by_winnings(sorted@),
            forall|a: int, b: int|
                0 <= a < b < out@.len() ==> (#[trigger] out@[a]).total_winnings >= (
                #[trigger] out@[b]).total_winnings,
            forall|m: int|
                0 <= m < k ==> (#[trigger] out@[m]).total_winnings == sorted@[m].total_winnings,
        decreases want - k,
    {
        let p = clone_profile(&sorted[k]);
        out.push(p);
        k = k + 1;
    }
    out
}

/// Adds a hand's outcome to a profile, holding at the numeric bounds.
pub fn update_player_stats(profile: &mut PlayerProfile, winnings: i64, hands: u64)
    ensures
        (i64::MIN <= old(profile).total_winnings + winnings <= i64::MAX) ==> final(profile).total_winnings == old(profile).total_winnings + winnings,
        (old(profile).hands_played + hands <= u64::MAX) ==> final(profile).hands_played == old(
            profile,
        ).hands_played + hands,
        final(profile).principal == old(profile).principal,
        final(profile).username == old(profile).username,
{
    profile.total_winnings = crate::history::add_winnings(profile.total_winnings, winnings);
    profile.hands_played = profile.hands_played.saturating_add(hands);
}

/// The lobby status a seat count implies.
pub fn should_update_table_status(player_count: u8) -> (r: TableStatus)
    ensures
        player_count >= 2 ==> r is InProgress,
        player_count < 2 ==> r is WaitingForPlayers,
{
    if player_count >= 2 {
        TableStatus::InProgress
    } else {
        TableStatus::WaitingForPlayers
    }
}

} // verus!
