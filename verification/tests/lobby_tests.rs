// Stake bands, usernames, table filters, the leaderboard and statuses.

use holdem::currency::Currency;
use holdem::lobby::{
    filter_available_tables, filter_tables_by_stake, get_leaderboard, get_stake_level,
    should_update_table_status, update_player_stats, validate_username, PlayerProfile, StakeLevel,
    TableInfo, TableStatus,
};
use holdem::table::TableConfig;

#[test]
fn test_stake_level_micro() {
    assert_eq!(get_stake_level(1), StakeLevel::Micro);
    assert_eq!(get_stake_level(5), StakeLevel::Micro);
    assert_eq!(get_stake_level(9), StakeLevel::Micro);
}

#[test]
fn test_stake_level_low() {
    assert_eq!(get_stake_level(10), StakeLevel::Low);
    assert_eq!(get_stake_level(20), StakeLevel::Low);
    assert_eq!(get_stake_level(49), StakeLevel::Low);
}

#[test]
fn test_stake_level_medium() {
    assert_eq!(get_stake_level(50), StakeLevel::Medium);
    assert_eq!(get_stake_level(100), StakeLevel::Medium);
    assert_eq!(get_stake_level(199), StakeLevel::Medium);
}

#[test]
fn test_stake_level_high() {
    assert_eq!(get_stake_level(200), StakeLevel::High);
    assert_eq!(get_stake_level(500), StakeLevel::High);
    assert_eq!(get_stake_level(999), StakeLevel::High);
}

#[test]
fn test_stake_level_vip() {
    assert_eq!(get_stake_level(1000), StakeLevel::VIP);
    assert_eq!(get_stake_level(5000), StakeLevel::VIP);
    assert_eq!(get_stake_level(10000), StakeLevel::VIP);
}

#[test]
fn test_valid_username() {
    assert!(validate_username("abc").is_ok());
    assert!(validate_username("player123").is_ok());
    assert!(validate_username("a".repeat(20).as_str()).is_ok());
}

#[test]
fn test_username_too_short() {
    assert!(validate_username("").is_err());
    assert!(validate_username("a").is_err());
    assert!(validate_username("ab").is_err());
}

#[test]
fn test_username_too_long() {
    assert!(validate_username("a".repeat(21).as_str()).is_err());
    assert!(validate_username("a".repeat(100).as_str()).is_err());
}

#[test]
fn test_username_reserved_word_refused() {
    assert!(validate_username("admin").is_err());
    assert!(validate_username("TheDealer").is_err());
    assert!(validate_username("pokerbot").is_err());
}

fn config(small_blind: u64, big_blind: u64, min_buy_in: u64, max_buy_in: u64, max_players: u8) -> TableConfig {
    TableConfig {
        small_blind,
        big_blind,
        min_buy_in,
        max_buy_in,
        max_players,
        ante: 0,
        action_timeout_secs: 30,
        time_bank_secs: 30,
        currency: Currency::ICP,
    }
}

fn create_test_tables() -> Vec<TableInfo> {
    vec![
        TableInfo {
            id: 1,
            canister_id: None,
            config: config(5, 10, 200, 1000, 6),
            name: "Low Stakes".to_string(),
            player_count: 3,
            status: TableStatus::InProgress,
            created_at: 0,
            created_by: 0,
            currency: Currency::ICP,
        },
        TableInfo {
            id: 2,
            canister_id: None,
            config: config(50, 100, 2000, 10000, 6),
            name: "Medium Stakes".to_string(),
            player_count: 2,
            status: TableStatus::InProgress,
            created_at: 0,
            created_by: 0,
            currency: Currency::ICP,
        },
        TableInfo {
            id: 3,
            canister_id: None,
            config: config(500, 1000, 20000, 100000, 6),
            name: "VIP Stakes".to_string(),
            player_count: 0,
            status: TableStatus::WaitingForPlayers,
            created_at: 0,
            created_by: 0,
            currency: Currency::ICP,
        },
        TableInfo {
            id: 4,
            canister_id: None,
            config: config(5, 10, 200, 1000, 2),
            name: "Closed Table".to_string(),
            player_count: 0,
            status: TableStatus::Closed,
            created_at: 0,
            created_by: 0,
            currency: Currency::ICP,
        },
    ]
}

#[test]
fn test_filter_tables_by_stake_low() {
    let tables = create_test_tables();
    let filtered = filter_tables_by_stake(&tables, StakeLevel::Low);
    assert_eq!(filtered.len(), 1);
    assert_eq!(filtered[0].id, 1);
}

#[test]
fn test_filter_tables_by_stake_medium() {
    let tables = create_test_tables();
    let filtered = filter_tables_by_stake(&tables, StakeLevel::Medium);
    assert_eq!(filtered.len(), 1);
    assert_eq!(filtered[0].id, 2);
}

#[test]
fn test_filter_tables_by_stake_vip() {
    let tables = create_test_tables();
    let filtered = filter_tables_by_stake(&tables, StakeLevel::VIP);
    assert_eq!(filtered.len(), 1);
    assert_eq!(filtered[0].id, 3);
}

#[test]
fn test_filter_tables_excludes_closed() {
    let tables = create_test_tables();
    let filtered = filter_tables_by_stake(&tables, StakeLevel::Low);
    assert!(!filtered.iter().any(|t| t.id == 4));
}

#[test]
fn test_filter_available_tables() {
    let tables = create_test_tables();
    let filtered = filter_available_tables(&tables);
    assert!(filtered.iter().any(|t| t.id == 1));
    assert!(filtered.iter().any(|t| t.id == 2));
    assert!(filtered.iter().any(|t| t.id == 3));
    assert!(!filtered.iter().any(|t| t.id == 4));
}

#[test]
fn test_filter_available_excludes_full_tables() {
    let mut tables = create_test_tables();
    tables[0].player_count = 6;
    tables[0].status = TableStatus::InProgress;
    let filtered = filter_available_tables(&tables);
    assert!(!filtered.iter().any(|t| t.id == 1));
}

fn create_test_players() -> Vec<PlayerProfile> {
    vec![
        PlayerProfile {
            principal: 1,
            username: "Alice".to_string(),
            total_winnings: 5000,
            hands_played: 100,
            created_at: 0,
        },
        PlayerProfile {
            principal: 2,
            username: "Bob".to_string(),
            total_winnings: -1000,
            hands_played: 50,
            created_at: 0,
        },
        PlayerProfile {
            principal: 3,
            username: "Charlie".to_string(),
            total_winnings: 10000,
            hands_played: 200,
            created_at: 0,
        },
        PlayerProfile {
            principal: 4,
            username: "Diana".to_string(),
            total_winnings: 2500,
            hands_played: 75,
            created_at: 0,
        },
    ]
}

#[test]
fn test_leaderboard_sorted_by_winnings() {
    let players = create_test_players();
    let leaderboard = get_leaderboard(&players, 10);
    assert_eq!(leaderboard[0].username, "Charlie");
    assert_eq!(leaderboard[1].username, "Alice");
    assert_eq!(leaderboard[2].username, "Diana");
    assert_eq!(leaderboard[3].username, "Bob");
}

#[test]
fn test_leaderboard_respects_limit() {
    let players = create_test_players();
    let leaderboard = get_leaderboard(&players, 2);
    assert_eq!(leaderboard.len(), 2);
    assert_eq!(leaderboard[0].username, "Charlie");
    assert_eq!(leaderboard[1].username, "Alice");
}

#[test]
fn test_leaderboard_empty_players() {
    let players: Vec<PlayerProfile> = vec![];
    let leaderboard = get_leaderboard(&players, 10);
    assert!(leaderboard.is_empty());
}

#[test]
fn test_update_player_stats_positive_winnings() {
    let mut profile = PlayerProfile {
        principal: 9,
        username: "Test".to_string(),
        total_winnings: 1000,
        hands_played: 50,
        created_at: 0,
    };
    update_player_stats(&mut profile, 500, 10);
    assert_eq!(profile.total_winnings, 1500);
    assert_eq!(profile.hands_played, 60);
}

#[test]
fn test_update_player_stats_negative_winnings() {
    let mut profile = PlayerProfile {
        principal: 9,
        username: "Test".to_string(),
        total_winnings: 1000,
        hands_played: 50,
        created_at: 0,
    };
    update_player_stats(&mut profile, -750, 5);
    assert_eq!(profile.total_winnings, 250);
    assert_eq!(profile.hands_played, 55);
}

#[test]
fn test_update_player_stats_can_go_negative() {
    let mut profile = PlayerProfile {
        principal: 9,
        username: "Test".to_string(),
        total_winnings: 500,
        hands_played: 50,
        created_at: 0,
    };
    update_player_stats(&mut profile, -1000, 10);
    assert_eq!(profile.total_winnings, -500);
    assert_eq!(profile.hands_played, 60);
}

#[test]
fn test_table_status_waiting_with_no_players() {
    assert_eq!(should_update_table_status(0), TableStatus::WaitingForPlayers);
}

#[test]
fn test_table_status_waiting_with_one_player() {
    assert_eq!(should_update_table_status(1), TableStatus::WaitingForPlayers);
}

#[test]
fn test_table_status_in_progress_with_two_players() {
    assert_eq!(should_update_table_status(2), TableStatus::InProgress);
}

#[test]
fn test_table_status_in_progress_with_many_players() {
    assert_eq!(should_update_table_status(6), TableStatus::InProgress);
}

#[test]
fn test_authorization_list_contains() {
    let authorized: Vec<u64> = vec![1, 2, 3, 4, 5];
    assert!(authorized.contains(&3));
    assert!(!authorized.contains(&10));
}

#[test]
fn test_authorization_list_add() {
    let mut authorized: Vec<u64> = vec![1, 2, 3];
    if !authorized.contains(&4) {
        authorized.push(4);
    }
    assert!(authorized.contains(&4));
    assert_eq!(authorized.len(), 4);
}

#[test]
fn test_authorization_list_remove() {
    let mut authorized: Vec<u64> = vec![1, 2, 3, 4, 5];
    authorized.retain(|&x| x != 3);
    assert!(!authorized.contains(&3));
    assert_eq!(authorized.len(), 4);
}

#[test]
fn test_authorization_no_duplicates() {
    let mut authorized: Vec<u64> = vec![1, 2, 3];
    if !authorized.contains(&2) {
        authorized.push(2);
    }
    assert_eq!(authorized.len(), 3);
}

#[test]
fn test_format_amount_icp() {
    assert_eq!(Currency::ICP.format_amount(200_000_000), "2.0000 ICP");
    assert_eq!(Currency::ICP.format_amount(123_456_789), "1.2346 ICP");
    assert_eq!(Currency::ICP.format_amount(0), "0.0000 ICP");
}

#[test]
fn test_format_amount_btc() {
    assert_eq!(Currency::BTC.format_amount(50_000), "50000 sats");
    assert_eq!(Currency::BTC.format_amount(100_000), "0.0010 BTC");
    assert_eq!(Currency::BTC.format_amount(150_000_000), "1.5000 BTC");
}
