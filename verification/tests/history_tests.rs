// Hex round trips, shuffle-proof verification, statistics and paging.

use holdem::cards::{Card, Rank, Suit};
use holdem::eval::HandRank;
use holdem::hex;
use holdem::history::{
    create_hand_summary, paginate, update_player_stats, verify_shuffle_proof, PlayerHandRecord,
    PlayerStats, ShuffleProofRecord,
};
use sha2::{Digest, Sha256};
use std::collections::BTreeMap;

fn card(rank: Rank, suit: Suit) -> Card {
    Card { suit, rank }
}

#[test]
fn test_hex_encode() {
    let bytes = vec![0x00, 0x01, 0x0f, 0xff];
    assert_eq!(hex::encode(&bytes), "00010fff");
}

#[test]
fn test_hex_decode() {
    let hex_str = "00010fff";
    let result = hex::decode(hex_str).unwrap();
    assert_eq!(result, vec![0x00, 0x01, 0x0f, 0xff]);
}

#[test]
fn test_hex_decode_odd_length() {
    let hex_str = "00010ff";
    assert!(hex::decode(hex_str).is_err());
}

#[test]
fn test_hex_decode_invalid_chars() {
    let hex_str = "gggg";
    assert!(hex::decode(hex_str).is_err());
}

#[test]
fn test_hex_roundtrip() {
    let original = vec![1, 2, 3, 4, 5, 255, 128, 0];
    let encoded = hex::encode(&original);
    let decoded = hex::decode(encoded.as_str()).unwrap();
    assert_eq!(original, decoded);
}

#[test]
fn test_verify_valid_shuffle_proof() {
    let seed = vec![1u8, 2, 3, 4, 5, 6, 7, 8, 9, 10, 11, 12, 13, 14, 15, 16];
    let revealed_seed = hex::encode(&seed);
    let mut hasher = Sha256::new();
    hasher.update(&seed);
    let seed_hash = hex::encode(&hasher.finalize().to_vec());
    let proof = ShuffleProofRecord { seed_hash, revealed_seed, timestamp: 1234567890 };
    let result = verify_shuffle_proof(&proof);
    assert!(result.is_ok());
    assert!(result.unwrap());
}

#[test]
fn test_verify_invalid_shuffle_proof() {
    let proof = ShuffleProofRecord {
        seed_hash: "aaaa".repeat(16),
        revealed_seed: hex::encode(&vec![1, 2, 3, 4]),
        timestamp: 1234567890,
    };
    let result = verify_shuffle_proof(&proof);
    assert!(result.is_ok());
    assert!(!result.unwrap());
}

#[test]
fn test_verify_shuffle_proof_invalid_hex() {
    let proof = ShuffleProofRecord {
        seed_hash: "abcdef".to_string(),
        revealed_seed: "gggg".to_string(),
        timestamp: 1234567890,
    };
    let result = verify_shuffle_proof(&proof);
    assert!(result.is_err());
}

fn stats_default() -> PlayerStats {
    PlayerStats::default()
}

#[test]
fn test_update_stats_winning_hand() {
    let mut stats = stats_default();
    let player = PlayerHandRecord {
        seat: 0,
        principal: 0,
        starting_chips: 1000,
        ending_chips: 1500,
        hole_cards: Some((card(Rank::Ace, Suit::Hearts), card(Rank::King, Suit::Hearts))),
        final_hand_rank: Some(HandRank::Pair(14, vec![13, 12, 11])),
        amount_won: 500,
        position: String::new(),
    };
    update_player_stats(&mut stats, &player, true);
    assert_eq!(stats.hands_played, 1);
    assert_eq!(stats.hands_won, 1);
    assert_eq!(stats.total_winnings, 500);
    assert_eq!(stats.biggest_pot_won, 500);
    assert_eq!(stats.showdowns_total, 1);
    assert_eq!(stats.showdowns_won, 1);
}

#[test]
fn test_update_stats_losing_hand() {
    let mut stats = stats_default();
    let player = PlayerHandRecord {
        seat: 0,
        principal: 0,
        starting_chips: 1000,
        ending_chips: 700,
        hole_cards: Some((card(Rank::Two, Suit::Hearts), card(Rank::Three, Suit::Hearts))),
        final_hand_rank: Some(HandRank::HighCard(vec![14, 13, 12, 11, 10])),
        amount_won: 0,
        position: String::new(),
    };
    update_player_stats(&mut stats, &player, true);
    assert_eq!(stats.hands_played, 1);
    assert_eq!(stats.hands_won, 0);
    assert_eq!(stats.total_winnings, -300);
    assert_eq!(stats.biggest_pot_won, 0);
    assert_eq!(stats.showdowns_total, 1);
    assert_eq!(stats.showdowns_won, 0);
}

#[test]
fn test_update_stats_folded_before_showdown() {
    let mut stats = stats_default();
    let player = PlayerHandRecord {
        seat: 0,
        principal: 0,
        starting_chips: 1000,
        ending_chips: 950,
        hole_cards: None,
        final_hand_rank: None,
        amount_won: 0,
        position: String::new(),
    };
    update_player_stats(&mut stats, &player, true);
    assert_eq!(stats.hands_played, 1);
    assert_eq!(stats.hands_won, 0);
    assert_eq!(stats.total_winnings, -50);
    assert_eq!(stats.showdowns_total, 0);
}

#[test]
fn test_update_stats_biggest_pot_tracked() {
    let mut stats = stats_default();
    let player1 = PlayerHandRecord {
        seat: 0,
        principal: 0,
        starting_chips: 1000,
        ending_chips: 1300,
        hole_cards: None,
        final_hand_rank: None,
        amount_won: 300,
        position: String::new(),
    };
    update_player_stats(&mut stats, &player1, false);
    assert_eq!(stats.biggest_pot_won, 300);

    let player2 = PlayerHandRecord {
        seat: 0,
        principal: 0,
        starting_chips: 1300,
        ending_chips: 1400,
        hole_cards: None,
        final_hand_rank: None,
        amount_won: 100,
        position: String::new(),
    };
    update_player_stats(&mut stats, &player2, false);
    assert_eq!(stats.biggest_pot_won, 300);

    let player3 = PlayerHandRecord {
        seat: 0,
        principal: 0,
        starting_chips: 1400,
        ending_chips: 2000,
        hole_cards: None,
        final_hand_rank: None,
        amount_won: 600,
        position: String::new(),
    };
    update_player_stats(&mut stats, &player3, false);
    assert_eq!(stats.biggest_pot_won, 600);
}

#[test]
fn test_update_stats_cumulative() {
    let mut stats = stats_default();
    for i in 0..10 {
        let won = i % 2 == 0;
        let player = PlayerHandRecord {
            seat: 0,
            principal: 0,
            starting_chips: 1000,
            ending_chips: if won { 1100 } else { 900 },
            hole_cards: None,
            final_hand_rank: None,
            amount_won: if won { 100 } else { 0 },
            position: String::new(),
        };
        update_player_stats(&mut stats, &player, false);
    }
    assert_eq!(stats.hands_played, 10);
    assert_eq!(stats.hands_won, 5);
    assert_eq!(stats.total_winnings, 0);
}

#[test]
fn test_create_hand_summary() {
    let players = vec![
        PlayerHandRecord {
            seat: 0,
            principal: 0,
            starting_chips: 1000,
            ending_chips: 1500,
            hole_cards: None,
            final_hand_rank: None,
            amount_won: 500,
            position: String::new(),
        },
        PlayerHandRecord {
            seat: 1,
            principal: 0,
            starting_chips: 1000,
            ending_chips: 500,
            hole_cards: None,
            final_hand_rank: None,
            amount_won: 0,
            position: String::new(),
        },
    ];
    let summary = create_hand_summary(1, 42, 1234567890, &players, 500, true);
    assert_eq!(summary.hand_id, 1);
    assert_eq!(summary.hand_number, 42);
    assert_eq!(summary.timestamp, 1234567890);
    assert_eq!(summary.player_count, 2);
    assert_eq!(summary.total_pot, 500);
    assert!(summary.went_to_showdown);
}

#[test]
fn test_paginate_basic() {
    let items: Vec<i32> = vec![1, 2, 3, 4, 5, 6, 7, 8, 9, 10];
    let result = paginate(&items, 0, 3);
    assert_eq!(result, vec![10, 9, 8]);
}

#[test]
fn test_paginate_with_offset() {
    let items: Vec<i32> = vec![1, 2, 3, 4, 5, 6, 7, 8, 9, 10];
    let result = paginate(&items, 2, 3);
    assert_eq!(result, vec![8, 7, 6]);
}

#[test]
fn test_paginate_limit_exceeds_size() {
    let items: Vec<i32> = vec![1, 2, 3];
    let result = paginate(&items, 0, 10);
    assert_eq!(result, vec![3, 2, 1]);
}

#[test]
fn test_paginate_offset_exceeds_size() {
    let items: Vec<i32> = vec![1, 2, 3];
    let result = paginate(&items, 10, 5);
    assert!(result.is_empty());
}

#[test]
fn test_paginate_empty() {
    let items: Vec<i32> = vec![];
    let result = paginate(&items, 0, 10);
    assert!(result.is_empty());
}

#[test]
fn test_index_insert_and_lookup() {
    let mut hands_by_player: BTreeMap<u64, Vec<u64>> = BTreeMap::new();
    hands_by_player.entry(1).or_default().push(1);
    hands_by_player.entry(1).or_default().push(3);
    hands_by_player.entry(1).or_default().push(5);
    hands_by_player.entry(2).or_default().push(2);
    hands_by_player.entry(2).or_default().push(3);
    hands_by_player.entry(2).or_default().push(4);
    assert_eq!(hands_by_player.get(&1).unwrap(), &vec![1, 3, 5]);
    assert_eq!(hands_by_player.get(&2).unwrap(), &vec![2, 3, 4]);
    assert!(hands_by_player.get(&3).is_none());
}

#[test]
fn test_index_preserves_order() {
    let mut hands_by_table: BTreeMap<u64, Vec<u64>> = BTreeMap::new();
    for hand_id in 1..=100 {
        hands_by_table.entry(1).or_default().push(hand_id);
    }
    let hand_ids = hands_by_table.get(&1).unwrap();
    assert_eq!(hand_ids.len(), 100);
    assert_eq!(hand_ids[0], 1);
    assert_eq!(hand_ids[99], 100);
}

#[test]
fn test_authorized_tables_logic() {
    let mut authorized_tables: Vec<u64> = vec![];
    assert!(!authorized_tables.contains(&1));
    authorized_tables.push(1);
    assert!(authorized_tables.contains(&1));
    assert!(!authorized_tables.contains(&2));
    authorized_tables.push(2);
    assert!(authorized_tables.contains(&1));
    assert!(authorized_tables.contains(&2));
    authorized_tables.retain(|&t| t != 1);
    assert!(!authorized_tables.contains(&1));
    assert!(authorized_tables.contains(&2));
}

#[test]
fn test_authorization_check() {
    let authorized_tables: Vec<u64> = vec![1, 2, 3];
    let admin: Option<u64> = Some(99);

    fn is_authorized(caller: u64, authorized: &[u64], admin: Option<u64>) -> bool {
        authorized.contains(&caller) || admin == Some(caller)
    }

    assert!(is_authorized(1, &authorized_tables, admin));
    assert!(is_authorized(99, &authorized_tables, admin));
    assert!(!is_authorized(50, &authorized_tables, admin));
}

#[test]
fn test_summary_codec_round_trip() {
    let summary = holdem::history::HandSummary {
        hand_id: 7,
        table_id: 3,
        hand_number: 42,
        timestamp: 1_234_567_890,
        player_count: 4,
        total_pot: 999,
        went_to_showdown: true,
    };
    let bytes = holdem::codec::encode_hand_summary(&summary);
    assert_eq!(bytes.len(), 42);
    let back = holdem::codec::decode_hand_summary(&bytes).unwrap();
    assert_eq!(back.hand_id, 7);
    assert_eq!(back.table_id, 3);
    assert_eq!(back.hand_number, 42);
    assert_eq!(back.timestamp, 1_234_567_890);
    assert_eq!(back.player_count, 4);
    assert_eq!(back.total_pot, 999);
    assert!(back.went_to_showdown);
}

#[test]
fn test_summary_codec_rejects_malformed() {
    assert!(holdem::codec::decode_hand_summary(&vec![1, 2, 3]).is_none());
    let mut bytes = vec![0u8; 42];
    bytes[41] = 7;
    assert!(holdem::codec::decode_hand_summary(&bytes).is_none());
}
