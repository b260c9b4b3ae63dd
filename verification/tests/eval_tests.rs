// Deck construction, the deterministic shuffle, and hand evaluation.

use holdem::cards::{create_deck, Card, Rank, Suit};
use holdem::eval::{combinations, evaluate_hand, HandRank};
use holdem::shuffle::shuffle_deck;

fn card(rank: Rank, suit: Suit) -> Card {
    Card { suit, rank }
}

#[test]
fn test_create_deck_has_52_cards() {
    let deck = create_deck();
    assert_eq!(deck.len(), 52);
}

#[test]
fn test_create_deck_has_all_suits() {
    let deck = create_deck();
    let suits: Vec<Suit> = deck.iter().map(|c| c.suit).collect();
    assert_eq!(suits.iter().filter(|&&s| s == Suit::Hearts).count(), 13);
    assert_eq!(suits.iter().filter(|&&s| s == Suit::Diamonds).count(), 13);
    assert_eq!(suits.iter().filter(|&&s| s == Suit::Clubs).count(), 13);
    assert_eq!(suits.iter().filter(|&&s| s == Suit::Spades).count(), 13);
}

#[test]
fn test_create_deck_has_all_ranks() {
    let deck = create_deck();
    let ranks: Vec<Rank> = deck.iter().map(|c| c.rank).collect();
    for rank in [
        Rank::Two,
        Rank::Three,
        Rank::Four,
        Rank::Five,
        Rank::Six,
        Rank::Seven,
        Rank::Eight,
        Rank::Nine,
        Rank::Ten,
        Rank::Jack,
        Rank::Queen,
        Rank::King,
        Rank::Ace,
    ] {
        assert_eq!(ranks.iter().filter(|&&r| r == rank).count(), 4);
    }
}

#[test]
fn test_create_deck_no_duplicates() {
    let deck = create_deck();
    let mut seen = std::collections::HashSet::new();
    for card in &deck {
        let key = (card.suit, card.rank);
        assert!(!seen.contains(&key), "Duplicate card found: {:?}", card);
        seen.insert(key);
    }
}

#[test]
fn test_shuffle_deterministic() {
    let seed = vec![1, 2, 3, 4, 5, 6, 7, 8, 9, 10, 11, 12, 13, 14, 15, 16];
    let mut deck1 = create_deck();
    let mut deck2 = create_deck();
    shuffle_deck(&mut deck1, &seed);
    shuffle_deck(&mut deck2, &seed);
    assert_eq!(deck1, deck2, "Same seed should produce same shuffle");
}

#[test]
fn test_shuffle_different_seeds_different_results() {
    let seed1 = vec![1, 2, 3, 4, 5, 6, 7, 8, 9, 10, 11, 12, 13, 14, 15, 16];
    let seed2 = vec![16, 15, 14, 13, 12, 11, 10, 9, 8, 7, 6, 5, 4, 3, 2, 1];
    let mut deck1 = create_deck();
    let mut deck2 = create_deck();
    shuffle_deck(&mut deck1, &seed1);
    shuffle_deck(&mut deck2, &seed2);
    assert_ne!(deck1, deck2, "Different seeds should produce different shuffles");
}

#[test]
fn test_shuffle_preserves_all_cards() {
    let seed = vec![42u8; 32];
    let original_deck = create_deck();
    let mut shuffled_deck = create_deck();
    shuffle_deck(&mut shuffled_deck, &seed);
    assert_eq!(shuffled_deck.len(), 52);
    for card in &original_deck {
        assert!(shuffled_deck.contains(card), "Missing card: {:?}", card);
    }
}

#[test]
fn test_evaluate_royal_flush() {
    let hole = (card(Rank::Ace, Suit::Hearts), card(Rank::King, Suit::Hearts));
    let community = vec![
        card(Rank::Queen, Suit::Hearts),
        card(Rank::Jack, Suit::Hearts),
        card(Rank::Ten, Suit::Hearts),
        card(Rank::Two, Suit::Clubs),
        card(Rank::Three, Suit::Diamonds),
    ];
    let result = evaluate_hand(&hole, &community);
    assert_eq!(result, HandRank::RoyalFlush);
}

#[test]
fn test_evaluate_straight_flush() {
    let hole = (card(Rank::Nine, Suit::Spades), card(Rank::Eight, Suit::Spades));
    let community = vec![
        card(Rank::Seven, Suit::Spades),
        card(Rank::Six, Suit::Spades),
        card(Rank::Five, Suit::Spades),
        card(Rank::Two, Suit::Clubs),
        card(Rank::Three, Suit::Diamonds),
    ];
    let result = evaluate_hand(&hole, &community);
    assert_eq!(result, HandRank::StraightFlush(9));
}

#[test]
fn test_evaluate_four_of_a_kind() {
    let hole = (card(Rank::King, Suit::Hearts), card(Rank::King, Suit::Diamonds));
    let community = vec![
        card(Rank::King, Suit::Clubs),
        card(Rank::King, Suit::Spades),
        card(Rank::Ace, Suit::Hearts),
        card(Rank::Two, Suit::Clubs),
        card(Rank::Three, Suit::Diamonds),
    ];
    let result = evaluate_hand(&hole, &community);
    assert_eq!(result, HandRank::FourOfAKind(13, 14));
}

#[test]
fn test_evaluate_full_house() {
    let hole = (card(Rank::Queen, Suit::Hearts), card(Rank::Queen, Suit::Diamonds));
    let community = vec![
        card(Rank::Queen, Suit::Clubs),
        card(Rank::Jack, Suit::Spades),
        card(Rank::Jack, Suit::Hearts),
        card(Rank::Two, Suit::Clubs),
        card(Rank::Three, Suit::Diamonds),
    ];
    let result = evaluate_hand(&hole, &community);
    assert_eq!(result, HandRank::FullHouse(12, 11));
}

#[test]
fn test_evaluate_flush() {
    let hole = (card(Rank::Ace, Suit::Clubs), card(Rank::Ten, Suit::Clubs));
    let community = vec![
        card(Rank::Seven, Suit::Clubs),
        card(Rank::Four, Suit::Clubs),
        card(Rank::Two, Suit::Clubs),
        card(Rank::King, Suit::Hearts),
        card(Rank::Queen, Suit::Diamonds),
    ];
    let result = evaluate_hand(&hole, &community);
    match result {
        HandRank::Flush(cards) => {
            assert_eq!(cards[0], 14);
        }
        _ => panic!("Expected flush, got {:?}", result),
    }
}

#[test]
fn test_evaluate_straight() {
    let hole = (card(Rank::Eight, Suit::Hearts), card(Rank::Seven, Suit::Diamonds));
    let community = vec![
        card(Rank::Six, Suit::Clubs),
        card(Rank::Five, Suit::Spades),
        card(Rank::Four, Suit::Hearts),
        card(Rank::Two, Suit::Clubs),
        card(Rank::King, Suit::Diamonds),
    ];
    let result = evaluate_hand(&hole, &community);
    assert_eq!(result, HandRank::Straight(8));
}

#[test]
fn test_evaluate_wheel_straight() {
    let hole = (card(Rank::Ace, Suit::Hearts), card(Rank::Two, Suit::Diamonds));
    let community = vec![
        card(Rank::Three, Suit::Clubs),
        card(Rank::Four, Suit::Spades),
        card(Rank::Five, Suit::Hearts),
        card(Rank::King, Suit::Clubs),
        card(Rank::Queen, Suit::Diamonds),
    ];
    let result = evaluate_hand(&hole, &community);
    assert_eq!(result, HandRank::Straight(5));
}

#[test]
fn test_evaluate_three_of_a_kind() {
    let hole = (card(Rank::Ten, Suit::Hearts), card(Rank::Ten, Suit::Diamonds));
    let community = vec![
        card(Rank::Ten, Suit::Clubs),
        card(Rank::King, Suit::Spades),
        card(Rank::Queen, Suit::Hearts),
        card(Rank::Two, Suit::Clubs),
        card(Rank::Three, Suit::Diamonds),
    ];
    let result = evaluate_hand(&hole, &community);
    match result {
        HandRank::ThreeOfAKind(rank, kickers) => {
            assert_eq!(rank, 10);
            assert_eq!(kickers[0], 13);
            assert_eq!(kickers[1], 12);
        }
        _ => panic!("Expected three of a kind, got {:?}", result),
    }
}

#[test]
fn test_evaluate_two_pair() {
    let hole = (card(Rank::Jack, Suit::Hearts), card(Rank::Jack, Suit::Diamonds));
    let community = vec![
        card(Rank::Nine, Suit::Clubs),
        card(Rank::Nine, Suit::Spades),
        card(Rank::Ace, Suit::Hearts),
        card(Rank::Two, Suit::Clubs),
        card(Rank::Three, Suit::Diamonds),
    ];
    let result = evaluate_hand(&hole, &community);
    assert_eq!(result, HandRank::TwoPair(11, 9, 14));
}

#[test]
fn test_evaluate_one_pair() {
    let hole = (card(Rank::Eight, Suit::Hearts), card(Rank::Eight, Suit::Diamonds));
    let community = vec![
        card(Rank::King, Suit::Clubs),
        card(Rank::Queen, Suit::Spades),
        card(Rank::Ten, Suit::Hearts),
        card(Rank::Two, Suit::Clubs),
        card(Rank::Three, Suit::Diamonds),
    ];
    let result = evaluate_hand(&hole, &community);
    match result {
        HandRank::Pair(rank, kickers) => {
            assert_eq!(rank, 8);
            assert_eq!(kickers[0], 13);
            assert_eq!(kickers[1], 12);
            assert_eq!(kickers[2], 10);
        }
        _ => panic!("Expected pair, got {:?}", result),
    }
}

#[test]
fn test_evaluate_high_card() {
    let hole = (card(Rank::Ace, Suit::Hearts), card(Rank::King, Suit::Diamonds));
    let community = vec![
        card(Rank::Ten, Suit::Clubs),
        card(Rank::Seven, Suit::Spades),
        card(Rank::Four, Suit::Hearts),
        card(Rank::Two, Suit::Clubs),
        card(Rank::Three, Suit::Diamonds),
    ];
    let result = evaluate_hand(&hole, &community);
    match result {
        HandRank::HighCard(cards) => {
            assert_eq!(cards[0], 14);
            assert_eq!(cards[1], 13);
        }
        _ => panic!("Expected high card, got {:?}", result),
    }
}

#[test]
fn test_hand_ranking_comparison() {
    let royal_flush = HandRank::RoyalFlush;
    let straight_flush = HandRank::StraightFlush(9);
    let four_kind = HandRank::FourOfAKind(10, 5);
    let full_house = HandRank::FullHouse(10, 5);
    let flush = HandRank::Flush(vec![14, 12, 10, 8, 6]);
    let straight = HandRank::Straight(10);
    let three_kind = HandRank::ThreeOfAKind(10, vec![8, 6]);
    let two_pair = HandRank::TwoPair(10, 8, 6);
    let pair = HandRank::Pair(10, vec![8, 6, 4]);
    let high_card = HandRank::HighCard(vec![14, 12, 10, 8, 6]);

    assert!(royal_flush > straight_flush);
    assert!(straight_flush > four_kind);
    assert!(four_kind > full_house);
    assert!(full_house > flush);
    assert!(flush > straight);
    assert!(straight > three_kind);
    assert!(three_kind > two_pair);
    assert!(two_pair > pair);
    assert!(pair > high_card);
}

#[test]
fn test_saturating_add_overflow() {
    let large: u64 = u64::MAX - 10;
    let result = large.saturating_add(100);
    assert_eq!(result, u64::MAX);
}

#[test]
fn test_saturating_sub_underflow() {
    let small: u64 = 10;
    let result = small.saturating_sub(100);
    assert_eq!(result, 0);
}

#[test]
fn test_combinations_7_choose_5() {
    let cards: Vec<Card> = vec![
        card(Rank::Ace, Suit::Hearts),
        card(Rank::King, Suit::Hearts),
        card(Rank::Queen, Suit::Hearts),
        card(Rank::Jack, Suit::Hearts),
        card(Rank::Ten, Suit::Hearts),
        card(Rank::Nine, Suit::Hearts),
        card(Rank::Eight, Suit::Hearts),
    ];
    let combos = combinations(&cards, 5);
    assert_eq!(combos.len(), 21);
    for combo in &combos {
        assert_eq!(combo.len(), 5);
    }
}

#[test]
fn test_combinations_all_unique() {
    let cards: Vec<Card> = vec![
        card(Rank::Ace, Suit::Hearts),
        card(Rank::King, Suit::Hearts),
        card(Rank::Queen, Suit::Hearts),
        card(Rank::Jack, Suit::Hearts),
        card(Rank::Ten, Suit::Hearts),
    ];
    let combos = combinations(&cards, 3);
    let mut seen = std::collections::HashSet::new();
    for combo in &combos {
        let mut sorted_combo = combo.clone();
        sorted_combo.sort_by_key(|c| (c.suit, c.rank));
        let key = format!("{:?}", sorted_combo);
        assert!(!seen.contains(&key), "Duplicate combination found");
        seen.insert(key);
    }
}

#[test]
fn test_best_hand_from_seven_cards() {
    let hole = (card(Rank::Ace, Suit::Hearts), card(Rank::Ace, Suit::Diamonds));
    let community = vec![
        card(Rank::Ace, Suit::Clubs),
        card(Rank::Ace, Suit::Spades),
        card(Rank::King, Suit::Hearts),
        card(Rank::Two, Suit::Clubs),
        card(Rank::Three, Suit::Diamonds),
    ];
    let result = evaluate_hand(&hole, &community);
    assert_eq!(result, HandRank::FourOfAKind(14, 13));
}

#[test]
fn test_flush_vs_straight() {
    let hole = (card(Rank::Ace, Suit::Hearts), card(Rank::Two, Suit::Hearts));
    let community = vec![
        card(Rank::Three, Suit::Hearts),
        card(Rank::Four, Suit::Hearts),
        card(Rank::Five, Suit::Hearts),
        card(Rank::King, Suit::Spades),
        card(Rank::Queen, Suit::Clubs),
    ];
    let result = evaluate_hand(&hole, &community);
    assert_eq!(result, HandRank::StraightFlush(5));
}

#[test]
fn test_two_pair_vs_trips() {
    let three_kind = HandRank::ThreeOfAKind(7, vec![13, 12]);
    let two_pair = HandRank::TwoPair(14, 13, 12);
    assert!(three_kind > two_pair);
}

#[test]
fn test_higher_pair_wins() {
    let pair_aces = HandRank::Pair(14, vec![13, 12, 11]);
    let pair_kings = HandRank::Pair(13, vec![14, 12, 11]);
    assert!(pair_aces > pair_kings);
}

#[test]
fn test_same_pair_kicker_matters() {
    let pair_with_ace = HandRank::Pair(10, vec![14, 8, 6]);
    let pair_with_king = HandRank::Pair(10, vec![13, 8, 6]);
    assert!(pair_with_ace > pair_with_king);
}

#[test]
fn test_eval_order_independent() {
    // The same seven cards give the same rank whatever order they arrive in.
    let hole_a = (card(Rank::Nine, Suit::Spades), card(Rank::Eight, Suit::Spades));
    let community_a = vec![
        card(Rank::Seven, Suit::Spades),
        card(Rank::Six, Suit::Spades),
        card(Rank::Five, Suit::Spades),
        card(Rank::Two, Suit::Clubs),
        card(Rank::Three, Suit::Diamonds),
    ];
    let hole_b = (card(Rank::Three, Suit::Diamonds), card(Rank::Five, Suit::Spades));
    let community_b = vec![
        card(Rank::Eight, Suit::Spades),
        card(Rank::Two, Suit::Clubs),
        card(Rank::Nine, Suit::Spades),
        card(Rank::Seven, Suit::Spades),
        card(Rank::Six, Suit::Spades),
    ];
    assert_eq!(evaluate_hand(&hole_a, &community_a), evaluate_hand(&hole_b, &community_b));
}
