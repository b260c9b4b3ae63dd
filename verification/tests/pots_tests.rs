// Side-pot layering and pot splitting.

use holdem::pots::{calculate_side_pots, PlayerContribution};
use holdem::showdown::distribute_pot;

#[test]
fn test_side_pots_no_all_in() {
    let contributions = vec![
        PlayerContribution { seat: 0, total_bet: 100, has_folded: false, is_all_in: false },
        PlayerContribution { seat: 1, total_bet: 100, has_folded: false, is_all_in: false },
        PlayerContribution { seat: 2, total_bet: 100, has_folded: false, is_all_in: false },
    ];
    let pots = calculate_side_pots(&contributions, 300);
    assert_eq!(pots.len(), 1);
    assert_eq!(pots[0].amount, 300);
    assert_eq!(pots[0].eligible_players, vec![0, 1, 2]);
}

#[test]
fn test_side_pots_one_all_in() {
    let contributions = vec![
        PlayerContribution { seat: 0, total_bet: 50, has_folded: false, is_all_in: true },
        PlayerContribution { seat: 1, total_bet: 100, has_folded: false, is_all_in: false },
        PlayerContribution { seat: 2, total_bet: 100, has_folded: false, is_all_in: false },
    ];
    let pots = calculate_side_pots(&contributions, 250);
    assert_eq!(pots.len(), 2);
    assert_eq!(pots[0].amount, 150);
    assert_eq!(pots[0].eligible_players, vec![0, 1, 2]);
    assert_eq!(pots[1].amount, 100);
    assert_eq!(pots[1].eligible_players, vec![1, 2]);
}

#[test]
fn test_side_pots_multiple_all_ins() {
    let contributions = vec![
        PlayerContribution { seat: 0, total_bet: 25, has_folded: false, is_all_in: true },
        PlayerContribution { seat: 1, total_bet: 50, has_folded: false, is_all_in: true },
        PlayerContribution { seat: 2, total_bet: 100, has_folded: false, is_all_in: false },
        PlayerContribution { seat: 3, total_bet: 100, has_folded: false, is_all_in: false },
    ];
    let pots = calculate_side_pots(&contributions, 275);
    assert_eq!(pots.len(), 3);
    assert_eq!(pots[0].amount, 100);
    assert_eq!(pots[0].eligible_players, vec![0, 1, 2, 3]);
    assert_eq!(pots[1].amount, 75);
    assert_eq!(pots[1].eligible_players, vec![1, 2, 3]);
    assert_eq!(pots[2].amount, 100);
    assert_eq!(pots[2].eligible_players, vec![2, 3]);
}

#[test]
fn test_side_pots_with_fold() {
    let contributions = vec![
        PlayerContribution { seat: 0, total_bet: 50, has_folded: true, is_all_in: false },
        PlayerContribution { seat: 1, total_bet: 50, has_folded: false, is_all_in: true },
        PlayerContribution { seat: 2, total_bet: 100, has_folded: false, is_all_in: false },
    ];
    let pots = calculate_side_pots(&contributions, 200);
    assert_eq!(pots.len(), 2);
    assert_eq!(pots[0].amount, 150);
    assert_eq!(pots[0].eligible_players, vec![1, 2]);
    assert_eq!(pots[1].amount, 50);
    assert_eq!(pots[1].eligible_players, vec![2]);
}

#[test]
fn test_side_pots_empty_contributions() {
    let contributions: Vec<PlayerContribution> = vec![];
    let pots = calculate_side_pots(&contributions, 0);
    assert!(pots.is_empty());
}

#[test]
fn test_side_pots_heads_up() {
    let contributions = vec![
        PlayerContribution { seat: 0, total_bet: 50, has_folded: false, is_all_in: false },
        PlayerContribution { seat: 1, total_bet: 50, has_folded: false, is_all_in: false },
    ];
    let pots = calculate_side_pots(&contributions, 100);
    assert_eq!(pots.len(), 1);
    assert_eq!(pots[0].amount, 100);
    assert_eq!(pots[0].eligible_players, vec![0, 1]);
}

#[test]
fn test_side_pots_three_way_all_in() {
    // Stacks of 100, 200 and 500: the short stack is covered by everyone,
    // the middle layer only by the two larger stacks.
    let contributions = vec![
        PlayerContribution { seat: 0, total_bet: 100, has_folded: false, is_all_in: true },
        PlayerContribution { seat: 1, total_bet: 200, has_folded: false, is_all_in: true },
        PlayerContribution { seat: 2, total_bet: 200, has_folded: false, is_all_in: false },
    ];
    let pots = calculate_side_pots(&contributions, 500);
    assert_eq!(pots.len(), 2);
    assert_eq!(pots[0].amount, 300);
    assert_eq!(pots[0].eligible_players, vec![0, 1, 2]);
    assert_eq!(pots[1].amount, 200);
    assert_eq!(pots[1].eligible_players, vec![1, 2]);
    let total: u64 = pots.iter().map(|p| p.amount).sum();
    assert_eq!(total, 500);
}

#[test]
fn test_folded_seat_funds_pots_it_cannot_win() {
    // The folded seat's 60 stays in the pot, but no pot lists it.
    let contributions = vec![
        PlayerContribution { seat: 0, total_bet: 60, has_folded: true, is_all_in: false },
        PlayerContribution { seat: 1, total_bet: 60, has_folded: false, is_all_in: false },
        PlayerContribution { seat: 2, total_bet: 60, has_folded: false, is_all_in: false },
    ];
    let pots = calculate_side_pots(&contributions, 180);
    let total: u64 = pots.iter().map(|p| p.amount).sum();
    assert_eq!(total, 180);
    for pot in &pots {
        assert!(!pot.eligible_players.contains(&0));
    }
}

#[test]
fn test_odd_chip_goes_first_clockwise_from_button() {
    // A 101-chip pot split between seats 0 and 1 with the button on seat 0:
    // seat 1 sits first clockwise from the button and takes the odd chip.
    let payouts = distribute_pot(101, &vec![0u8, 1u8], 0, 2);
    assert_eq!(payouts.len(), 2);
    assert_eq!(payouts[0], (0u8, 50u64));
    assert_eq!(payouts[1], (1u8, 51u64));
    let total: u64 = payouts.iter().map(|p| p.1).sum();
    assert_eq!(total, 101);
}

#[test]
fn test_even_split_no_remainder() {
    let payouts = distribute_pot(100, &vec![2u8, 5u8], 0, 6);
    assert_eq!(payouts[0].1 + payouts[1].1, 100);
    assert_eq!(payouts[0].1, 50);
    assert_eq!(payouts[1].1, 50);
}
