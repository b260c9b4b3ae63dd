//! Awarding the pots at showdown.
//!
//! Each pot goes to the best hand among its eligible seats; ties split the
//! pot evenly, and the odd chip goes to the first winner clockwise from
//! the dealer button.  The amounts paid out add up to exactly the money in
//! the pots.

use vstd::prelude::*;

use crate::cards::Card;
use crate::eval::{HandRank, copy_values, hand_rank_lt, rank_lt};
use crate::pots::SidePot;

verus! {

/// A non-folded hand shown at showdown.
pub struct ShowdownHand {
    pub seat: u8,
    pub principal: u64,
    pub rank: HandRank,
    pub cards: (Card, Card),
}

/// One seat's total winnings from a hand.
#[derive(Clone, Debug)]
pub struct Winner {
    pub seat: u8,
    pub principal: u64,
    pub amount: u64,
    pub hand_rank: Option<HandRank>,
    pub cards: Option<(Card, Card)>,
}

/// Sum of the amounts won.
pub open spec fn sum_winners(ws: Seq<Winner>) -> int
    decreases ws.len(),
{
    if ws.len() == 0 {
        0
    } else {
        sum_winners(ws.drop_last()) + ws.last().amount
    }
}

/// No two hands claim one seat.
pub open spec fn hands_distinct(hs: Seq<ShowdownHand>) -> bool {
    forall|i: int, j: int| 0 <= i < j < hs.len() ==> (#[trigger] hs[i]).seat != (#[trigger] hs[j]).seat
}

/// The seat holds the best hand among the eligible seats.
pub open spec fn is_best_eligible(hs: Seq<ShowdownHand>, eligible: Seq<u8>, i: int) -> bool {
    &&& 0 <= i < hs.len()
    &&& eligible.contains(hs[i].seat)
    &&& forall|j: int|
        0 <= j < hs.len() && eligible.contains((#[trigger] hs[j]).seat) ==> !rank_lt(
            hs[i].rank@,
            hs[j].rank@,
        )
}

proof fn lemma_sum_winners_nonneg(ws: Seq<Winner>)
    ensures
        sum_winners(ws) >= 0,
    decreases ws.len(),
{
    if ws.len() > 0 {
        lemma_sum_winners_nonneg(ws.drop_last());
    }
}

proof fn lemma_sum_winners_push(ws: Seq<Winner>, w: Winner)
    ensures
        sum_winners(ws.push(w)) == sum_winners(ws) + w.amount,
{
    assert(ws.push(w).drop_last() =~= ws);
}

proof fn lemma_sum_winners_update_amount(ws: Seq<Winner>, i: int, w2: Winner)
    requires
        0 <= i < ws.len(),
    ensures
        sum_winners(ws.update(i, w2)) == sum_winners(ws) - ws[i].amount + w2.amount,
    decreases ws.len(),
{
    let s2 = ws.update(i, w2);
    if i == ws.len() - 1 {
        assert(s2.drop_last() =~= ws.drop_last());
        assert(s2.last() == w2);
    } else {
        assert(s2.drop_last() =~= ws.drop_last().update(i, w2));
        assert(ws.drop_last()[i] == ws[i]);
        lemma_sum_winners_update_amount(ws.drop_last(), i, w2);
        assert(s2.last() == ws.last());
    }
}

proof fn lemma_sum_winners_entry(ws: Seq<Winner>, i: int)
    requires
        0 <= i < ws.len(),
    ensures
        ws[i].amount <= sum_winners(ws),
    decreases ws.len(),
{
    lemma_sum_winners_nonneg(ws.drop_last());
    if i < ws.len() - 1 {
        assert(ws.drop_last()[i] == ws[i]);
        lemma_sum_winners_entry(ws.drop_last(), i);
    }
}

/// Copies a hand rank.
pub fn clone_rank(h: &HandRank) -> (r: HandRank)
    ensures
        r@ == h@,
{
    match h {
        HandRank::HighCard(v) => HandRank::HighCard(copy_values(v)),
        HandRank::Pair(p, v) => HandRank::Pair(*p, copy_values(v)),
        HandRank::TwoPair(a, b, c) => HandRank::TwoPair(*a, *b, *c),
        HandRank::ThreeOfAKind(t, v) => HandRank::ThreeOfAKind(*t, copy_values(v)),
        HandRank::Straight(x) => HandRank::Straight(*x),
        HandRank::Flush(v) => HandRank::Flush(copy_values(v)),
        HandRank::FullHouse(t, p) => HandRank::FullHouse(*t, *p),
        HandRank::FourOfAKind(q, k) => HandRank::FourOfAKind(*q, *k),
        HandRank::StraightFlush(x) => HandRank::StraightFlush(*x),
        HandRank::RoyalFlush => HandRank::RoyalFlush,
    }
}

/// The seats whose hands win a pot: exactly the eligible seats whose rank
/// no eligible hand beats.
#[verifier::loop_isolation(false)]
pub fn pot_winner_seats(hands: &Vec<ShowdownHand>, eligible: &Vec<u8>) -> (r: (Vec<u8>, usize))
    requires
        hands_distinct(hands@),
        exists|i: int|
            0 <= i < hands@.len() && eligible@.contains((#[trigger] hands@[i]).seat),
    ensures
        r.0@.len() > 0,
        r.1 < hands@.len(),
        is_best_eligible(hands@, eligible@, r.1 as int),
        forall|q: int|
            0 <= q < r.0@.len() ==> exists|i: int|
                is_best_eligible(hands@, eligible@, i) && hands@[i].seat == #[trigger] r.0@[q],
        forall|i: int|
            is_best_eligible(hands@, eligible@, i) ==> r.0@.contains(hands@[i].seat),
        forall|p: int, q: int| 0 <= p < q < r.0@.len() ==> r.0@[p] != r.0@[q],
{
    // Find one best eligible hand.
    let mut best: usize = 0;
    let mut found = false;
    let mut i: usize = 0;
    while i < hands.len()
        invariant
            i <= hands@.len(),
            found ==> best < i && eligible@.contains(hands@[best as int].seat),
            found ==> forall|j: int|
                0 <= j < i && eligible@.contains((#[trigger] hands@[j]).seat) ==> !rank_lt(
                    hands@[best as int].rank@,
                    hands@[j].rank@,
                ),
            !found ==> forall|j: int|
                0 <= j < i ==> !eligible@.contains((#[trigger] hands@[j]).seat),
        decreases hands@.len() - i,
    {
        if crate::pots::contains_seat(eligible, hands[i].seat) {
            if !found {
                best = i;
                found = true;
                proof {
                    crate::eval::lemma_rank_total(hands@[i as int].rank@, hands@[i as int].rank@);
                }
            } else if hand_rank_lt(&hands[best].rank, &hands[i].rank) {
                proof {
                    assert forall|j: int|
                        0 <= j < i + 1 && eligible@.contains((#[trigger] hands@[j]).seat)
                            implies !rank_lt(hands@[i as int].rank@, hands@[j].rank@) by {
                        crate::eval::lemma_rank_total(hands@[i as int].rank@, hands@[j].rank@);
                        if rank_lt(hands@[i as int].rank@, hands@[j].rank@) {
                            lemma_rank_lt_chain(
                                hands@[best as int].rank@,
                                hands@[i as int].rank@,
                                hands@[j].rank@,
                            );
                        }
                    }
                }
                best = i;
            } else {
                proof {
                    assert forall|j: int|
                        0 <= j < i + 1 && eligible@.contains((#[trigger] hands@[j]).seat)
                            implies !rank_lt(hands@[best as int].rank@, hands@[j].rank@) by {}
                }
            }
        }
        i = i + 1;
    }
    proof {
        assert(found) by {
            let w = choose|w: int|
                0 <= w < hands@.len() && eligible@.contains((#[trigger] hands@[w]).seat);
            if !found {
                assert(!eligible@.contains(hands@[w].seat));
            }
        }
    }
    // Collect every eligible seat whose rank ties the best.
    let mut seats: Vec<u8> = Vec::new();
    let mut i: usize = 0;
    while i < hands.len()
        invariant
            i <= hands@.len(),
            is_best_eligible(hands@, eligible@, best as int),
            best < hands@.len(),
            forall|q: int|
                0 <= q < seats@.len() ==> exists|m: int|
                    is_best_eligible(hands@, eligible@, m) && hands@[m].seat == #[trigger] seats@[
                        q
                    ],
            forall|m: int|
                0 <= m < i && is_best_eligible(hands@, eligible@, m) ==> seats@.contains(
                    hands@[m].seat,
                ),
            forall|q: int|
                0 <= q < seats@.len() ==> exists|m: int|
                    0 <= m < i && hands@[m].seat == #[trigger] seats@[q],
            forall|p: int, q: int| 0 <= p < q < seats@.len() ==> seats@[p] != seats@[q],
        decreases hands@.len() - i,
    {
        let ghost seats_before = seats@;
        if crate::pots::contains_seat(eligible, hands[i].seat) && !hand_rank_lt(
            &hands[i].rank,
            &hands[best].rank,
        ) && !hand_rank_lt(&hands[best].rank, &hands[i].rank) {
            proof {
                crate::eval::lemma_rank_total(hands@[i as int].rank@, hands@[best as int].rank@);
                assert(hands@[i as int].rank@ == hands@[best as int].rank@);
                assert(is_best_eligible(hands@, eligible@, i as int));
                // A hand seat joins at most once, so the list stays distinct.
                assert forall|q: int| 0 <= q < seats_before.len() implies seats_before[q]
                    != hands@[i as int].seat by {
                    let m = choose|m: int|
                        0 <= m < i && hands@[m].seat == #[trigger] seats_before[q];
                }
            }
            seats.push(hands[i].seat);
            proof {
                assert(seats@ =~= seats_before.push(hands@[i as int].seat));
            }
        }
        proof {
            assert forall|m: int|
                0 <= m < i + 1 && is_best_eligible(hands@, eligible@, m) implies seats@.contains(
                hands@[m].seat,
            ) by {
                if m < i {
                    let q = choose|q: int|
                        0 <= q < seats_before.len() && seats_before[q] == hands@[m].seat;
                    assert(seats@[q] == hands@[m].seat);
                } else {
                    crate::eval::lemma_rank_total(
                        hands@[m].rank@,
                        hands@[best as int].rank@,
                    );
                    assert(seats@[seats@.len() - 1] == hands@[m].seat);
                }
            }
        }
        i = i + 1;
    }
    proof {
        assert(seats@.contains(hands@[best as int].seat));
    }
    (seats, best)
}

/// Chaining two strict comparisons.
proof fn lemma_rank_lt_chain(
    a: crate::eval::HandRankSpec,
    b: crate::eval::HandRankSpec,
    c: crate::eval::HandRankSpec,
)
    requires
        rank_lt(a, b),
        rank_lt(b, c),
    ensures
        rank_lt(a, c),
{
    if crate::eval::cat_of(a) == crate::eval::cat_of(b) && crate::eval::cat_of(b)
        == crate::eval::cat_of(c) {
        lemma_seq_lt_chain(
            crate::eval::tie_of(a),
            crate::eval::tie_of(b),
            crate::eval::tie_of(c),
        );
    }
}

proof fn lemma_seq_lt_chain(a: Seq<u8>, b: Seq<u8>, c: Seq<u8>)
    requires
        crate::eval::seq_lt(a, b),
        crate::eval::seq_lt(b, c),
    ensures
        crate::eval::seq_lt(a, c),
    decreases a.len() + b.len() + c.len(),
{
    if b.len() == 0 {
    } else if a.len() == 0 {
    } else if c.len() == 0 {
    } else {
        if a[0] == b[0] && b[0] == c[0] {
            lemma_seq_lt_chain(a.drop_first(), b.drop_first(), c.drop_first());
        }
    }
}


/// Sum of a payout list.
pub open spec fn sum_payout(s: Seq<(u8, u64)>) -> int
    decreases s.len(),
{
    if s.len() == 0 {
        0
    } else {
        sum_payout(s.drop_last()) + s.last().1
    }
}

/// Splits a pot among its winners.
///
/// Every winner gets the even share `amount / k`; the remainder
/// `amount % k` goes, as one odd chip or a few, to the first winner
/// clockwise from the dealer button.  The shares add up to the pot.
#[verifier::loop_isolation(false)]
pub fn distribute_pot(amount: u64, winner_seats: &Vec<u8>, dealer_seat: u8, num_seats: usize) -> (r:
    Vec<(u8, u64)>)
    requires
        0 < num_seats <= 255,
        winner_seats@.len() > 0,
        forall|p: int, q: int| 0 <= p < q < winner_seats@.len() ==> winner_seats@[p]
            != winner_seats@[q],
    ensures
        r@.len() == winner_seats@.len(),
        forall|i: int| 0 <= i < r@.len() ==> (#[trigger] r@[i]).0 == winner_seats@[i],
        ({
            let k = winner_seats@.len() as int;
            let share = amount as int / k;
            let rem = amount as int % k;
            let rs = crate::pots::spec_first_clockwise_from_dealer(
                dealer_seat as int,
                winner_seats@,
                num_seats as int,
            );
            forall|i: int|
                0 <= i < r@.len() ==> (#[trigger] r@[i]).1 == share + (
                if winner_seats@[i] == rs {
                    rem
                } else {
                    0int
                })
        }),
        sum_payout(r@) == amount,
{
    let k = winner_seats.len() as u64;
    let share = amount / k;
    let rem = amount % k;
    let rs = crate::pots::first_clockwise_from_dealer(dealer_seat, winner_seats, num_seats);
    proof {
        assert(k as int >= 1);
        assert(share as int == amount as int / (k as int));
        assert(rem as int == amount as int % (k as int));
        assert(share as int + rem as int <= amount as int) by (nonlinear_arith)
            requires
                k as int >= 1,
                share as int == amount as int / (k as int),
                rem as int == amount as int % (k as int),
                amount as int >= 0,
        ;
        assert(winner_seats@.take(0) =~= Seq::<u8>::empty());
    }
    let mut out: Vec<(u8, u64)> = Vec::new();
    let mut i: usize = 0;
    while i < winner_seats.len()
        invariant
            i <= winner_seats@.len(),
            out@.len() == i,
            forall|m: int| 0 <= m < i ==> (#[trigger] out@[m]).0 == winner_seats@[m],
            forall|m: int|
                0 <= m < i ==> (#[trigger] out@[m]).1 == share as int + (
                if winner_seats@[m] == rs {
                    rem as int
                } else {
                    0int
                }),
            sum_payout(out@) == share as int * i + (
            if winner_seats@.take(i as int).contains(rs) {
                rem as int
            } else {
                0int
            }),
        decreases winner_seats@.len() - i,
    {
        let seat = winner_seats[i];
        let amt: u64 = if seat == rs {
            share + rem
        } else {
            share
        };
        let ghost before = out@;
        out.push((seat, amt));
        proof {
            assert(out@.drop_last() =~= before);
            assert(winner_seats@.take(i + 1) =~= winner_seats@.take(i as int).push(
                winner_seats@[i as int],
            ));
            if seat == rs {
                if winner_seats@.take(i as int).contains(rs) {
                    let m = choose|m: int|
                        0 <= m < i && winner_seats@.take(i as int)[m] == rs;
                    assert(winner_seats@[m] == winner_seats@[i as int]);
                    assert(false);
                }
                assert(winner_seats@.take(i + 1).contains(rs)) by {
                    assert(winner_seats@.take(i + 1)[i as int] == rs);
                }
            } else {
                assert(winner_seats@.take(i + 1).contains(rs) == winner_seats@.take(
                    i as int,
                ).contains(rs)) by {
                    if winner_seats@.take(i + 1).contains(rs) {
                        let m = choose|m: int|
                            0 <= m < i + 1 && #[trigger] winner_seats@.take(i + 1)[m] == rs;
                        assert(m < i);
                        assert(winner_seats@.take(i as int)[m] == rs);
                    }
                    if winner_seats@.take(i as int).contains(rs) {
                        let m = choose|m: int|
                            0 <= m < i && winner_seats@.take(i as int)[m] == rs;
                        assert(winner_seats@.take(i + 1)[m] == rs);
                    }
                }
            }
            assert(share as int * (i + 1) == share as int * i + share as int) by (nonlinear_arith);
        }
        i = i + 1;
    }
    proof {
        assert(winner_seats@.take(winner_seats@.len() as int) =~= winner_seats@);
        assert(winner_seats@.contains(rs));
        assert(sum_payout(out@) == share as int * k as int + rem as int);
        assert(share as int * k as int + rem as int == amount as int) by (nonlinear_arith)
            requires
                k as int >= 1,
                share as int == amount as int / (k as int),
                rem as int == amount as int % (k as int),
                amount as int >= 0,
        ;
    }
    out
}

/// Awards every pot to the best eligible hands and aggregates per seat.
///
/// The returned list holds one entry per winning seat; its amounts add up
/// to exactly the money that was in the pots.
#[verifier::loop_isolation(false)]
pub fn award_pots(
    hands: &Vec<ShowdownHand>,
    pots: &Vec<SidePot>,
    dealer_seat: u8,
    num_seats: usize,
) -> (r: Vec<Winner>)
    requires
        0 < num_seats <= 255,
        hands_distinct(hands@),
        crate::pots::sum_pots(pots@) <= u64::MAX,
        forall|p: int|
            0 <= p < pots@.len() ==> (#[trigger] pots@[p]).eligible_players@.len() > 0,
        forall|p: int, q: int|
            0 <= p < pots@.len() && 0 <= q < pots@[p].eligible_players@.len() ==> exists|h: int|
                0 <= h < hands@.len() && (#[trigger] hands@[h]).seat == #[trigger] pots@[
                    p
                ].eligible_players@[q],
    ensures
        sum_winners(r@) == crate::pots::sum_pots(pots@),
        forall|w: int|
            0 <= w < r@.len() ==> exists|h: int|
                0 <= h < hands@.len() && (#[trigger] r@[w]).seat == hands@[h].seat && r@[w].principal
                    == hands@[h].principal,
        forall|p: int, q: int| 0 <= p < q < r@.len() ==> r@[p].seat != r@[q].seat,
{
    let mut winners: Vec<Winner> = Vec::new();
    let mut pi: usize = 0;
    proof {
        assert(pots@.take(0) =~= Seq::<SidePot>::empty());
        lemma_sum_pots_prefix(pots@, 0);
    }
    while pi < pots.len()
        invariant
            pi <= pots@.len(),
            sum_winners(winners@) == crate::pots::sum_pots(pots@.take(pi as int)),
            forall|w: int|
                0 <= w < winners@.len() ==> exists|h: int|
                    0 <= h < hands@.len() && (#[trigger] winners@[w]).seat == hands@[h].seat
                        && winners@[w].principal == hands@[h].principal,
            forall|p: int, q: int|
                0 <= p < q < winners@.len() ==> winners@[p].seat != winners@[q].seat,
        decreases pots@.len() - pi,
    {
        let amount = pots[pi].amount;
        proof {
            // A winner exists for this pot: its first eligible seat has a
            // hand.
            assert(exists|h: int|
                0 <= h < hands@.len() && (#[trigger] hands@[h]).seat == pots@[pi as int].eligible_players@[0]);
            let h0 = choose|h: int|
                0 <= h < hands@.len() && (#[trigger] hands@[h]).seat == pots@[pi as int].eligible_players@[0];
            assert(pots@[pi as int].eligible_players@.contains(hands@[h0].seat)) by {
                assert(pots@[pi as int].eligible_players@[0] == hands@[h0].seat);
            }
        }
        let (seats, _best) = pot_winner_seats(hands, &pots[pi].eligible_players);
        let payouts = distribute_pot(amount, &seats, dealer_seat, num_seats);
        // Fold the payouts into the per-seat totals.
        let mut wi: usize = 0;
        let ghost sum_before = sum_winners(winners@);
        proof {
            assert(payouts@.take(0) =~= Seq::<(u8, u64)>::empty());
            lemma_sum_pots_prefix(pots@, pi + 1);
            assert(pots@.take(pi + 1).drop_last() =~= pots@.take(pi as int));
            assert(pots@.take(pi + 1).last() == pots@[pi as int]);
            lemma_sum_pots_entry(pots@, pi as int);
        }
        while wi < payouts.len()
            invariant
                wi <= payouts@.len(),
                sum_winners(winners@) == sum_before + sum_payout(payouts@.take(wi as int)),
                sum_winners(winners@) <= crate::pots::sum_pots(pots@),
                forall|w: int|
                    0 <= w < winners@.len() ==> exists|h: int|
                        0 <= h < hands@.len() && (#[trigger] winners@[w]).seat == hands@[h].seat
                            && winners@[w].principal == hands@[h].principal,
                forall|p: int, q: int|
                    0 <= p < q < winners@.len() ==> winners@[p].seat != winners@[q].seat,
            decreases payouts@.len() - wi,
        {
            let (seat, amt) = payouts[wi];
            proof {
                assert(payouts@.take(wi + 1).drop_last() =~= payouts@.take(wi as int));
                assert(payouts@.take(wi + 1).last() == payouts@[wi as int]);
                lemma_sum_payout_prefix(payouts@, wi + 1);
                lemma_sum_winners_nonneg(winners@);
            }
            // The winning seat holds a hand.
            proof {
                let q = choose|q: int|
                    is_best_eligible(hands@, pots@[pi as int].eligible_players@, q) && hands@[
                        q
                    ].seat == seats@[wi as int];
            }
            let mut found: Option<usize> = None;
            let mut si: usize = 0;
            while si < winners.len()
                invariant
                    si <= winners@.len(),
                    match found {
                        Some(f) => f < winners@.len() && winners@[f as int].seat == seat,
                        None => forall|m: int|
                            0 <= m < si ==> (#[trigger] winners@[m]).seat != seat,
                    },
                decreases winners@.len() - si,
            {
                if winners[si].seat == seat {
                    found = Some(si);
                    break ;
                }
                si = si + 1;
            }
            let ghost wlist_before = winners@;
            match found {
                Some(f) => {
                    proof {
                        lemma_sum_winners_entry(winners@, f as int);
                    }
                    let prev = winners[f].amount;
                    let cards = winners[f].cards;
                    let principal = winners[f].principal;
                    let rank = match &winners[f].hand_rank {
                        Some(hr) => Some(clone_rank(hr)),
                        None => None,
                    };
                    let w2 = Winner { seat, principal, amount: prev + amt, hand_rank: rank, cards };
                    winners.set(f, w2);
                    proof {
                        lemma_sum_winners_update_amount(wlist_before, f as int, w2);
                        assert forall|w: int|
                            0 <= w < winners@.len() implies exists|h: int|
                            0 <= h < hands@.len() && (#[trigger] winners@[w]).seat == hands@[
                                h
                            ].seat && winners@[w].principal == hands@[h].principal by {
                            if w != f {
                                assert(winners@[w] == wlist_before[w]);
                            } else {
                                let h = choose|h: int|
                                    0 <= h < hands@.len() && (#[trigger] wlist_before[w]).seat
                                        == hands@[h].seat && wlist_before[w].principal == hands@[
                                        h
                                    ].principal;
                                assert(winners@[w].seat == hands@[h].seat && winners@[w].principal
                                    == hands@[h].principal);
                            }
                        }
                    }
                },
                None => {
                    // New winning seat: look its hand up for the record.
                    let mut hi: usize = 0;
                    let mut hfound: usize = 0;
                    proof {
                        let q = choose|q: int|
                            is_best_eligible(hands@, pots@[pi as int].eligible_players@, q)
                                && hands@[q].seat == seats@[wi as int];
                    }
                    while hi < hands.len()
                        invariant
                            hi <= hands@.len(),
                            exists|h: int| 0 <= h < hands@.len() && (#[trigger] hands@[h]).seat == seat,
                            forall|m: int| 0 <= m < hi ==> (#[trigger] hands@[m]).seat != seat,
                        decreases hands@.len() - hi,
                    {
                        if hands[hi].seat == seat {
                            hfound = hi;
                            break ;
                        }
                        hi = hi + 1;
                    }
                    proof {
                        if hi == hands@.len() {
                            let h = choose|h: int|
                                0 <= h < hands@.len() && (#[trigger] hands@[h]).seat == seat;
                            assert(false);
                        }
                    }
                    let w2 = Winner {
                        seat,
                        principal: hands[hfound].principal,
                        amount: amt,
                        hand_rank: Some(clone_rank(&hands[hfound].rank)),
                        cards: Some(hands[hfound].cards),
                    };
                    winners.push(w2);
                    proof {
                        lemma_sum_winners_push(wlist_before, winners@.last());
                        assert(winners@.drop_last() =~= wlist_before);
                        assert forall|p: int, q: int|
                            0 <= p < q < winners@.len() implies winners@[p].seat != winners@[
                            q
                        ].seat by {
                            if q < winners@.len() - 1 {
                                assert(winners@[p] == wlist_before[p] && winners@[q]
                                    == wlist_before[q]);
                            } else {
                                assert(winners@[p] == wlist_before[p]);
                            }
                        }
                    }
                },
            }
            wi = wi + 1;
        }
        proof {
            assert(payouts@.take(payouts@.len() as int) =~= payouts@);
        }
        pi = pi + 1;
    }
    proof {
        assert(pots@.take(pots@.len() as int) =~= pots@);
    }
    winners
}

proof fn lemma_sum_pots_prefix(ps: Seq<SidePot>, k: int)
    requires
        0 <= k <= ps.len(),
    ensures
        0 <= crate::pots::sum_pots(ps.take(k)) <= crate::pots::sum_pots(ps),
    decreases ps.len() - k,
{
    if k == ps.len() {
        assert(ps.take(k) =~= ps);
        lemma_sum_pots_nonneg2(ps);
    } else {
        lemma_sum_pots_prefix(ps, k + 1);
        assert(ps.take(k + 1).drop_last() =~= ps.take(k));
        assert(crate::pots::sum_pots(ps.take(k + 1)) == crate::pots::sum_pots(ps.take(k))
            + ps[k].amount);
        lemma_sum_pots_nonneg2(ps.take(k));
    }
}

proof fn lemma_sum_pots_nonneg2(ps: Seq<SidePot>)
    ensures
        crate::pots::sum_pots(ps) >= 0,
    decreases ps.len(),
{
    if ps.len() > 0 {
        lemma_sum_pots_nonneg2(ps.drop_last());
    }
}

proof fn lemma_sum_pots_entry(ps: Seq<SidePot>, i: int)
    requires
        0 <= i < ps.len(),
    ensures
        ps[i].amount <= crate::pots::sum_pots(ps),
    decreases ps.len(),
{
    lemma_sum_pots_nonneg2(ps.drop_last());
    if i < ps.len() - 1 {
        assert(ps.drop_last()[i] == ps[i]);
        lemma_sum_pots_entry(ps.drop_last(), i);
    }
}

proof fn lemma_sum_payout_prefix(s: Seq<(u8, u64)>, k: int)
    requires
        0 <= k <= s.len(),
    ensures
        0 <= sum_payout(s.take(k)) <= sum_payout(s),
    decreases s.len() - k,
{
    if k == s.len() {
        assert(s.take(k) =~= s);
        lemma_sum_payout_nonneg(s);
    } else {
        lemma_sum_payout_prefix(s, k + 1);
        assert(s.take(k + 1).drop_last() =~= s.take(k));
        assert(sum_payout(s.take(k + 1)) == sum_payout(s.take(k)) + s[k].1);
        lemma_sum_payout_nonneg(s.take(k));
    }
}

proof fn lemma_sum_payout_nonneg(s: Seq<(u8, u64)>)
    ensures
        sum_payout(s) >= 0,
    decreases s.len(),
{
    if s.len() > 0 {
        lemma_sum_payout_nonneg(s.drop_last());
    }
}

} // verus!
