//! Side-pot construction and pot-remainder seat selection.
//!
//! When players are all-in for different amounts the money is layered into
//! pots: walking the distinct bet levels upward, each layer collects the
//! slice between the previous level and this one from every seat that bet
//! into it.  A seat that folded still funds every layer its chips reached,
//! but is eligible to win none of them.

use vstd::prelude::*;

verus! {

/// One layer of the pot and the seats that may win it.
#[derive(Clone, Debug)]
pub struct SidePot {
    pub amount: u64,
    pub eligible_players: Vec<u8>,
}

/// What one seat has put into the pot this hand.
#[derive(Clone, Copy, Debug)]
pub struct PlayerContribution {
    pub seat: u8,
    pub total_bet: u64,
    pub has_folded: bool,
    pub is_all_in: bool,
}

/// A bet counted only up to a level.
pub open spec fn capped(bet: u64, cap: int) -> int {
    if bet as int <= cap {
        bet as int
    } else {
        cap
    }
}

/// Sum of all bets, each counted only up to `cap`.
pub open spec fn sum_capped(cs: Seq<PlayerContribution>, cap: int) -> int
    decreases cs.len(),
{
    if cs.len() == 0 {
        0
    } else {
        sum_capped(cs.drop_last(), cap) + capped(cs.last().total_bet, cap)
    }
}

/// Sum of all bets.
pub open spec fn sum_bets(cs: Seq<PlayerContribution>) -> int
    decreases cs.len(),
{
    if cs.len() == 0 {
        0
    } else {
        sum_bets(cs.drop_last()) + cs.last().total_bet
    }
}

/// Sum of the pot amounts.
pub open spec fn sum_pots(ps: Seq<SidePot>) -> int
    decreases ps.len(),
{
    if ps.len() == 0 {
        0
    } else {
        sum_pots(ps.drop_last()) + ps.last().amount
    }
}

/// Some seat is still in contention for its money.
pub open spec fn has_live_contributor(cs: Seq<PlayerContribution>) -> bool {
    exists|k: int| 0 <= k < cs.len() && !cs[k].has_folded && cs[k].total_bet > 0
}

/// The seat belongs to a contributor that has money in and has not folded.
pub open spec fn seat_is_live(cs: Seq<PlayerContribution>, s: u8) -> bool {
    exists|k: int| 0 <= k < cs.len() && cs[k].seat == s && !cs[k].has_folded && cs[k].total_bet > 0
}

/// Every pot can be won: its eligible seats are non-empty, and each belongs
/// to a contributor that has money in and has not folded.
pub open spec fn pot_eligible_ok(p: SidePot, cs: Seq<PlayerContribution>) -> bool {
    p.eligible_players@.len() > 0 && (forall|q: int|
        0 <= q < p.eligible_players@.len() ==> seat_is_live(cs, #[trigger] p.eligible_players@[q]))
}

pub open spec fn pots_eligible_ok(ps: Seq<SidePot>, cs: Seq<PlayerContribution>) -> bool {
    forall|p: int| 0 <= p < ps.len() ==> pot_eligible_ok(#[trigger] ps[p], cs)
}

pub proof fn lemma_sum_capped_bounds(cs: Seq<PlayerContribution>, c1: int, c2: int)
    requires
        0 <= c1 <= c2,
    ensures
        0 <= sum_capped(cs, c1) <= sum_capped(cs, c2) <= sum_bets(cs),
    decreases cs.len(),
{
    if cs.len() > 0 {
        lemma_sum_capped_bounds(cs.drop_last(), c1, c2);
    }
}

pub proof fn lemma_sum_bets_nonneg(cs: Seq<PlayerContribution>)
    ensures
        sum_bets(cs) >= 0,
    decreases cs.len(),
{
    if cs.len() > 0 {
        lemma_sum_bets_nonneg(cs.drop_last());
    }
}

proof fn lemma_sum_bets_prefix(cs: Seq<PlayerContribution>, k: int)
    requires
        0 <= k <= cs.len(),
    ensures
        sum_bets(cs.take(k)) <= sum_bets(cs),
        sum_bets(cs.take(k)) >= 0,
    decreases cs.len() - k,
{
    if k == cs.len() {
        assert(cs.take(k) =~= cs);
        lemma_sum_bets_nonneg(cs);
    } else {
        lemma_sum_bets_prefix(cs, k + 1);
        assert(cs.take(k + 1).drop_last() =~= cs.take(k));
        assert(sum_bets(cs.take(k + 1)) == sum_bets(cs.take(k)) + cs[k].total_bet);
        lemma_sum_bets_nonneg(cs.take(k));
    }
}

proof fn lemma_sum_pots_nonneg(ps: Seq<SidePot>)
    ensures
        sum_pots(ps) >= 0,
    decreases ps.len(),
{
    if ps.len() > 0 {
        lemma_sum_pots_nonneg(ps.drop_last());
    }
}

/// Stepping a prefix sum by one contribution.
proof fn lemma_sum_capped_take_step(cs: Seq<PlayerContribution>, cap: int, k: int)
    requires
        0 <= k < cs.len(),
    ensures
        sum_capped(cs.take(k + 1), cap) == sum_capped(cs.take(k), cap) + capped(
            cs[k].total_bet,
            cap,
        ),
{
    assert(cs.take(k + 1).drop_last() =~= cs.take(k));
    assert(cs.take(k + 1).last() == cs[k]);
}

/// Capping at level zero counts nothing.
proof fn lemma_sum_capped_zero(cs: Seq<PlayerContribution>)
    ensures
        sum_capped(cs, 0) == 0,
    decreases cs.len(),
{
    if cs.len() > 0 {
        lemma_sum_capped_zero(cs.drop_last());
    }
}

/// Pushing a pot adds its amount to the total.
proof fn lemma_sum_pots_push(ps: Seq<SidePot>, p: SidePot)
    ensures
        sum_pots(ps.push(p)) == sum_pots(ps) + p.amount,
{
    assert(ps.push(p).drop_last() =~= ps);
}

/// A strictly ascending sequence of levels.
pub open spec fn strictly_ascending(v: Seq<u64>) -> bool {
    forall|i: int, j: int| 0 <= i < j < v.len() ==> v[i] < v[j]
}

/// Inserts a value into an ascending sequence, keeping it ascending and
/// duplicate-free.
fn insert_sorted_unique(v: &mut Vec<u64>, x: u64)
    requires
        strictly_ascending(old(v)@),
    ensures
        strictly_ascending(final(v)@),
        forall|y: u64| final(v)@.contains(y) <==> (old(v)@.contains(y) || y == x),
{
    let mut idx: usize = 0;
    while idx < v.len() && v[idx] < x
        invariant
            strictly_ascending(v@),
            v@ == old(v)@,
            idx <= v@.len(),
            forall|m: int| 0 <= m < idx ==> v@[m] < x,
        decreases v@.len() - idx,
    {
        idx = idx + 1;
    }
    if idx < v.len() {
        let cur = v[idx];
        if cur == x {
            proof {
                assert(v@.contains(x));
            }
            return ;
        }
    }
    let ghost before = v@;
    proof {
        assert(idx < before.len() ==> before[idx as int] > x);
    }
    v.insert(idx, x);
    proof {
        let n = before.len() as int;
        let ix = idx as int;
        before.insert_ensures(ix, x);
        assert(v@ == before.insert(ix, x));
        assert forall|i: int, j: int| 0 <= i < j < v@.len() implies v@[i] < v@[j] by {
            if j < ix {
                assert(v@[i] == before[i] && v@[j] == before[j]);
            } else if j == ix {
                assert(v@[j] == x && v@[i] == before[i]);
            } else if i < ix {
                assert(v@[i] == before[i] && v@[j] == before[j - 1]);
                assert(before[j - 1] >= before[ix]);
            } else if i == ix {
                assert(v@[i] == x && v@[j] == before[j - 1]);
                assert(before[j - 1] >= before[ix]);
            } else {
                assert(v@[i] == before[i - 1] && v@[j] == before[j - 1]);
            }
        }
        assert forall|y: u64| v@.contains(y) <==> (before.contains(y) || y == x) by {
            if v@.contains(y) {
                let w = choose|w: int| 0 <= w < v@.len() && v@[w] == y;
                if w < ix {
                    assert(before[w] == y);
                } else if w > ix {
                    assert(before[w - 1] == y);
                }
            }
            if before.contains(y) {
                let w = choose|w: int| 0 <= w < before.len() && before[w] == y;
                if w < ix {
                    assert(v@[w] == y);
                } else {
                    assert(v@[w + 1] == y);
                }
            }
            if y == x {
                assert(v@[ix] == x);
            }
        }
    }
}

/// The distinct positive bet levels, ascending.
fn bet_levels(cs: &Vec<PlayerContribution>) -> (r: Vec<u64>)
    ensures
        strictly_ascending(r@),
        forall|y: u64|
            r@.contains(y) <==> (y > 0 && exists|k: int|
                0 <= k < cs@.len() && cs@[k].total_bet == y),
{
    let mut levels: Vec<u64> = Vec::new();
    let mut k: usize = 0;
    while k < cs.len()
        invariant
            k <= cs@.len(),
            strictly_ascending(levels@),
            forall|y: u64|
                levels@.contains(y) <==> (y > 0 && exists|m: int|
                    0 <= m < k && cs@[m].total_bet == y),
        decreases cs@.len() - k,
    {
        let bet = cs[k].total_bet;
        if bet > 0 {
            insert_sorted_unique(&mut levels, bet);
        }
        k = k + 1;
    }
    levels
}

/// Builds the side pots from the seats' total bets.
///
/// Every pot's amount is funded by the layer of each bet that lies between
/// the previous level and this pot's level; folded seats fund the layers
/// their chips reached but are eligible for none.  Whenever some non-folded
/// seat has money in the pot, the pot amounts add up to exactly
/// `total_pot`; when every contributor folded, no pots are built.  Money in
/// `total_pot` beyond the listed bets (seats that left mid-hand) tops up
/// the last pot.
pub fn calculate_side_pots(contributions: &Vec<PlayerContribution>, total_pot: u64) -> (r: Vec<
    SidePot,
>)
    requires
        sum_bets(contributions@) <= total_pot as int,
    ensures
        has_live_contributor(contributions@) ==> sum_pots(r@) == total_pot as int,
        !has_live_contributor(contributions@) ==> r@.len() == 0,
        pots_eligible_ok(r@, contributions@),
{
    let cs = contributions;
    let levels = bet_levels(cs);
    let mut pots: Vec<SidePot> = Vec::new();
    let mut allocated: u64 = 0;
    let mut processed: u64 = 0;
    let mut li: usize = 0;
    proof {
        lemma_sum_bets_nonneg(cs@);
        lemma_sum_capped_zero(cs@);
        if levels@.len() > 0 {
            assert(levels@.contains(levels@[0]));
        }
    }
    while li < levels.len()
        invariant
            sum_bets(cs@) <= total_pot as int,
            strictly_ascending(levels@),
            forall|y: u64|
                levels@.contains(y) <==> (y > 0 && exists|k: int|
                    0 <= k < cs@.len() && cs@[k].total_bet == y),
            li <= levels@.len(),
            li < levels@.len() ==> processed < levels@[li as int],
            li == 0 ==> processed == 0,
            allocated as int == sum_capped(cs@, processed as int),
            has_live_contributor(cs@) ==> allocated as int == sum_pots(pots@),
            pots_eligible_ok(pots@, cs@),
            has_live_contributor(cs@) && li > 0 ==> pots@.len() > 0,
            !has_live_contributor(cs@) ==> pots@.len() == 0,
        decreases levels@.len() - li,
    {
        let level = levels[li];
        proof {
            assert(levels@.contains(level));
        }
        // Gather this layer's money and its eligible seats in one pass.
        let mut layer: u64 = 0;
        let mut eligible: Vec<u8> = Vec::new();
        let mut k: usize = 0;
        proof {
            assert(cs@.take(0) =~= Seq::<PlayerContribution>::empty());
        }
        while k < cs.len()
            invariant
                sum_bets(cs@) <= total_pot as int,
                processed < level,
                k <= cs@.len(),
                layer as int == sum_capped(cs@.take(k as int), level as int) - sum_capped(
                    cs@.take(k as int),
                    processed as int,
                ),
                forall|q: int|
                    0 <= q < eligible@.len() ==> seat_is_live(cs@, #[trigger] eligible@[q]),
                forall|m: int|
                    0 <= m < k && !cs@[m].has_folded && cs@[m].total_bet >= level
                        ==> eligible@.contains(cs@[m].seat),
            decreases cs@.len() - k,
        {
            let c = cs[k];
            let piece: u64 = if c.total_bet <= processed {
                0
            } else if c.total_bet >= level {
                level - processed
            } else {
                c.total_bet - processed
            };
            proof {
                lemma_sum_capped_take_step(cs@, level as int, k as int);
                lemma_sum_capped_take_step(cs@, processed as int, k as int);
                lemma_sum_capped_bounds(cs@.take(k + 1), processed as int, level as int);
                lemma_sum_bets_prefix(cs@, k + 1);
            }
            layer = layer + piece;
            let ghost elig_before = eligible@;
            if !c.has_folded && c.total_bet >= level {
                proof {
                    assert(seat_is_live(cs@, c.seat)) by {
                        assert(0 <= k < cs@.len() && cs@[k as int].seat == c.seat && !cs@[
                            k as int
                        ].has_folded && cs@[k as int].total_bet > 0);
                    }
                }
                eligible.push(c.seat);
            }
            proof {
                assert forall|m: int|
                    0 <= m < k + 1 && !cs@[m].has_folded && cs@[m].total_bet
                        >= level implies eligible@.contains(cs@[m].seat) by {
                    if m < k {
                        let q = choose|q: int|
                            0 <= q < elig_before.len() && elig_before[q] == cs@[m].seat;
                        assert(eligible@[q] == cs@[m].seat);
                    } else {
                        assert(eligible@[eligible@.len() - 1] == cs@[m].seat);
                    }
                }
            }
            k = k + 1;
        }
        proof {
            assert(cs@.take(cs@.len() as int) =~= cs@);
            lemma_sum_capped_bounds(cs@, processed as int, level as int);
            // On the first level a live contributor is always eligible, so
            // the first layer always builds a pot.
            if li == 0 && has_live_contributor(cs@) {
                let w = choose|w: int|
                    0 <= w < cs@.len() && !cs@[w].has_folded && cs@[w].total_bet > 0;
                assert(levels@.contains(cs@[w].total_bet));
                let wi = choose|wi: int| 0 <= wi < levels@.len() && levels@[wi] == cs@[
                    w
                ].total_bet;
                assert(levels@[0] <= levels@[wi]);
                assert(cs@[w].total_bet >= level);
                assert(eligible@.contains(cs@[w].seat));
            }
        }
        // Any seat whose bet reached this level and did not fold wins a
        // share; if every such seat folded, the layer rolls into the pot
        // below, or failing that into one for the seats still in the hand.
        if eligible.len() > 0 {
            let pot = SidePot { amount: layer, eligible_players: eligible };
            proof {
                lemma_sum_pots_push(pots@, pot);
                assert(seat_is_live(cs@, pot.eligible_players@[0]));
                let kk = choose|kk: int|
                    0 <= kk < cs@.len() && cs@[kk].seat == pot.eligible_players@[0] && !cs@[
                        kk
                    ].has_folded && cs@[kk].total_bet > 0;
                assert(has_live_contributor(cs@));
            }
            pots.push(pot);
        } else if layer > 0 {
            if pots.len() > 0 {
                let last = match pots.pop() {
                    Some(p) => p,
                    None => SidePot { amount: 0, eligible_players: Vec::new() },
                };
                proof {
                    lemma_sum_pots_nonneg(pots@);
                }
                let merged = SidePot {
                    amount: last.amount + layer,
                    eligible_players: last.eligible_players,
                };
                proof {
                    lemma_sum_pots_push(pots@, merged);
                }
                pots.push(merged);
            } else {
                let mut any_eligible: Vec<u8> = Vec::new();
                let mut m: usize = 0;
                while m < cs.len()
                    invariant
                        m <= cs@.len(),
                        forall|q: int|
                            0 <= q < any_eligible@.len() ==> seat_is_live(
                                cs@,
                                #[trigger] any_eligible@[q],
                            ),
                        forall|w: int|
                            0 <= w < m && !cs@[w].has_folded && cs@[w].total_bet > 0
                                ==> any_eligible@.contains(cs@[w].seat),
                    decreases cs@.len() - m,
                {
                    let c = cs[m];
                    let ghost any_before = any_eligible@;
                    if !c.has_folded && c.total_bet > 0 {
                        proof {
                            assert(seat_is_live(cs@, c.seat)) by {
                                assert(0 <= m < cs@.len() && cs@[m as int].seat == c.seat && !cs@[
                                    m as int
                                ].has_folded && cs@[m as int].total_bet > 0);
                            }
                        }
                        any_eligible.push(c.seat);
                    }
                    proof {
                        assert forall|w: int|
                            0 <= w < m + 1 && !cs@[w].has_folded && cs@[w].total_bet
                                > 0 implies any_eligible@.contains(cs@[w].seat) by {
                            if w < m {
                                let q = choose|q: int|
                                    0 <= q < any_before.len() && any_before[q] == cs@[w].seat;
                                assert(any_eligible@[q] == cs@[w].seat);
                            } else {
                                assert(any_eligible@[any_eligible@.len() - 1] == cs@[w].seat);
                            }
                        }
                    }
                    m = m + 1;
                }
                if any_eligible.len() > 0 {
                    let pot = SidePot { amount: layer, eligible_players: any_eligible };
                    proof {
                        lemma_sum_pots_push(pots@, pot);
                        assert(seat_is_live(cs@, pot.eligible_players@[0]));
                        let kk = choose|kk: int|
                            0 <= kk < cs@.len() && cs@[kk].seat == pot.eligible_players@[0]
                                && !cs@[kk].has_folded && cs@[kk].total_bet > 0;
                        assert(has_live_contributor(cs@));
                    }
                    pots.push(pot);
                }
            }
        }
        allocated = allocated + layer;
        processed = level;
        li = li + 1;
    }
    proof {
        if has_live_contributor(cs@) {
            let w = choose|w: int| 0 <= w < cs@.len() && !cs@[w].has_folded && cs@[w].total_bet
                > 0;
            assert(levels@.contains(cs@[w].total_bet));
            assert(levels@.len() > 0);
        }
        lemma_sum_capped_bounds(cs@, 0, processed as int);
    }
    // Money in the pot beyond the listed bets tops up the last pot.
    if allocated < total_pot && pots.len() > 0 {
        let remaining = total_pot - allocated;
        let last = match pots.pop() {
            Some(p) => p,
            None => SidePot { amount: 0, eligible_players: Vec::new() },
        };
        proof {
            lemma_sum_pots_nonneg(pots@);
        }
        let merged = SidePot {
            amount: last.amount + remaining,
            eligible_players: last.eligible_players,
        };
        proof {
            lemma_sum_pots_push(pots@, merged);
        }
        pots.push(merged);
    }
    pots
}

/// The first seat clockwise from the dealer among `seats`, walking offsets
/// `off` and up; after a full turn of the table it falls back to the first
/// listed seat.
pub open spec fn first_clockwise_spec(dealer: int, seats: Seq<u8>, n: int, off: int) -> u8
    decreases (if off <= n { n + 1 - off } else { 0 }),
{
    if off > n || n <= 0 {
        if seats.len() > 0 {
            seats[0]
        } else {
            0u8
        }
    } else {
        let cand = (((dealer + off) % n) as u8);
        if seats.contains(cand) {
            cand
        } else {
            first_clockwise_spec(dealer, seats, n, off + 1)
        }
    }
}

/// The seat that takes a pot's odd chip: the first eligible seat clockwise
/// from the dealer button.
pub open spec fn spec_first_clockwise_from_dealer(dealer: int, seats: Seq<u8>, n: int) -> u8 {
    first_clockwise_spec(dealer, seats, n, 1)
}

/// Does the vector hold the value?
pub fn contains_seat(v: &Vec<u8>, x: u8) -> (r: bool)
    ensures
        r == v@.contains(x),
{
    let mut k: usize = 0;
    while k < v.len()
        invariant
            k <= v@.len(),
            forall|m: int| 0 <= m < k ==> v@[m] != x,
        decreases v@.len() - k,
    {
        if v[k] == x {
            return true;
        }
        k = k + 1;
    }
    false
}

/// Finds the first seat clockwise from the dealer among the given seats.
/// Pot remainders go to this seat.
pub fn first_clockwise_from_dealer(dealer_seat: u8, seats: &Vec<u8>, num_seats: usize) -> (r: u8)
    requires
        0 < num_seats <= 255,
        seats@.len() > 0,
    ensures
        r == spec_first_clockwise_from_dealer(dealer_seat as int, seats@, num_seats as int),
        seats@.contains(r),
{
    let mut off: usize = 1;
    while off <= num_seats
        invariant
            0 < num_seats <= 255,
            seats@.len() > 0,
            1 <= off <= num_seats + 1,
            spec_first_clockwise_from_dealer(dealer_seat as int, seats@, num_seats as int)
                == first_clockwise_spec(dealer_seat as int, seats@, num_seats as int, off as int),
        decreases num_seats + 1 - off,
    {
        let cand = ((dealer_seat as usize + off) % num_seats) as u8;
        proof {
            assert(cand as int == (dealer_seat as int + off as int) % (num_seats as int));
        }
        if contains_seat(seats, cand) {
            return cand;
        }
        off = off + 1;
    }
    seats[0]
}

} // verus!
