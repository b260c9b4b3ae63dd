//! Seven-card hand evaluation under the standard poker ordering.
//!
//! A hand's strength is the best five-card rank among all five-card
//! subsets of the available cards.  Categories order as Royal Flush >
//! Straight Flush > Four of a Kind > Full House > Flush > Straight >
//! Three of a Kind > Two Pair > Pair > High Card, with lexicographic
//! tie-breaks inside a category.  The wheel (Ace-2-3-4-5) is a straight
//! whose high card is the Five.

use vstd::prelude::*;

use vstd::multiset::Multiset;

use crate::cards::{Card, Rank, Suit, rank_value};

verus! {

/// A five-card rank.  Tie-break fields hold card values descending.
#[derive(Clone, Debug, PartialEq, Eq, PartialOrd, Ord, Hash)]
pub enum HandRank {
    HighCard(Vec<u8>),
    Pair(u8, Vec<u8>),
    TwoPair(u8, u8, u8),
    ThreeOfAKind(u8, Vec<u8>),
    Straight(u8),
    Flush(Vec<u8>),
    FullHouse(u8, u8),
    FourOfAKind(u8, u8),
    StraightFlush(u8),
    RoyalFlush,
}

/// The mathematical value of a `HandRank`.
pub enum HandRankSpec {
    HighCard(Seq<u8>),
    Pair(u8, Seq<u8>),
    TwoPair(u8, u8, u8),
    ThreeOfAKind(u8, Seq<u8>),
    Straight(u8),
    Flush(Seq<u8>),
    FullHouse(u8, u8),
    FourOfAKind(u8, u8),
    StraightFlush(u8),
    RoyalFlush,
}

impl View for HandRank {
    type V = HandRankSpec;

    open spec fn view(&self) -> HandRankSpec {
        match self {
            HandRank::HighCard(v) => HandRankSpec::HighCard(v@),
            HandRank::Pair(p, v) => HandRankSpec::Pair(*p, v@),
            HandRank::TwoPair(a, b, c) => HandRankSpec::TwoPair(*a, *b, *c),
            HandRank::ThreeOfAKind(t, v) => HandRankSpec::ThreeOfAKind(*t, v@),
            HandRank::Straight(h) => HandRankSpec::Straight(*h),
            HandRank::Flush(v) => HandRankSpec::Flush(v@),
            HandRank::FullHouse(t, p) => HandRankSpec::FullHouse(*t, *p),
            HandRank::FourOfAKind(q, k) => HandRankSpec::FourOfAKind(*q, *k),
            HandRank::StraightFlush(h) => HandRankSpec::StraightFlush(*h),
            HandRank::RoyalFlush => HandRankSpec::RoyalFlush,
        }
    }
}

/// Category number of a rank: higher categories beat lower ones.
pub open spec fn cat_of(h: HandRankSpec) -> int {
    match h {
        HandRankSpec::HighCard(_) => 0,
        HandRankSpec::Pair(_, _) => 1,
        HandRankSpec::TwoPair(_, _, _) => 2,
        HandRankSpec::ThreeOfAKind(_, _) => 3,
        HandRankSpec::Straight(_) => 4,
        HandRankSpec::Flush(_) => 5,
        HandRankSpec::FullHouse(_, _) => 6,
        HandRankSpec::FourOfAKind(_, _) => 7,
        HandRankSpec::StraightFlush(_) => 8,
        HandRankSpec::RoyalFlush => 9,
    }
}

/// The tie-break values of a rank, most significant first.
pub open spec fn tie_of(h: HandRankSpec) -> Seq<u8> {
    match h {
        HandRankSpec::HighCard(v) => v,
        HandRankSpec::Pair(p, v) => seq![p] + v,
        HandRankSpec::TwoPair(a, b, c) => seq![a, b, c],
        HandRankSpec::ThreeOfAKind(t, v) => seq![t] + v,
        HandRankSpec::Straight(h) => seq![h],
        HandRankSpec::Flush(v) => v,
        HandRankSpec::FullHouse(t, p) => seq![t, p],
        HandRankSpec::FourOfAKind(q, k) => seq![q, k],
        HandRankSpec::StraightFlush(h) => seq![h],
        HandRankSpec::RoyalFlush => Seq::empty(),
    }
}

/// Lexicographic order on value sequences; a proper prefix is smaller.
pub open spec fn seq_lt(a: Seq<u8>, b: Seq<u8>) -> bool
    decreases a.len(),
{
    if b.len() == 0 {
        false
    } else if a.len() == 0 {
        true
    } else if a[0] < b[0] {
        true
    } else if a[0] > b[0] {
        false
    } else {
        seq_lt(a.drop_first(), b.drop_first())
    }
}

/// The standard ordering on hand ranks: category first, then tie-breaks.
pub open spec fn rank_lt(a: HandRankSpec, b: HandRankSpec) -> bool {
    cat_of(a) < cat_of(b) || (cat_of(a) == cat_of(b) && seq_lt(tie_of(a), tie_of(b)))
}

proof fn lemma_seq_lt_trichotomy(a: Seq<u8>, b: Seq<u8>)
    ensures
        seq_lt(a, b) || seq_lt(b, a) || a == b,
        seq_lt(a, b) ==> !seq_lt(b, a) && a != b,
    decreases a.len() + b.len(),
{
    if a.len() > 0 && b.len() > 0 && a[0] == b[0] {
        lemma_seq_lt_trichotomy(a.drop_first(), b.drop_first());
        if a.drop_first() == b.drop_first() {
            assert(a.len() == b.len());
            assert forall|i: int| 0 <= i < a.len() implies a[i] == b[i] by {
                if i > 0 {
                    assert(a[i] == a.drop_first()[i - 1]);
                    assert(b[i] == b.drop_first()[i - 1]);
                }
            }
            assert(a =~= b);
        }
        if a == b {
            assert(a.drop_first() =~= b.drop_first());
        }
    } else if a == b {
        assert(a.len() == b.len());
        if a.len() > 0 {
            assert(a[0] == b[0]);
        }
    }
}

/// A category together with its tie-break values pins the rank down.
proof fn lemma_rank_injective(a: HandRankSpec, b: HandRankSpec)
    requires
        cat_of(a) == cat_of(b),
        tie_of(a) == tie_of(b),
    ensures
        a == b,
{
    match (a, b) {
        (HandRankSpec::Pair(p1, v1), HandRankSpec::Pair(p2, v2)) => {
            assert((seq![p1] + v1)[0] == p1);
            assert((seq![p2] + v2)[0] == p2);
            assert(v1 =~= (seq![p1] + v1).drop_first());
            assert(v2 =~= (seq![p2] + v2).drop_first());
        },
        (HandRankSpec::ThreeOfAKind(t1, v1), HandRankSpec::ThreeOfAKind(t2, v2)) => {
            assert((seq![t1] + v1)[0] == t1);
            assert((seq![t2] + v2)[0] == t2);
            assert(v1 =~= (seq![t1] + v1).drop_first());
            assert(v2 =~= (seq![t2] + v2).drop_first());
        },
        (HandRankSpec::TwoPair(a1, b1, c1), HandRankSpec::TwoPair(a2, b2, c2)) => {
            assert(seq![a1, b1, c1][0] == a1 && seq![a2, b2, c2][0] == a2);
            assert(seq![a1, b1, c1][1] == b1 && seq![a2, b2, c2][1] == b2);
            assert(seq![a1, b1, c1][2] == c1 && seq![a2, b2, c2][2] == c2);
        },
        (HandRankSpec::FullHouse(t1, p1), HandRankSpec::FullHouse(t2, p2)) => {
            assert(seq![t1, p1][0] == t1 && seq![t2, p2][0] == t2);
            assert(seq![t1, p1][1] == p1 && seq![t2, p2][1] == p2);
        },
        (HandRankSpec::FourOfAKind(q1, k1), HandRankSpec::FourOfAKind(q2, k2)) => {
            assert(seq![q1, k1][0] == q1 && seq![q2, k2][0] == q2);
            assert(seq![q1, k1][1] == k1 && seq![q2, k2][1] == k2);
        },
        (HandRankSpec::Straight(h1), HandRankSpec::Straight(h2)) => {
            assert(seq![h1][0] == h1 && seq![h2][0] == h2);
        },
        (HandRankSpec::StraightFlush(h1), HandRankSpec::StraightFlush(h2)) => {
            assert(seq![h1][0] == h1 && seq![h2][0] == h2);
        },
        _ => {},
    }
}

/// Ranks that neither beats the other are the same rank.
pub proof fn lemma_rank_total(a: HandRankSpec, b: HandRankSpec)
    ensures
        !rank_lt(a, b) && !rank_lt(b, a) ==> a == b,
        rank_lt(a, b) ==> !rank_lt(b, a) && a != b,
{
    lemma_seq_lt_trichotomy(tie_of(a), tie_of(b));
    if !rank_lt(a, b) && !rank_lt(b, a) {
        lemma_rank_injective(a, b);
    }
    if rank_lt(a, b) && a == b {
        assert(!seq_lt(tie_of(a), tie_of(a))) by {
            lemma_seq_lt_trichotomy(tie_of(a), tie_of(a));
        }
    }
}

/// Category of a rank.
fn rank_category(h: &HandRank) -> (r: u8)
    ensures
        r == cat_of(h@),
{
    match h {
        HandRank::HighCard(_) => 0,
        HandRank::Pair(_, _) => 1,
        HandRank::TwoPair(_, _, _) => 2,
        HandRank::ThreeOfAKind(_, _) => 3,
        HandRank::Straight(_) => 4,
        HandRank::Flush(_) => 5,
        HandRank::FullHouse(_, _) => 6,
        HandRank::FourOfAKind(_, _) => 7,
        HandRank::StraightFlush(_) => 8,
        HandRank::RoyalFlush => 9,
    }
}

/// Copies a value vector.
pub fn copy_values(v: &Vec<u8>) -> (r: Vec<u8>)
    ensures
        r@ == v@,
{
    let mut out: Vec<u8> = Vec::new();
    let mut k: usize = 0;
    while k < v.len()
        invariant
            k <= v@.len(),
            out@ =~= v@.take(k as int),
        decreases v@.len() - k,
    {
        out.push(v[k]);
        proof {
            assert(out@ =~= v@.take(k + 1));
        }
        k = k + 1;
    }
    proof {
        assert(v@.take(v@.len() as int) =~= v@);
    }
    out
}

/// The tie-break values of a rank.
fn tiebreak_values(h: &HandRank) -> (r: Vec<u8>)
    ensures
        r@ == tie_of(h@),
{
    match h {
        HandRank::HighCard(v) => copy_values(v),
        HandRank::Pair(p, v) => {
            let mut out: Vec<u8> = Vec::new();
            out.push(*p);
            let rest = copy_values(v);
            let r = push_all(out, &rest);
            proof {
                assert(r@ =~= seq![*p] + v@);
            }
            r
        },
        HandRank::TwoPair(a, b, c) => {
            let mut out: Vec<u8> = Vec::new();
            out.push(*a);
            out.push(*b);
            out.push(*c);
            proof {
                assert(out@ =~= seq![*a, *b, *c]);
            }
            out
        },
        HandRank::ThreeOfAKind(t, v) => {
            let mut out: Vec<u8> = Vec::new();
            out.push(*t);
            let rest = copy_values(v);
            let r = push_all(out, &rest);
            proof {
                assert(r@ =~= seq![*t] + v@);
            }
            r
        },
        HandRank::Straight(h) => {
            let mut out: Vec<u8> = Vec::new();
            out.push(*h);
            proof {
                assert(out@ =~= seq![*h]);
            }
            out
        },
        HandRank::Flush(v) => copy_values(v),
        HandRank::FullHouse(t, p) => {
            let mut out: Vec<u8> = Vec::new();
            out.push(*t);
            out.push(*p);
            proof {
                assert(out@ =~= seq![*t, *p]);
            }
            out
        },
        HandRank::FourOfAKind(q, k) => {
            let mut out: Vec<u8> = Vec::new();
            out.push(*q);
            out.push(*k);
            proof {
                assert(out@ =~= seq![*q, *k]);
            }
            out
        },
        HandRank::StraightFlush(h) => {
            let mut out: Vec<u8> = Vec::new();
            out.push(*h);
            proof {
                assert(out@ =~= seq![*h]);
            }
            out
        },
        HandRank::RoyalFlush => Vec::new(),
    }
}

/// Appends all values of `more` to `out`.
pub fn push_all(out: Vec<u8>, more: &Vec<u8>) -> (r: Vec<u8>)
    ensures
        r@ == out@ + more@,
{
    let mut out = out;
    let ghost base = out@;
    let mut k: usize = 0;
    while k < more.len()
        invariant
            k <= more@.len(),
            out@ =~= base + more@.take(k as int),
        decreases more@.len() - k,
    {
        out.push(more[k]);
        proof {
            assert(more@.take(k + 1) =~= more@.take(k as int).push(more@[k as int]));
        }
        k = k + 1;
    }
    proof {
        assert(more@.take(more@.len() as int) =~= more@);
    }
    out
}

/// Compares two hand ranks under the standard ordering.
pub fn hand_rank_lt(a: &HandRank, b: &HandRank) -> (r: bool)
    ensures
        r == rank_lt(a@, b@),
{
    let ca = rank_category(a);
    let cb = rank_category(b);
    if ca < cb {
        return true;
    }
    if ca > cb {
        return false;
    }
    let ta = tiebreak_values(a);
    let tb = tiebreak_values(b);
    let mut k: usize = 0;
    proof {
        assert(ta@.skip(0) =~= ta@);
        assert(tb@.skip(0) =~= tb@);
    }
    while k < ta.len() && k < tb.len()
        invariant
            k <= ta@.len(),
            k <= tb@.len(),
            cat_of(a@) == cat_of(b@),
            seq_lt(tie_of(a@), tie_of(b@)) == seq_lt(ta@.skip(k as int), tb@.skip(k as int)),
            ta@ == tie_of(a@),
            tb@ == tie_of(b@),
        decreases ta@.len() - k,
    {
        let va = ta[k];
        let vb = tb[k];
        proof {
            let sa = ta@.skip(k as int);
            let sb = tb@.skip(k as int);
            assert(sa.len() > 0 && sb.len() > 0);
            assert(sa[0] == ta@[k as int] && sb[0] == tb@[k as int]);
            assert(sa.drop_first() =~= ta@.skip(k + 1));
            assert(sb.drop_first() =~= tb@.skip(k + 1));
            if va < vb {
                assert(seq_lt(sa, sb));
            } else if va > vb {
                assert(!seq_lt(sa, sb));
            } else {
                assert(seq_lt(sa, sb) == seq_lt(ta@.skip(k + 1), tb@.skip(k + 1)));
            }
        }
        if va < vb {
            return true;
        }
        if va > vb {
            return false;
        }
        k = k + 1;
    }
    let r = ta.len() < tb.len();
    proof {
        let sa = ta@.skip(k as int);
        let sb = tb@.skip(k as int);
        if k == ta.len() {
            assert(sa.len() == 0);
            assert(seq_lt(sa, sb) == (sb.len() > 0));
        } else {
            assert(sb.len() == 0);
            assert(!seq_lt(sa, sb));
        }
    }
    r
}


/// How many of the value `v` the list holds.
pub open spec fn count_val(vs: Seq<u8>, v: int) -> int
    decreases vs.len(),
{
    if vs.len() == 0 {
        0
    } else {
        count_val(vs.drop_last(), v) + if vs.last() == v {
            1int
        } else {
            0int
        }
    }
}

proof fn lemma_count_val_bounds(vs: Seq<u8>, v: int)
    ensures
        0 <= count_val(vs, v) <= vs.len(),
    decreases vs.len(),
{
    if vs.len() > 0 {
        lemma_count_val_bounds(vs.drop_last(), v);
    }
}

proof fn lemma_count_val_take_step(vs: Seq<u8>, v: int, k: int)
    requires
        0 <= k < vs.len(),
    ensures
        count_val(vs.take(k + 1), v) == count_val(vs.take(k), v) + if vs[k] == v {
            1int
        } else {
            0int
        },
{
    assert(vs.take(k + 1).drop_last() =~= vs.take(k));
    assert(vs.take(k + 1).last() == vs[k]);
}

/// The value is present in the list.
pub open spec fn has_val(vs: Seq<u8>, v: int) -> bool {
    count_val(vs, v) > 0
}

/// The five consecutive values topped by `hi` are all present; a high of 5
/// is the wheel, which uses the Ace as its low end.
pub open spec fn straight_at(vs: Seq<u8>, hi: int) -> bool {
    if hi == 5 {
        has_val(vs, 14) && has_val(vs, 5) && has_val(vs, 4) && has_val(vs, 3) && has_val(vs, 2)
    } else {
        has_val(vs, hi) && has_val(vs, hi - 1) && has_val(vs, hi - 2) && has_val(vs, hi - 3)
            && has_val(vs, hi - 4)
    }
}

/// The highest straight top at or below `hi`, or 0 when there is none.
pub open spec fn straight_high_from(vs: Seq<u8>, hi: int) -> int
    decreases hi,
{
    if hi < 5 {
        0
    } else if straight_at(vs, hi) {
        hi
    } else {
        straight_high_from(vs, hi - 1)
    }
}

/// The high card of the best straight in the values, or 0.
pub open spec fn spec_straight_high(vs: Seq<u8>) -> int {
    straight_high_from(vs, 14)
}

/// The highest value at or below `v` occurring exactly `c` times, or 0.
pub open spec fn find_count_from(vs: Seq<u8>, c: int, v: int) -> int
    decreases v,
{
    if v < 2 {
        0
    } else if count_val(vs, v) == c {
        v
    } else {
        find_count_from(vs, c, v - 1)
    }
}

proof fn lemma_find_count_range(vs: Seq<u8>, c: int, v: int)
    requires
        v <= 14,
    ensures
        0 <= find_count_from(vs, c, v) <= 14,
        find_count_from(vs, c, v) <= v || find_count_from(vs, c, v) == 0,
    decreases v,
{
    if v >= 2 {
        lemma_find_count_range(vs, c, v - 1);
    }
}

/// The highest present value at or below `v` other than `ex`, or 0.
pub open spec fn highest_excluding_from(vs: Seq<u8>, ex: int, v: int) -> int
    decreases v,
{
    if v < 2 {
        0
    } else if count_val(vs, v) > 0 && v != ex {
        v
    } else {
        highest_excluding_from(vs, ex, v - 1)
    }
}

/// The highest present value at or below `v` other than `ex1` and `ex2`.
pub open spec fn highest_excluding2_from(vs: Seq<u8>, ex1: int, ex2: int, v: int) -> int
    decreases v,
{
    if v < 2 {
        0
    } else if count_val(vs, v) > 0 && v != ex1 && v != ex2 {
        v
    } else {
        highest_excluding2_from(vs, ex1, ex2, v - 1)
    }
}

/// The distinct present values at or below `v` other than `ex`, descending.
pub open spec fn present_desc_excluding_from(vs: Seq<u8>, ex: int, v: int) -> Seq<u8>
    decreases v,
{
    if v < 2 {
        Seq::empty()
    } else if count_val(vs, v) > 0 && v != ex {
        seq![v as u8] + present_desc_excluding_from(vs, ex, v - 1)
    } else {
        present_desc_excluding_from(vs, ex, v - 1)
    }
}

/// The values at or below `v`, descending, each repeated as often as it
/// occurs.
pub open spec fn desc_with_mult_from(vs: Seq<u8>, v: int) -> Seq<u8>
    decreases v,
{
    if v < 2 {
        Seq::empty()
    } else {
        Seq::new(count_val(vs, v) as nat, |i: int| v as u8) + desc_with_mult_from(vs, v - 1)
    }
}

/// At most the first `n` values of a list.
pub open spec fn take_up_to(s: Seq<u8>, n: int) -> Seq<u8> {
    if s.len() <= n {
        s
    } else {
        s.take(n)
    }
}

/// All five cards share one suit.
pub open spec fn all_same_suit(cs: Seq<Card>) -> bool {
    forall|i: int, j: int| 0 <= i < cs.len() && 0 <= j < cs.len() ==> cs[i].suit == cs[j].suit
}

/// The rank values of the cards.
pub open spec fn values_of(cs: Seq<Card>) -> Seq<u8> {
    cs.map_values(|c: Card| rank_value(c.rank) as u8)
}

/// The rank of exactly five cards, by the cascade of categories.
pub open spec fn spec_rank5(cs: Seq<Card>) -> HandRankSpec {
    let vs = values_of(cs);
    let flush = cs.len() > 0 && all_same_suit(cs);
    let sh = spec_straight_high(vs);
    let quad = find_count_from(vs, 4, 14);
    let trip = find_count_from(vs, 3, 14);
    let pair = find_count_from(vs, 2, 14);
    if flush && sh == 14 {
        HandRankSpec::RoyalFlush
    } else if flush && sh != 0 {
        HandRankSpec::StraightFlush(sh as u8)
    } else if quad != 0 {
        HandRankSpec::FourOfAKind(quad as u8, highest_excluding_from(vs, quad, 14) as u8)
    } else if trip != 0 && pair != 0 {
        HandRankSpec::FullHouse(trip as u8, pair as u8)
    } else if flush {
        HandRankSpec::Flush(desc_with_mult_from(vs, 14))
    } else if sh != 0 {
        HandRankSpec::Straight(sh as u8)
    } else if trip != 0 {
        HandRankSpec::ThreeOfAKind(
            trip as u8,
            take_up_to(present_desc_excluding_from(vs, trip, 14), 2),
        )
    } else if pair != 0 && find_count_from(vs, 2, pair - 1) != 0 {
        HandRankSpec::TwoPair(
            pair as u8,
            find_count_from(vs, 2, pair - 1) as u8,
            highest_excluding2_from(vs, pair, find_count_from(vs, 2, pair - 1), 14) as u8,
        )
    } else if pair != 0 {
        HandRankSpec::Pair(pair as u8, take_up_to(present_desc_excluding_from(vs, pair, 14), 3))
    } else {
        HandRankSpec::HighCard(desc_with_mult_from(vs, 14))
    }
}

/// The counts table holds, for each value, how often it occurs in `vs`.
pub open spec fn counts_ok(counts: Seq<u8>, vs: Seq<u8>) -> bool {
    counts.len() == 15 && forall|w: int| 0 <= w < 15 ==> counts[w] == count_val(vs, w)
}

/// Searches downward for a value occurring exactly `c` times.
fn scan_find_count(counts: &Vec<u8>, c: u8, v: u8, Ghost(vs): Ghost<Seq<u8>>) -> (r: u8)
    requires
        counts_ok(counts@, vs),
        v <= 14,
    ensures
        r == find_count_from(vs, c as int, v as int),
    decreases v,
{
    if v < 2 {
        0
    } else if counts[v as usize] == c {
        v
    } else {
        scan_find_count(counts, c, v - 1, Ghost(vs))
    }
}

/// Searches downward for the highest present value other than `ex`.
fn scan_highest_excluding(counts: &Vec<u8>, ex: u8, v: u8, Ghost(vs): Ghost<Seq<u8>>) -> (r: u8)
    requires
        counts_ok(counts@, vs),
        v <= 14,
    ensures
        r == highest_excluding_from(vs, ex as int, v as int),
    decreases v,
{
    if v < 2 {
        0
    } else if counts[v as usize] > 0 && v != ex {
        v
    } else {
        scan_highest_excluding(counts, ex, v - 1, Ghost(vs))
    }
}

/// Searches downward for the highest present value other than two others.
fn scan_highest_excluding2(
    counts: &Vec<u8>,
    ex1: u8,
    ex2: u8,
    v: u8,
    Ghost(vs): Ghost<Seq<u8>>,
) -> (r: u8)
    requires
        counts_ok(counts@, vs),
        v <= 14,
    ensures
        r == highest_excluding2_from(vs, ex1 as int, ex2 as int, v as int),
    decreases v,
{
    if v < 2 {
        0
    } else if counts[v as usize] > 0 && v != ex1 && v != ex2 {
        v
    } else {
        scan_highest_excluding2(counts, ex1, ex2, v - 1, Ghost(vs))
    }
}

/// Collects the distinct present values other than `ex`, descending.
fn scan_present_excluding(counts: &Vec<u8>, ex: u8, v: u8, Ghost(vs): Ghost<Seq<u8>>) -> (r: Vec<
    u8,
>)
    requires
        counts_ok(counts@, vs),
        v <= 14,
    ensures
        r@ == present_desc_excluding_from(vs, ex as int, v as int),
    decreases v,
{
    if v < 2 {
        Vec::new()
    } else {
        let rest = scan_present_excluding(counts, ex, v - 1, Ghost(vs));
        if counts[v as usize] > 0 && v != ex {
            let mut out: Vec<u8> = Vec::new();
            out.push(v);
            let out = push_all(out, &rest);
            proof {
                assert(out@ =~= seq![v] + rest@);
            }
            out
        } else {
            rest
        }
    }
}

/// Lays out the values descending with multiplicity.
fn build_desc_with_mult(counts: &Vec<u8>, v: u8, Ghost(vs): Ghost<Seq<u8>>) -> (r: Vec<u8>)
    requires
        counts_ok(counts@, vs),
        v <= 14,
    ensures
        r@ == desc_with_mult_from(vs, v as int),
    decreases v,
{
    if v < 2 {
        Vec::new()
    } else {
        let n = counts[v as usize];
        let mut head: Vec<u8> = Vec::new();
        let mut i: u8 = 0;
        while i < n
            invariant
                i <= n,
                head@ =~= Seq::new(i as nat, |m: int| v),
            decreases n - i,
        {
            head.push(v);
            proof {
                assert(head@ =~= Seq::new((i + 1) as nat, |m: int| v));
            }
            i = i + 1;
        }
        let rest = build_desc_with_mult(counts, v - 1, Ghost(vs));
        let out = push_all(head, &rest);
        proof {
            lemma_count_val_bounds(vs, v as int);
            assert(Seq::new(n as nat, |m: int| v) =~= Seq::new(
                count_val(vs, v as int) as nat,
                |m: int| v,
            ));
        }
        out
    }
}

/// Is a straight topped exactly by `hi` present?
fn check_straight_at(counts: &Vec<u8>, hi: u8, Ghost(vs): Ghost<Seq<u8>>) -> (r: bool)
    requires
        counts_ok(counts@, vs),
        5 <= hi <= 14,
    ensures
        r == straight_at(vs, hi as int),
{
    if hi == 5 {
        counts[14] > 0 && counts[5] > 0 && counts[4] > 0 && counts[3] > 0 && counts[2] > 0
    } else {
        counts[hi as usize] > 0 && counts[(hi - 1) as usize] > 0 && counts[(hi - 2) as usize] > 0
            && counts[(hi - 3) as usize] > 0 && counts[(hi - 4) as usize] > 0
    }
}

/// Searches downward for the best straight top.
fn scan_straight_high(counts: &Vec<u8>, hi: u8, Ghost(vs): Ghost<Seq<u8>>) -> (r: u8)
    requires
        counts_ok(counts@, vs),
        hi <= 14,
    ensures
        r == straight_high_from(vs, hi as int),
    decreases hi,
{
    if hi < 5 {
        0
    } else if check_straight_at(counts, hi, Ghost(vs)) {
        hi
    } else {
        scan_straight_high(counts, hi - 1, Ghost(vs))
    }
}

/// At most the first `n` values of a list.
fn take_prefix(v: Vec<u8>, n: usize) -> (r: Vec<u8>)
    ensures
        r@ == take_up_to(v@, n as int),
{
    if v.len() <= n {
        return v;
    }
    let mut out: Vec<u8> = Vec::new();
    let mut k: usize = 0;
    while k < n
        invariant
            n < v@.len(),
            k <= n,
            out@ =~= v@.take(k as int),
        decreases n - k,
    {
        out.push(v[k]);
        proof {
            assert(out@ =~= v@.take(k + 1));
        }
        k = k + 1;
    }
    out
}

/// Tallies how often each value occurs.
fn tally_values(values: &Vec<u8>) -> (r: Vec<u8>)
    requires
        values@.len() <= 250,
        forall|k: int| 0 <= k < values@.len() ==> 2 <= #[trigger] values@[k] <= 14,
    ensures
        counts_ok(r@, values@),
{
    let mut counts: Vec<u8> = Vec::new();
    let mut w: usize = 0;
    while w < 15
        invariant
            w <= 15,
            counts@.len() == w,
            forall|m: int| 0 <= m < w ==> counts@[m] == 0,
        decreases 15 - w,
    {
        counts.push(0);
        w = w + 1;
    }
    proof {
        assert(values@.take(0) =~= Seq::<u8>::empty());
    }
    let mut k: usize = 0;
    while k < values.len()
        invariant
            k <= values@.len(),
            values@.len() <= 250,
            forall|m: int| 0 <= m < values@.len() ==> 2 <= #[trigger] values@[m] <= 14,
            counts@.len() == 15,
            forall|m: int| 0 <= m < 15 ==> counts@[m] == count_val(values@.take(k as int), m),
        decreases values@.len() - k,
    {
        let v = values[k];
        proof {
            lemma_count_val_bounds(values@.take(k as int), v as int);
            assert(values@.take(k as int).len() == k);
            assert forall|m: int| 0 <= m < 15 implies count_val(values@.take(k + 1), m)
                == count_val(values@.take(k as int), m) + (if values@[k as int] == m {
                1int
            } else {
                0int
            }) by {
                lemma_count_val_take_step(values@, m, k as int);
            }
        }
        let cur = counts[v as usize];
        counts.set(v as usize, cur + 1);
        k = k + 1;
    }
    proof {
        assert(values@.take(values@.len() as int) =~= values@);
    }
    counts
}

/// The rank values of the cards, in order.
fn card_values(cards: &Vec<Card>) -> (r: Vec<u8>)
    ensures
        r@ == values_of(cards@),
        forall|k: int| 0 <= k < r@.len() ==> 2 <= #[trigger] r@[k] <= 14,
{
    let mut out: Vec<u8> = Vec::new();
    let mut k: usize = 0;
    while k < cards.len()
        invariant
            k <= cards@.len(),
            out@ =~= values_of(cards@.take(k as int)),
            forall|m: int| 0 <= m < out@.len() ==> 2 <= #[trigger] out@[m] <= 14,
        decreases cards@.len() - k,
    {
        let v = cards[k].rank.value();
        out.push(v);
        proof {
            assert(values_of(cards@.take(k + 1)) =~= values_of(cards@.take(k as int)).push(
                rank_value(cards@[k as int].rank) as u8,
            ));
        }
        k = k + 1;
    }
    proof {
        assert(cards@.take(cards@.len() as int) =~= cards@);
    }
    out
}

/// Do all the cards share one suit?
fn check_flush(cards: &Vec<Card>) -> (r: bool)
    ensures
        r == all_same_suit(cards@),
{
    if cards.len() == 0 {
        return true;
    }
    let s0 = cards[0].suit;
    let mut k: usize = 0;
    while k < cards.len()
        invariant
            cards@.len() > 0,
            s0 == cards@[0].suit,
            k <= cards@.len(),
            forall|m: int| 0 <= m < k ==> cards@[m].suit == s0,
        decreases cards@.len() - k,
    {
        if !(cards[k].suit == s0) {
            proof {
                assert(cards@[k as int].suit != cards@[0].suit);
            }
            return false;
        }
        k = k + 1;
    }
    true
}

/// Evaluates exactly five cards to their rank.
///
/// The cascade runs from Royal Flush down to High Card and returns the
/// first category the cards satisfy, with tie-break values descending.
pub fn evaluate_five_cards(cards: &Vec<Card>) -> (r: HandRank)
    requires
        cards@.len() == 5,
    ensures
        r@ == spec_rank5(cards@),
{
    let values = card_values(cards);
    let counts = tally_values(&values);
    let ghost vs = values@;
    let flush = check_flush(cards);
    let sh = scan_straight_high(&counts, 14, Ghost(vs));
    let quad = scan_find_count(&counts, 4, 14, Ghost(vs));
    let trip = scan_find_count(&counts, 3, 14, Ghost(vs));
    let pair = scan_find_count(&counts, 2, 14, Ghost(vs));
    if flush && sh == 14 {
        HandRank::RoyalFlush
    } else if flush && sh != 0 {
        HandRank::StraightFlush(sh)
    } else if quad != 0 {
        HandRank::FourOfAKind(quad, scan_highest_excluding(&counts, quad, 14, Ghost(vs)))
    } else if trip != 0 && pair != 0 {
        HandRank::FullHouse(trip, pair)
    } else if flush {
        HandRank::Flush(build_desc_with_mult(&counts, 14, Ghost(vs)))
    } else if sh != 0 {
        HandRank::Straight(sh)
    } else if trip != 0 {
        let kickers = scan_present_excluding(&counts, trip, 14, Ghost(vs));
        HandRank::ThreeOfAKind(trip, take_prefix(kickers, 2))
    } else if pair != 0 {
        proof {
            lemma_find_count_range(vs, 2, 14);
        }
        let pair2 = scan_find_count(&counts, 2, pair - 1, Ghost(vs));
        if pair2 != 0 {
            HandRank::TwoPair(
                pair,
                pair2,
                scan_highest_excluding2(&counts, pair, pair2, 14, Ghost(vs)),
            )
        } else {
            let kickers = scan_present_excluding(&counts, pair, 14, Ghost(vs));
            HandRank::Pair(pair, take_prefix(kickers, 3))
        }
    } else {
        HandRank::HighCard(build_desc_with_mult(&counts, 14, Ghost(vs)))
    }
}


/// A number for each suit, only to order cards canonically.
pub open spec fn suit_value(s: Suit) -> int {
    match s {
        Suit::Hearts => 0,
        Suit::Diamonds => 1,
        Suit::Clubs => 2,
        Suit::Spades => 3,
    }
}

/// A key that orders cards by rank, then suit; distinct cards get
/// distinct keys.
pub open spec fn card_key(c: Card) -> int {
    rank_value(c.rank) * 4 + suit_value(c.suit)
}

/// The canonical total order on cards.
pub open spec fn card_le(a: Card, b: Card) -> bool {
    card_key(a) <= card_key(b)
}

/// The order as a relation value, for sorting.
pub open spec fn card_order() -> spec_fn(Card, Card) -> bool {
    |a: Card, b: Card| card_le(a, b)
}

pub proof fn lemma_card_order_total()
    ensures
        vstd::relations::total_ordering(card_order()),
{
    let leq = card_order();
    assert forall|a: Card, b: Card| #[trigger] leq(a, b) && #[trigger] leq(b, a) implies a == b by {
        assert(card_key(a) == card_key(b));
        assert(rank_value(a.rank) == rank_value(b.rank) && suit_value(a.suit) == suit_value(
            b.suit,
        ));
        assert(a.rank == b.rank);
        assert(a.suit == b.suit);
    }
    assert(vstd::relations::antisymmetric(leq));
    assert forall|a: Card, b: Card| #[trigger] leq(a, b) || #[trigger] leq(b, a) by {}
    assert(vstd::relations::strongly_connected(leq));
    assert(vstd::relations::reflexive(leq));
    assert(vstd::relations::transitive(leq));
}

/// The exec card key.
fn card_key_exec(c: &Card) -> (r: u8)
    ensures
        r == card_key(*c),
{
    let rv = c.rank.value();
    let sv: u8 = match c.suit {
        Suit::Hearts => 0,
        Suit::Diamonds => 1,
        Suit::Clubs => 2,
        Suit::Spades => 3,
    };
    rv * 4 + sv
}

/// Inserting into a sequence inserts into its multiset.
proof fn lemma_to_multiset_insert(s: Seq<Card>, i: int, x: Card)
    requires
        0 <= i <= s.len(),
    ensures
        s.insert(i, x).to_multiset() == s.to_multiset().insert(x),
{
    broadcast use vstd::seq_lib::group_to_multiset_ensures;
    broadcast use vstd::multiset::group_multiset_axioms;

    let left = s.subrange(0, i);
    let right = s.subrange(i, s.len() as int);
    assert(s.insert(i, x) == left.push(x) + right);
    vstd::seq_lib::lemma_multiset_commutative(left.push(x), right);
    vstd::seq_lib::lemma_multiset_commutative(left, right);
    assert(s =~= left + right);
    assert(left.push(x).to_multiset() =~= left.to_multiset().insert(x));
    assert(s.insert(i, x).to_multiset() =~= s.to_multiset().insert(x));
}

/// Inserts a card into a sorted hand, keeping it sorted.
fn insert_card_sorted(v: &mut Vec<Card>, c: Card)
    requires
        vstd::relations::sorted_by(old(v)@, card_order()),
    ensures
        vstd::relations::sorted_by(final(v)@, card_order()),
        final(v)@.to_multiset() == old(v)@.to_multiset().insert(c),
{
    let key = card_key_exec(&c);
    let mut idx: usize = 0;
    while idx < v.len() && card_key_exec(&v[idx]) <= key
        invariant
            vstd::relations::sorted_by(v@, card_order()),
            v@ == old(v)@,
            key == card_key(c),
            idx <= v@.len(),
            forall|m: int| 0 <= m < idx ==> card_key(v@[m]) <= card_key(c),
        decreases v@.len() - idx,
    {
        idx = idx + 1;
    }
    let ghost before = v@;
    v.insert(idx, c);
    proof {
        let leq = card_order();
        let ix = idx as int;
        before.insert_ensures(ix, c);
        lemma_to_multiset_insert(before, ix, c);
        assert forall|i: int, j: int| 0 <= i < j < v@.len() implies #[trigger] leq(
            v@[i],
            v@[j],
        ) by {
            if j < ix {
                assert(leq(before[i], before[j]));
            } else if j == ix {
                assert(v@[i] == before[i] && card_key(before[i]) <= card_key(c));
            } else if i < ix {
                assert(v@[i] == before[i] && v@[j] == before[j - 1]);
                if j - 1 == ix && ix < before.len() {
                    assert(card_key(before[ix]) > card_key(c) || ix == before.len());
                }
                if j - 1 > ix {
                    assert(leq(before[i], before[j - 1]));
                } else {
                    assert(card_key(before[i]) <= card_key(c));
                    assert(card_key(c) < card_key(before[ix]));
                }
            } else if i == ix {
                assert(v@[i] == c && v@[j] == before[j - 1]);
                assert(card_key(c) < card_key(before[ix]));
                if j - 1 > ix {
                    assert(leq(before[ix], before[j - 1]));
                }
            } else {
                assert(leq(before[i - 1], before[j - 1]));
            }
        }
    }
}

/// Sorts the cards into the canonical order.
fn sort_cards(cards: &Vec<Card>) -> (r: Vec<Card>)
    ensures
        r@ == cards@.sort_by(card_order()),
{
    broadcast use vstd::seq_lib::group_to_multiset_ensures;

    let mut out: Vec<Card> = Vec::new();
    let mut k: usize = 0;
    proof {
        assert(cards@.take(0) =~= Seq::<Card>::empty());
        assert(cards@.take(0).to_multiset() =~= Multiset::<Card>::empty());
        assert(out@.to_multiset() =~= Multiset::<Card>::empty());
    }
    while k < cards.len()
        invariant
            k <= cards@.len(),
            vstd::relations::sorted_by(out@, card_order()),
            out@.to_multiset() == cards@.take(k as int).to_multiset(),
        decreases cards@.len() - k,
    {
        let c = cards[k];
        insert_card_sorted(&mut out, c);
        proof {
            assert(cards@.take(k + 1) =~= cards@.take(k as int).push(cards@[k as int]));
            cards@.take(k as int).to_multiset_ensures();
            assert(cards@.take(k as int).push(cards@[k as int]).to_multiset() =~= cards@.take(
                k as int,
            ).to_multiset().insert(cards@[k as int]));
        }
        k = k + 1;
    }
    proof {
        assert(cards@.take(cards@.len() as int) =~= cards@);
        lemma_card_order_total();
        cards@.lemma_sort_by_ensures(card_order());
        vstd::seq_lib::lemma_sorted_unique(out@, cards@.sort_by(card_order()), card_order());
        assert(out@ =~= cards@.sort_by(card_order()));
    }
    out
}

/// Puts one card in front of every hand in a list.
pub open spec fn prepend_all(c0: Card, list: Seq<Seq<Card>>) -> Seq<Seq<Card>> {
    Seq::new(list.len(), |i: int| seq![c0] + list[i])
}

/// All ways to choose `k` cards from the list, keeping their order.
pub open spec fn spec_combos(s: Seq<Card>, k: int) -> Seq<Seq<Card>>
    decreases s.len(),
{
    if k <= 0 {
        seq![Seq::empty()]
    } else if s.len() < k {
        Seq::empty()
    } else {
        prepend_all(s[0], spec_combos(s.drop_first(), k - 1)) + spec_combos(s.drop_first(), k)
    }
}

/// Every chosen combination has exactly `k` cards.
pub proof fn lemma_combos_lens(s: Seq<Card>, k: int)
    requires
        k >= 0,
    ensures
        forall|i: int|
            0 <= i < spec_combos(s, k).len() ==> (#[trigger] spec_combos(s, k)[i]).len() == k,
    decreases s.len(),
{
    if k <= 0 {
    } else if s.len() < k {
    } else {
        lemma_combos_lens(s.drop_first(), k - 1);
        lemma_combos_lens(s.drop_first(), k);
        let pre = prepend_all(s[0], spec_combos(s.drop_first(), k - 1));
        assert forall|i: int| 0 <= i < spec_combos(s, k).len() implies (#[trigger] spec_combos(
            s,
            k,
        )[i]).len() == k by {
            if i < pre.len() {
                assert(pre[i] == seq![s[0]] + spec_combos(s.drop_first(), k - 1)[i]);
            } else {
                assert(spec_combos(s, k)[i] == spec_combos(s.drop_first(), k)[i - pre.len()]);
            }
        }
    }
}

/// Copies a hand of cards.
pub fn copy_cards(v: &Vec<Card>) -> (r: Vec<Card>)
    ensures
        r@ == v@,
{
    let mut out: Vec<Card> = Vec::new();
    let mut k: usize = 0;
    while k < v.len()
        invariant
            k <= v@.len(),
            out@ =~= v@.take(k as int),
        decreases v@.len() - k,
    {
        out.push(v[k]);
        proof {
            assert(out@ =~= v@.take(k + 1));
        }
        k = k + 1;
    }
    proof {
        assert(v@.take(v@.len() as int) =~= v@);
    }
    out
}

/// Enumerates all `k`-card combinations of the cards, keeping card order.
#[verifier::loop_isolation(false)]
pub fn combinations(cards: &Vec<Card>, k: usize) -> (r: Vec<Vec<Card>>)
    ensures
        r@.map_values(|v: Vec<Card>| v@) =~~= spec_combos(cards@, k as int),
    decreases cards@.len(),
{
    if k == 0 {
        let mut r: Vec<Vec<Card>> = Vec::new();
        r.push(Vec::new());
        proof {
            assert(r@.map_values(|v: Vec<Card>| v@) =~~= seq![Seq::<Card>::empty()]);
        }
        return r;
    }
    if cards.len() < k {
        let r: Vec<Vec<Card>> = Vec::new();
        proof {
            assert(r@.map_values(|v: Vec<Card>| v@) =~~= Seq::<Seq<Card>>::empty());
        }
        return r;
    }
    let first = cards[0];
    let mut rest: Vec<Card> = Vec::new();
    let mut m: usize = 1;
    while m < cards.len()
        invariant
            1 <= m <= cards@.len(),
            rest@ =~= cards@.subrange(1, m as int),
        decreases cards@.len() - m,
    {
        rest.push(cards[m]);
        proof {
            assert(rest@ =~= cards@.subrange(1, m + 1));
        }
        m = m + 1;
    }
    proof {
        assert(rest@ =~= cards@.drop_first());
    }
    let with_first = combinations(&rest, k - 1);
    let without_first = combinations(&rest, k);
    let ghost wf_views = with_first@.map_values(|v: Vec<Card>| v@);
    let ghost wo_views = without_first@.map_values(|v: Vec<Card>| v@);
    let ghost pre = prepend_all(cards@[0], spec_combos(rest@, k - 1));
    let mut out: Vec<Vec<Card>> = Vec::new();
    let mut i: usize = 0;
    while i < with_first.len()
        invariant
            i <= with_first@.len(),
            out@.len() == i,
            forall|j: int| 0 <= j < i ==> (#[trigger] out@[j])@ == pre[j],
        decreases with_first@.len() - i,
    {
        let mut nc: Vec<Card> = Vec::new();
        nc.push(first);
        let body = copy_cards(&with_first[i]);
        let mut nc = nc;
        let mut w: usize = 0;
        while w < body.len()
            invariant
                w <= body@.len(),
                nc@ =~= seq![first] + body@.take(w as int),
            decreases body@.len() - w,
        {
            nc.push(body[w]);
            proof {
                assert(nc@ =~= seq![first] + body@.take(w + 1));
            }
            w = w + 1;
        }
        proof {
            assert(body@.take(body@.len() as int) =~= body@);
            assert(wf_views[i as int] == with_first@[i as int]@);
            assert(wf_views =~~= spec_combos(rest@, (k - 1) as int));
            assert(nc@ =~= seq![cards@[0]] + spec_combos(rest@, (k - 1) as int)[i as int]);
            assert(nc@ == pre[i as int]);
        }
        out.push(nc);
        i = i + 1;
    }
    let mut i: usize = 0;
    while i < without_first.len()
        invariant
            i <= without_first@.len(),
            out@.len() == pre.len() + i,
            forall|j: int| 0 <= j < pre.len() ==> (#[trigger] out@[j])@ == pre[j],
            forall|j: int|
                0 <= j < i ==> (#[trigger] out@[pre.len() + j])@ == spec_combos(rest@, k as int)[j],
        decreases without_first@.len() - i,
    {
        let nc = copy_cards(&without_first[i]);
        proof {
            assert(wo_views[i as int] == without_first@[i as int]@);
            assert(wo_views =~~= spec_combos(rest@, k as int));
        }
        out.push(nc);
        i = i + 1;
    }
    proof {
        let full = spec_combos(cards@, k as int);
        assert(cards@.len() >= k && k > 0);
        assert(rest@ =~= cards@.drop_first());
        assert(rest@ == cards@.drop_first());
        assert(spec_combos(rest@, k - 1) == spec_combos(cards@.drop_first(), k as int - 1));
        assert(pre == prepend_all(cards@[0], spec_combos(cards@.drop_first(), k as int - 1)));
        assert(full == prepend_all(cards@[0], spec_combos(cards@.drop_first(), k as int - 1))
            + spec_combos(cards@.drop_first(), k as int));
        assert(full == pre + spec_combos(cards@.drop_first(), k as int));
        assert(spec_combos(rest@, k as int) == spec_combos(cards@.drop_first(), k as int));
        let mapped = out@.map_values(|v: Vec<Card>| v@);
        assert(wo_views.len() == without_first@.len());
        assert(mapped.len() == full.len());
        assert forall|j: int| 0 <= j < full.len() implies mapped[j] == full[j] by {
            assert(mapped[j] == out@[j]@);
            if j >= pre.len() {
                let jp = j - pre.len();
                assert((out@[pre.len() + jp])@ == spec_combos(rest@, k as int)[jp]);
                assert(out@[j]@ == spec_combos(rest@, k as int)[j - pre.len()]);
            }
        }
        assert(mapped =~~= full);
    }
    out
}

/// The running best of the five-card ranks of a list of hands: a later
/// hand replaces the best so far only when it strictly beats it.
pub open spec fn best_rank_of(list: Seq<Seq<Card>>) -> HandRankSpec
    decreases list.len(),
{
    if list.len() == 0 {
        HandRankSpec::HighCard(Seq::empty())
    } else {
        let prev = best_rank_of(list.drop_last());
        let cur = spec_rank5(list.last());
        if rank_lt(prev, cur) {
            cur
        } else {
            prev
        }
    }
}

/// The rank of the best five cards among the given cards.  The cards are
/// put in canonical order first, so the result depends only on which cards
/// are held, not on the order they arrived in.
#[verifier::opaque]
pub open spec fn spec_eval_hand(cs: Seq<Card>) -> HandRankSpec {
    best_rank_of(spec_combos(cs.sort_by(card_order()), 5))
}

/// Hands that hold the same cards evaluate to the same rank, whatever
/// order the cards came in.
pub proof fn lemma_eval_hand_multiset(a: Seq<Card>, b: Seq<Card>)
    requires
        a.to_multiset() == b.to_multiset(),
    ensures
        spec_eval_hand(a) == spec_eval_hand(b),
{
    reveal(spec_eval_hand);
    lemma_card_order_total();
    a.lemma_sort_by_ensures(card_order());
    b.lemma_sort_by_ensures(card_order());
    vstd::seq_lib::lemma_sorted_unique(
        a.sort_by(card_order()),
        b.sort_by(card_order()),
        card_order(),
    );
}

/// Evaluates the best five-card hand from two hole cards and the board.
///
/// Enumerates every five-card combination of the available cards and
/// returns the highest rank among them under the standard ordering.
pub fn evaluate_hand(hole_cards: &(Card, Card), community: &Vec<Card>) -> (r: HandRank)
    ensures
        r@ == spec_eval_hand(seq![hole_cards.0, hole_cards.1] + community@),
{
    let mut all: Vec<Card> = Vec::new();
    all.push(hole_cards.0);
    all.push(hole_cards.1);
    let mut m: usize = 0;
    while m < community.len()
        invariant
            m <= community@.len(),
            all@ =~= seq![hole_cards.0, hole_cards.1] + community@.take(m as int),
        decreases community@.len() - m,
    {
        all.push(community[m]);
        proof {
            assert(all@ =~= seq![hole_cards.0, hole_cards.1] + community@.take(m + 1));
        }
        m = m + 1;
    }
    proof {
        assert(community@.take(community@.len() as int) =~= community@);
    }
    let sorted = sort_cards(&all);
    let combos = combinations(&sorted, 5);
    let ghost combo_views = combos@.map_values(|v: Vec<Card>| v@);
    proof {
        lemma_combos_lens(sorted@, 5);
    }
    let mut best = HandRank::HighCard(Vec::new());
    let mut i: usize = 0;
    proof {
        assert(combo_views.take(0) =~= Seq::<Seq<Card>>::empty());
        assert(best@ == best_rank_of(combo_views.take(0)));
    }
    while i < combos.len()
        invariant
            i <= combos@.len(),
            combo_views == combos@.map_values(|v: Vec<Card>| v@),
            combo_views =~~= spec_combos(sorted@, 5),
            forall|j: int| 0 <= j < combo_views.len() ==> (#[trigger] combo_views[j]).len() == 5,
            best@ == best_rank_of(combo_views.take(i as int)),
        decreases combos@.len() - i,
    {
        proof {
            assert(combo_views[i as int] == combos@[i as int]@);
        }
        let cand = evaluate_five_cards(&combos[i]);
        proof {
            assert(combo_views.take(i + 1).drop_last() =~= combo_views.take(i as int));
            assert(combo_views.take(i + 1).last() == combo_views[i as int]);
        }
        if hand_rank_lt(&best, &cand) {
            best = cand;
        }
        i = i + 1;
    }
    proof {
        reveal(spec_eval_hand);
        assert(combo_views.take(combo_views.len() as int) =~= combo_views);
        assert(best_rank_of(combo_views) == best_rank_of(spec_combos(sorted@, 5))) by {
            assert(combo_views =~~= spec_combos(sorted@, 5));
            assert(combo_views == spec_combos(sorted@, 5));
        }
    }
    best
}

} // verus!
