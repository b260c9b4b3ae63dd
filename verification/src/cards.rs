//! Playing cards and the canonical 52-card deck.

use vstd::prelude::*;

verus! {

/// One of the four French suits.
#[derive(Clone, Copy, Debug, PartialEq, Eq, Structural, Hash, PartialOrd, Ord)]
pub enum Suit {
    Hearts,
    Diamonds,
    Clubs,
    Spades,
}

/// Card rank, from Two up to Ace.
#[derive(Clone, Copy, Debug, PartialEq, Eq, Structural, Hash, PartialOrd, Ord)]
pub enum Rank {
    Two,
    Three,
    Four,
    Five,
    Six,
    Seven,
    Eight,
    Nine,
    Ten,
    Jack,
    Queen,
    King,
    Ace,
}

/// Numeric value of a rank: Two is 2, ..., Ace is 14.
pub open spec fn rank_value(r: Rank) -> int {
    match r {
        Rank::Two => 2,
        Rank::Three => 3,
        Rank::Four => 4,
        Rank::Five => 5,
        Rank::Six => 6,
        Rank::Seven => 7,
        Rank::Eight => 8,
        Rank::Nine => 9,
        Rank::Ten => 10,
        Rank::Jack => 11,
        Rank::Queen => 12,
        Rank::King => 13,
        Rank::Ace => 14,
    }
}

impl Rank {
    /// Numeric value of the rank (2 through 14; Ace is high).
    pub fn value(&self) -> (r: u8)
        ensures
            r == rank_value(*self),
    {
        match self {
            Rank::Two => 2,
            Rank::Three => 3,
            Rank::Four => 4,
            Rank::Five => 5,
            Rank::Six => 6,
            Rank::Seven => 7,
            Rank::Eight => 8,
            Rank::Nine => 9,
            Rank::Ten => 10,
            Rank::Jack => 11,
            Rank::Queen => 12,
            Rank::King => 13,
            Rank::Ace => 14,
        }
    }
}

/// A playing card.
#[derive(Clone, Copy, Debug, PartialEq, Eq, Structural, Hash)]
pub struct Card {
    pub suit: Suit,
    pub rank: Rank,
}

/// Suit of the card at position `k` of the canonical deck: the deck holds
/// thirteen hearts, then diamonds, then clubs, then spades.
pub open spec fn suit_of_index(k: int) -> Suit {
    if k < 13 {
        Suit::Hearts
    } else if k < 26 {
        Suit::Diamonds
    } else if k < 39 {
        Suit::Clubs
    } else {
        Suit::Spades
    }
}

/// Rank of the card at position `k` of the canonical deck: each suit runs
/// Two up to Ace.
pub open spec fn rank_of_offset(m: int) -> Rank {
    if m == 0 {
        Rank::Two
    } else if m == 1 {
        Rank::Three
    } else if m == 2 {
        Rank::Four
    } else if m == 3 {
        Rank::Five
    } else if m == 4 {
        Rank::Six
    } else if m == 5 {
        Rank::Seven
    } else if m == 6 {
        Rank::Eight
    } else if m == 7 {
        Rank::Nine
    } else if m == 8 {
        Rank::Ten
    } else if m == 9 {
        Rank::Jack
    } else if m == 10 {
        Rank::Queen
    } else {
        Rank::King
    }
}

/// The card at position `k` of the canonical deck.
pub open spec fn card_of_index(k: int) -> Card {
    Card {
        suit: suit_of_index(k),
        rank: if k % 13 == 12 {
            Rank::Ace
        } else {
            rank_of_offset(k % 13)
        },
    }
}

/// The canonical deck: Hearts 2..A, Diamonds 2..A, Clubs 2..A, Spades 2..A.
pub open spec fn standard_deck() -> Seq<Card> {
    Seq::new(52, |k: int| card_of_index(k))
}

/// Distinct positions of the canonical deck hold distinct cards.
pub proof fn lemma_standard_deck_distinct()
    ensures
        forall|i: int, j: int|
            0 <= i < 52 && 0 <= j < 52 && i != j ==> standard_deck()[i] != standard_deck()[j],
{
    assert forall|i: int, j: int|
        0 <= i < 52 && 0 <= j < 52 && i != j implies standard_deck()[i] != standard_deck()[j] by {
        if suit_of_index(i) == suit_of_index(j) {
            assert(i / 13 == j / 13) by {
                assert(suit_of_index(i) == suit_of_index(j));
            };
            assert(i % 13 != j % 13);
        }
    }
}

/// The suit of position `k` of the canonical deck.
fn suit_at(k: usize) -> (r: Suit)
    requires
        k < 52,
    ensures
        r == suit_of_index(k as int),
{
    if k < 13 {
        Suit::Hearts
    } else if k < 26 {
        Suit::Diamonds
    } else if k < 39 {
        Suit::Clubs
    } else {
        Suit::Spades
    }
}

/// The rank of position `k` of the canonical deck.
fn rank_at(k: usize) -> (r: Rank)
    requires
        k < 52,
    ensures
        r == card_of_index(k as int).rank,
{
    let m = k % 13;
    if m == 0 {
        Rank::Two
    } else if m == 1 {
        Rank::Three
    } else if m == 2 {
        Rank::Four
    } else if m == 3 {
        Rank::Five
    } else if m == 4 {
        Rank::Six
    } else if m == 5 {
        Rank::Seven
    } else if m == 6 {
        Rank::Eight
    } else if m == 7 {
        Rank::Nine
    } else if m == 8 {
        Rank::Ten
    } else if m == 9 {
        Rank::Jack
    } else if m == 10 {
        Rank::Queen
    } else if m == 11 {
        Rank::King
    } else {
        Rank::Ace
    }
}

/// Builds the canonical 52-card deck.
pub fn create_deck() -> (r: Vec<Card>)
    ensures
        r@ == standard_deck(),
        r@.len() == 52,
{
    let mut deck: Vec<Card> = Vec::new();
    let mut k: usize = 0;
    while k < 52
        invariant
            k <= 52,
            deck@.len() == k,
            forall|m: int| 0 <= m < k ==> deck@[m] == card_of_index(m),
        decreases 52 - k,
    {
        deck.push(Card { suit: suit_at(k), rank: rank_at(k) });
        k = k + 1;
    }
    proof {
        assert(deck@ =~= standard_deck());
    }
    deck
}

} // verus!
