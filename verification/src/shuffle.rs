//! The deterministic, publicly verifiable deck shuffle.
//!
//! A hand's deck order is a pure function of a 32-byte seed: a Fisher–Yates
//! walk whose randomness at step `i` is the first eight bytes (read
//! little-endian) of a SHA-256 hash chain.  The table publishes the hash of
//! the seed before dealing and reveals the seed when the hand ends, so
//! anyone can re-run the shuffle and compare.

use vstd::prelude::*;

use crate::cards::Card;
use crate::digest::{sha256, sha256_of};
use crate::hex;

verus! {

/// One shuffle step: the hash chained at position `i`, from the previous
/// chain value.
pub open spec fn chain_hash(prev: Seq<u8>, i: int) -> Seq<u8> {
    sha256_of(prev + seq![i as u8])
}

/// The swap target chosen at position `i` by a chain value `h`.
pub open spec fn swap_index(h: Seq<u8>, i: int) -> int {
    vstd::bytes::spec_u64_from_le_bytes(h.take(8)) as int % (i + 1)
}

/// The deck after walking positions `i` down to 1, starting from chain
/// value `prev`.
pub open spec fn shuffle_from(deck: Seq<Card>, prev: Seq<u8>, i: int) -> Seq<Card>
    decreases i,
{
    if i <= 0 {
        deck
    } else {
        let h = chain_hash(prev, i);
        let j = swap_index(h, i);
        shuffle_from(deck.update(i, deck[j]).update(j, deck[i]), h, i - 1)
    }
}

/// The deck a seed produces from a starting order.
pub open spec fn spec_shuffle(deck: Seq<Card>, seed: Seq<u8>) -> Seq<Card> {
    shuffle_from(deck, seed, deck.len() - 1)
}

/// A swap keeps the deck's multiset of cards.
proof fn lemma_shuffle_from_multiset(deck: Seq<Card>, prev: Seq<u8>, i: int)
    requires
        0 <= i < deck.len(),
    ensures
        shuffle_from(deck, prev, i).to_multiset() == deck.to_multiset(),
        shuffle_from(deck, prev, i).len() == deck.len(),
    decreases i,
{
    if i <= 0 {
    } else {
        let h = chain_hash(prev, i);
        let j = swap_index(h, i);
        assert(0 <= j <= i);
        let di = deck[i];
        let dj = deck[j];
        let d1 = deck.update(i, dj);
        let swapped = d1.update(j, di);
        assert(swapped.to_multiset() =~= deck.to_multiset()) by {
            broadcast use vstd::seq_lib::to_multiset_update;
            broadcast use vstd::seq_lib::group_to_multiset_ensures;
            broadcast use vstd::multiset::group_multiset_axioms;

            assert(deck.contains(di));
            assert(deck.to_multiset().count(di) > 0);
            assert(d1[j] == dj);
            assert(d1.contains(dj)) by {
                assert(d1[j] == dj);
            }
            assert(d1.to_multiset().count(dj) > 0);
            assert(d1.to_multiset() == deck.to_multiset().insert(dj).remove(di));
            assert(swapped.to_multiset() == d1.to_multiset().insert(di).remove(dj));
            assert forall|x: Card| swapped.to_multiset().count(x) == deck.to_multiset().count(
                x,
            ) by {
                assert(deck.to_multiset().insert(dj).count(dj) > 0);
            }
        }
        lemma_shuffle_from_multiset(swapped, h, i - 1);
    }
}

/// Shuffling keeps exactly the cards the deck started with.
pub proof fn lemma_shuffle_preserves_multiset(deck: Seq<Card>, seed: Seq<u8>)
    requires
        deck.len() > 0,
    ensures
        spec_shuffle(deck, seed).to_multiset() == deck.to_multiset(),
        spec_shuffle(deck, seed).len() == deck.len(),
{
    lemma_shuffle_from_multiset(deck, seed, deck.len() - 1);
}

/// Shuffles the deck in place with the seed's hash chain.
///
/// For each position `i` from the top of the deck down to 1, the chain is
/// advanced by hashing the previous value together with the byte `i`, a
/// target `j` at or below `i` is read from the hash, and the two cards are
/// swapped.  The result is a pure function of the starting order and seed.
pub fn shuffle_deck(deck: &mut Vec<Card>, seed: &Vec<u8>)
    requires
        old(deck)@.len() <= 256,
    ensures
        final(deck)@ == spec_shuffle(old(deck)@, seed@),
        final(deck)@.len() == old(deck)@.len(),
{
    if deck.len() == 0 {
        return ;
    }
    let mut prev: Vec<u8> = seed.clone();
    let mut i: usize = deck.len() - 1;
    proof {
        assert(shuffle_from(deck@, prev@, i as int) == spec_shuffle(old(deck)@, seed@));
    }
    while i >= 1
        invariant
            i < deck@.len() <= 256,
            deck@.len() == old(deck)@.len(),
            shuffle_from(deck@, prev@, i as int) == spec_shuffle(old(deck)@, seed@),
        decreases i,
    {
        let mut input: Vec<u8> = prev.clone();
        input.push(i as u8);
        proof {
            assert(input@ =~= prev@ + seq![i as u8]);
        }
        let h = sha256(&input);
        let mut first8: Vec<u8> = Vec::new();
        let mut k: usize = 0;
        while k < 8
            invariant
                k <= 8,
                h@.len() == 32,
                first8@ =~= h@.take(k as int),
            decreases 8 - k,
        {
            first8.push(h[k]);
            proof {
                assert(first8@ =~= h@.take(k + 1));
            }
            k = k + 1;
        }
        let rv = vstd::bytes::u64_from_le_bytes(first8.as_slice());
        let j = (rv % ((i + 1) as u64)) as usize;
        proof {
            assert(j == swap_index(h@, i as int));
            assert(j <= i);
        }
        let ci = deck[i];
        let cj = deck[j];
        deck.set(i, cj);
        deck.set(j, ci);
        prev = h;
        i = i - 1;
    }
}

/// A seed commitment as published to the table: the hex of the seed's
/// SHA-256 hash, plus the seed itself (in hex) once it has been revealed.
#[derive(Clone, Debug)]
pub struct ShuffleProof {
    pub seed_hash: String,
    pub revealed_seed: Option<String>,
    pub timestamp: u64,
}

/// The hex text of a seed's hash, as committed to before dealing.
pub open spec fn seed_hash_of(seed: Seq<u8>) -> Seq<char> {
    hex::hex_of(sha256_of(seed))
}

/// Computes the commitment for a seed.
pub fn commit_seed(seed: &Vec<u8>, timestamp: u64) -> (r: ShuffleProof)
    ensures
        r.seed_hash@ == seed_hash_of(seed@),
        r.revealed_seed is None,
        r.timestamp == timestamp,
{
    let digest = sha256(seed);
    ShuffleProof { seed_hash: hex::encode(&digest), revealed_seed: None, timestamp }
}

/// The lowercase-folded code of a character, folding only the ASCII range.
pub open spec fn lower_code(c: char) -> int {
    if 65 <= c as int && c as int <= 90 {
        c as int + 32
    } else {
        c as int
    }
}

/// Character strings equal up to ASCII case.
pub open spec fn eq_ignore_ascii_case(a: Seq<char>, b: Seq<char>) -> bool {
    a.len() == b.len() && forall|k: int| 0 <= k < a.len() ==> lower_code(a[k]) == lower_code(b[k])
}

/// Compares two character strings up to ASCII case.
fn str_eq_ignore_case(a: &str, b: &str) -> (r: bool)
    ensures
        r == eq_ignore_ascii_case(a@, b@),
{
    let alen = a.unicode_len();
    let blen = b.unicode_len();
    if alen != blen {
        return false;
    }
    let mut k: usize = 0;
    while k < alen
        invariant
            alen == a@.len(),
            alen == b@.len(),
            k <= alen,
            forall|m: int| 0 <= m < k ==> lower_code(a@[m]) == lower_code(b@[m]),
        decreases alen - k,
    {
        let ca = a.get_char(k);
        let cb = b.get_char(k);
        let va = ca as u32;
        let vb = cb as u32;
        let fa = if 65 <= va && va <= 90 {
            va + 32
        } else {
            va
        };
        let fb = if 65 <= vb && vb <= 90 {
            vb + 32
        } else {
            vb
        };
        if fa != fb {
            return false;
        }
        k = k + 1;
    }
    true
}

/// What the shuffle verifier accepts: the revealed seed is well-formed hex
/// whose SHA-256 hash, written in hex, matches the committed hash up to
/// ASCII case.
pub open spec fn spec_verify_shuffle(seed_hash: Seq<char>, revealed_seed: Seq<char>) -> bool {
    match hex::hex_to_bytes(revealed_seed) {
        Some(bytes) => eq_ignore_ascii_case(hex::hex_of(sha256_of(bytes)), seed_hash),
        None => false,
    }
}

/// Checks a commit–reveal pair: decodes the revealed seed, hashes it, and
/// compares with the committed hash.
pub fn verify_shuffle(seed_hash: String, revealed_seed: String) -> (r: bool)
    ensures
        r == spec_verify_shuffle(seed_hash@, revealed_seed@),
{
    let bytes = match hex::decode(revealed_seed.as_str()) {
        Ok(b) => b,
        Err(_) => {
            return false;
        },
    };
    let digest = sha256(&bytes);
    let computed = hex::encode(&digest);
    str_eq_ignore_case(computed.as_str(), seed_hash.as_str())
}

/// Commit–reveal soundness: a commitment made from a seed always verifies
/// against the hex of that same seed.
pub proof fn lemma_commit_reveal_verifies(seed: Seq<u8>)
    ensures
        spec_verify_shuffle(seed_hash_of(seed), hex::hex_of(seed)),
{
    hex::lemma_hex_round_trip(seed);
}

} // verus!
