//! A fixed-width byte layout for hand summaries, with a proven round trip.
//!
//! Summaries travel to the archive as plain bytes: five 64-bit fields
//! little endian, the player count, and a showdown flag.  Decoding an
//! encoded summary gives back exactly the summary encoded.

use vstd::prelude::*;

use vstd::bytes::{spec_u64_from_le_bytes, spec_u64_to_le_bytes, u64_from_le_bytes, u64_to_le_bytes};

use crate::history::HandSummary;

verus! {

/// The wire bytes of a summary.
pub open spec fn summary_bytes(s: HandSummary) -> Seq<u8> {
    spec_u64_to_le_bytes(s.hand_id) + spec_u64_to_le_bytes(s.table_id) + spec_u64_to_le_bytes(
        s.hand_number,
    ) + spec_u64_to_le_bytes(s.timestamp) + spec_u64_to_le_bytes(s.total_pot) + seq![
        s.player_count,
        (if s.went_to_showdown {
            1u8
        } else {
            0u8
        }),
    ]
}

/// The summary a wire byte string denotes, or nothing when the length or
/// the flag byte is wrong.
pub open spec fn summary_of_bytes(b: Seq<u8>) -> Option<HandSummary> {
    if b.len() != 42 || (b[41] != 0 && b[41] != 1) {
        None
    } else {
        Some(
            HandSummary {
                hand_id: spec_u64_from_le_bytes(b.subrange(0, 8)),
                table_id: spec_u64_from_le_bytes(b.subrange(8, 16)),
                hand_number: spec_u64_from_le_bytes(b.subrange(16, 24)),
                timestamp: spec_u64_from_le_bytes(b.subrange(24, 32)),
                total_pot: spec_u64_from_le_bytes(b.subrange(32, 40)),
                player_count: b[40],
                went_to_showdown: b[41] == 1,
            },
        )
    }
}

/// Decoding inverts encoding: a summary's wire bytes denote a summary
/// equal to it, field for field.
pub proof fn lemma_summary_round_trip(s: HandSummary)
    ensures
        match summary_of_bytes(summary_bytes(s)) {
            Some(s2) => s2.hand_id == s.hand_id && s2.table_id == s.table_id && s2.hand_number
                == s.hand_number && s2.timestamp == s.timestamp && s2.total_pot == s.total_pot
                && s2.player_count == s.player_count && s2.went_to_showdown == s.went_to_showdown,
            None => false,
        },
{
    vstd::bytes::lemma_auto_spec_u64_to_from_le_bytes();
    let b = summary_bytes(s);
    assert(b.len() == 42);
    assert(b.subrange(0, 8) =~= spec_u64_to_le_bytes(s.hand_id));
    assert(b.subrange(8, 16) =~= spec_u64_to_le_bytes(s.table_id));
    assert(b.subrange(16, 24) =~= spec_u64_to_le_bytes(s.hand_number));
    assert(b.subrange(24, 32) =~= spec_u64_to_le_bytes(s.timestamp));
    assert(b.subrange(32, 40) =~= spec_u64_to_le_bytes(s.total_pot));
    assert(b[40] == s.player_count);
}

/// Writes a summary to its wire bytes.
pub fn encode_hand_summary(s: &HandSummary) -> (r: Vec<u8>)
    ensures
        r@ == summary_bytes(*s),
{
    proof {
        vstd::bytes::lemma_auto_spec_u64_to_from_le_bytes();
    }
    let mut out = u64_to_le_bytes(s.hand_id);
    let out1 = crate::eval::push_all(out, &u64_to_le_bytes(s.table_id));
    let out2 = crate::eval::push_all(out1, &u64_to_le_bytes(s.hand_number));
    let out3 = crate::eval::push_all(out2, &u64_to_le_bytes(s.timestamp));
    let mut out4 = crate::eval::push_all(out3, &u64_to_le_bytes(s.total_pot));
    out4.push(s.player_count);
    out4.push(if s.went_to_showdown {
        1
    } else {
        0
    });
    proof {
        assert(out4@ =~= summary_bytes(*s));
    }
    out4
}

/// Reads eight little-endian bytes starting at `off`.
fn read_u64(b: &Vec<u8>, off: usize) -> (r: u64)
    requires
        off + 8 <= b@.len(),
    ensures
        r == spec_u64_from_le_bytes(b@.subrange(off as int, off as int + 8)),
{
    let n = b.len();
    let mut chunk: Vec<u8> = Vec::new();
    let mut k: usize = 0;
    while k < 8
        invariant
            n == b@.len(),
            off + 8 <= b@.len(),
            k <= 8,
            chunk@ =~= b@.subrange(off as int, off as int + k as int),
        decreases 8 - k,
    {
        chunk.push(b[off + k]);
        proof {
            assert(chunk@ =~= b@.subrange(off as int, off as int + k + 1));
        }
        k = k + 1;
    }
    u64_from_le_bytes(chunk.as_slice())
}

/// Reads a summary back from its wire bytes; fails on a malformed string.
pub fn decode_hand_summary(b: &Vec<u8>) -> (r: Option<HandSummary>)
    ensures
        match r {
            Some(s) => summary_of_bytes(b@) == Some(
                HandSummary {
                    hand_id: s.hand_id,
                    table_id: s.table_id,
                    hand_number: s.hand_number,
                    timestamp: s.timestamp,
                    player_count: s.player_count,
                    total_pot: s.total_pot,
                    went_to_showdown: s.went_to_showdown,
                },
            ),
            None => summary_of_bytes(b@) is None,
        },
{
    if b.len() != 42 {
        return None;
    }
    let flag = b[41];
    if flag != 0 && flag != 1 {
        return None;
    }
    let s = HandSummary {
        hand_id: read_u64(b, 0),
        table_id: read_u64(b, 8),
        hand_number: read_u64(b, 16),
        timestamp: read_u64(b, 24),
        total_pot: read_u64(b, 32),
        player_count: b[40],
        went_to_showdown: flag == 1,
    };
    Some(s)
}

} // verus!
