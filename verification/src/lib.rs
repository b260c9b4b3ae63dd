//! A verified No-Limit Texas Hold'em table engine.
//!
//! The library models a single poker table that custodies player funds
//! through an escrow ledger, runs complete hands (blinds, four streets,
//! side pots, showdown, payout), and produces commit-reveal shuffle
//! proofs that anyone can re-check.  All money movement and game-state
//! transitions are specified by contracts and verified.

use vstd::prelude::*;

pub mod account;
pub mod cards;
pub mod codec;
pub mod currency;
pub mod digest;
pub mod engine;
pub mod eval;
pub mod hex;
pub mod history;
pub mod lobby;
pub mod maps;
pub mod pots;
pub mod showdown;
pub mod shuffle;
pub mod table;

verus! {

} // verus!
