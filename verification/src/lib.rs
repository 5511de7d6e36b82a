//! Verified core logic of a beacon chain client: integer and byte
//! conventions, committee shuffling, Casper FFG justification and
//! finalization, RANDAO, the deposit Merkle tree, LMD-GHOST fork choice, the
//! attestation pool and the messages exchanged by peers.

use vstd::prelude::*;

pub mod bytes;
pub mod hash;
pub mod utils;
pub mod isqrt;
pub mod shuffle;
pub mod lexical;
pub mod order;
pub mod attestation;
pub mod store;
pub mod casper;
pub mod chain;
pub mod reward;
pub mod backend;
pub mod handler;
pub mod messages;
pub mod validator;
pub mod timing;
pub mod uint_text;
pub mod chain_spec;
pub mod log2;
pub mod archive;
pub mod fork_choice;
pub mod committee;
pub mod randao;
pub mod bitfield;
pub mod pair_map;
pub mod pruning;
pub mod score_totals;
pub mod deposit;
pub mod latest;
pub mod pool;
pub mod keys;
pub mod builder;
pub mod dispatch;

verus! {
} // verus!
