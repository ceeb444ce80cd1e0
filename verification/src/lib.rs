//! Passphrase generation from a word-adjacency graph.
//!
//! The crate builds memorable passphrases by walking a layered graph of
//! dictionary words: a compact delta codec stores each word's successor
//! list, a dictionary indexes words by frequency rank and three-letter
//! prefix, and a budgeted randomized search picks a cheap path through a
//! per-request graph whose levels correspond to passphrase positions.

use vstd::prelude::*;

pub mod assemble;
pub mod builder;
pub mod codec;
pub mod dict;
pub mod error;
pub mod generate;
pub mod graph;
pub mod lang;
mod rng;
pub mod search;
pub mod strutil;

verus! {

/// Returns the version of the library.
pub fn version() -> (v: &'static str)
    ensures
        v@ == "0.1.0"@,
{
    "0.1.0"
}

} // verus!
