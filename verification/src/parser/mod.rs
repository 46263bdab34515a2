//! Readers of the transaction feed.

pub mod corasick;
pub mod csv;
pub mod fields;
pub mod text;

use vstd::prelude::*;

verus! {

/// Which reader turns the feed into items: by CSV records, or by line
/// prefixes found with an Aho-Corasick automaton.
#[derive(Debug, Clone, Copy, PartialEq, Eq, Structural)]
pub enum Parser {
    Corasick,
    Csv,
}

} // verus!
