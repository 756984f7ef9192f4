//! Abbreviation codes for the multi-character words of a phonetic-code input
//! method, derived from a character dictionary of five-symbol full codes and a
//! word dictionary of weighted entries.
//!
//! - `code`: a character's full code, the slot-pair substitution table, the
//!   character code table and code inference for words.
//! - `dict`: dictionary entries, reading a dictionary's text, patching one
//!   dictionary with another, and writing one out.
//! - `abbr`: the common-code index, the frequency gate, the two-symbol
//!   collision rule and the abbreviation table in ascending key order.
use vstd::prelude::*;

pub mod code;
pub mod dict;
pub mod abbr;

verus! {

} // verus!
