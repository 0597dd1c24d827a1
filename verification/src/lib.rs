//! Finds every combination of five five-letter words that together use
//! twenty-five distinct letters: a dictionary is parsed into 26-bit letter
//! masks, anagrams are collapsed, letters are ranked by rarity, words are
//! bucketed under their rarest letter, and a pruning backtracking search
//! assembles all five-word covers.

use vstd::prelude::*;

pub mod bits;
pub mod index;
pub mod search;
pub mod word;

pub use index::{create_word_index, WordIndex};
pub use search::{find_covers, format_solution_line, next_free_letter, solve};
pub use word::Word;

verus! {

} // verus!
