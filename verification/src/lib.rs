//! Dictionary lookup with diacritic pinyin rendering.
//!
//! The crate converts numeral-suffixed pinyin syllables (`xue4`) to their
//! tone-marked form (`xuè`) and resolves query words against a CC-CEDICT
//! style dictionary, grouping homograph entries by distinct reading.

use vstd::prelude::*;

pub mod dict;
pub mod lookup;
pub mod render;
pub mod pinyin;
pub(crate) mod strutil;

verus! {

/// Error raised by the tone converter on malformed dictionary data: a
/// syllable whose stem has no vowel to mark, or whose trailing digit lies
/// outside the tone table.
#[derive(Clone, Copy, Debug, PartialEq, Eq, Structural)]
pub enum PinyinError {
    InvalidSyllable,
}

} // verus!
