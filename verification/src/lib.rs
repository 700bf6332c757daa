//! Statistical key-length detection for a Vigenère-style substitution cipher.
//!
//! The library splits an uppercase ciphertext into contiguous blocks for each
//! candidate key length, undoes the position-dependent component of the cipher,
//! and measures the letter distribution of the result with an index-of-coincidence
//! style score.  The candidate length whose score diverges least from the expected
//! statistic of natural-language text is selected.  A mixed-radix enumerator then
//! walks the full key space of the selected length.
//!
//! All frequency arithmetic is carried out exactly over integers: a score is the
//! sum of squared letter counts, and the selector compares the divergences as
//! rationals brought to the common denominator `1000 * n * n` for a ciphertext of
//! length `n`.

pub mod enumerator;
pub mod scorer;
pub mod selector;
pub mod system;
pub mod vigenere;

use vstd::prelude::*;

verus! {

/// Number of letters in the cipher alphabet.
pub const ALPHABET_LEN: usize = 26;

} // verus!
