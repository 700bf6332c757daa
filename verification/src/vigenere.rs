//! The reversible single-letter transform underlying the cipher.
//!
//! A letter is identified with its index in `0..26`.  Encryption adds the key
//! shift and the block position modulo 26; decryption subtracts them and
//! normalizes the result back into `0..26`.

use vstd::prelude::*;
use vstd::arithmetic::div_mod::{
    lemma_fundamental_div_mod, lemma_mod_division_less_than_divisor, lemma_mod_multiples_vanish,
    lemma_small_mod,
};

verus! {

/// True of the letters the cipher operates on.
pub open spec fn is_upper(c: char) -> bool {
    65 <= c as int <= 90
}

/// Index of an uppercase letter in the alphabet, in `0..26`.
pub open spec fn letter_index(c: char) -> int {
    c as int - 65
}

/// Mathematical encryption of a letter index: shift forward by the key and the
/// block position, modulo 26.
pub open spec fn encrypt_math(c: int, key: int, block_index: int) -> int {
    (c + key + block_index) % 26
}

/// Mathematical decryption of a letter index: shift backward by the key and the
/// block position.  `%` is Euclidean here, so the result lies in `0..26` for any
/// sign of the intermediate difference.
pub open spec fn decrypt_math(c: int, key: int, block_index: int) -> int {
    (c - key - block_index) % 26
}

/// Decryption inverts encryption for every letter index and all integer key
/// shifts and block positions.
pub proof fn lemma_round_trip(c: int, key: int, block_index: int)
    requires
        0 <= c < 26,
    ensures
        decrypt_math(encrypt_math(c, key, block_index), key, block_index) == c,
{
    let s = c + key + block_index;
    let e = encrypt_math(c, key, block_index);
    lemma_fundamental_div_mod(s, 26);
    assert(e == s - 26 * (s / 26));
    lemma_mod_multiples_vanish(-(s / 26), c, 26);
    assert((26 * -(s / 26) + c) % 26 == c % 26);
    assert(e - key - block_index == 26 * -(s / 26) + c);
    lemma_small_mod(c as nat, 26);
}

/// Decryption lands in the alphabet whatever the sign of
/// `c - key - block_index`.
pub proof fn lemma_decrypt_in_range(c: int, key: int, block_index: int)
    ensures
        0 <= decrypt_math(c, key, block_index) < 26,
{
    lemma_mod_division_less_than_divisor(c - key - block_index, 26);
}

/// Encrypts one uppercase letter, returning the resulting letter index.
///
/// The key shift and block position may be arbitrary: only their residues
/// modulo 26 matter, and the computation reduces them first so that no
/// intermediate overflows.
pub fn encrypt(plaintext: char, key: usize, block_index: usize) -> (r: u8)
    requires
        is_upper(plaintext),
    ensures
        r == encrypt_math(letter_index(plaintext), key as int, block_index as int),
        r < 26,
{
    let c: u32 = plaintext as u32 - 65;
    let k: u32 = (key % 26) as u32;
    let b: u32 = (block_index % 26) as u32;
    let r: u32 = (c + k + b) % 26;
    proof {
        let ci = letter_index(plaintext);
        lemma_fundamental_div_mod(key as int, 26);
        lemma_fundamental_div_mod(block_index as int, 26);
        lemma_mod_multiples_vanish(
            key as int / 26 + block_index as int / 26,
            ci + key as int % 26 + block_index as int % 26,
            26,
        );
        assert(26 * (key as int / 26 + block_index as int / 26) + (ci + key as int % 26
            + block_index as int % 26) == ci + key as int + block_index as int);
        lemma_mod_division_less_than_divisor(ci + key as int % 26 + block_index as int % 26, 26);
    }
    r as u8
}

/// Decrypts one uppercase letter, returning the resulting letter index, which
/// is always in `0..26` regardless of the sign of the underlying difference.
pub fn decrypt(ciphertext: char, key: usize, block_index: usize) -> (r: u8)
    requires
        is_upper(ciphertext),
    ensures
        r == decrypt_math(letter_index(ciphertext), key as int, block_index as int),
        r < 26,
{
    let c: u32 = ciphertext as u32 - 65;
    let k: u32 = (key % 26) as u32;
    let b: u32 = (block_index % 26) as u32;
    let r: u32 = (c + 52 - k - b) % 26;
    proof {
        let ci = letter_index(ciphertext);
        lemma_fundamental_div_mod(key as int, 26);
        lemma_fundamental_div_mod(block_index as int, 26);
        lemma_mod_multiples_vanish(
            -(key as int / 26) - (block_index as int / 26) - 2,
            ci + 52 - key as int % 26 - block_index as int % 26,
            26,
        );
        assert(26 * (-(key as int / 26) - (block_index as int / 26) - 2) + (ci + 52
            - key as int % 26 - block_index as int % 26) == ci - key as int - block_index as int);
        lemma_mod_division_less_than_divisor(
            ci + 52 - key as int % 26 - block_index as int % 26,
            26,
        );
    }
    r as u8
}

} // verus!
