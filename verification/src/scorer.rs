//! The index-of-coincidence style scorer.
//!
//! For each block the scorer undoes the position-dependent shift (key shift 0,
//! block position `b`), tallies the resulting letters across all blocks, and
//! returns the sum of the squared counts.  Divided by the squared ciphertext
//! length this is the simplified sum-of-squares frequency statistic; the
//! selector performs that division symbolically, so the scorer itself stays in
//! exact integer arithmetic.

use vstd::prelude::*;
use vstd::string::StrSliceExecFns;
use crate::vigenere::{decrypt, decrypt_math, is_upper, letter_index};
use crate::system::{seq_views, total_chars, total_chars_prefix, MAX_INPUT_LEN};

verus! {

/// Letter index the scorer tallies for character `c` of the block at
/// `block_index`: decryption with key shift fixed at 0.
pub open spec fn scored_letter(c: char, block_index: int) -> int {
    decrypt_math(letter_index(c), 0, block_index)
}

/// Occurrences of letter `l` among the first `i` characters of the block at
/// `block_index`, after undoing the position shift.
pub open spec fn count_in_block_prefix(block: Seq<char>, block_index: int, l: int, i: int) -> nat
    decreases i,
{
    if i <= 0 {
        0
    } else {
        count_in_block_prefix(block, block_index, l, i - 1) + if scored_letter(
            block[i - 1],
            block_index,
        ) == l {
            1nat
        } else {
            0nat
        }
    }
}

/// Occurrences of letter `l` in the whole block at `block_index`.
pub open spec fn count_in_block(block: Seq<char>, block_index: int, l: int) -> nat {
    count_in_block_prefix(block, block_index, l, block.len() as int)
}

/// Occurrences of letter `l` across the first `b` blocks.
pub open spec fn count_prefix(blocks: Seq<Seq<char>>, l: int, b: int) -> nat
    decreases b,
{
    if b <= 0 {
        0
    } else {
        count_prefix(blocks, l, b - 1) + count_in_block(blocks[b - 1], b - 1, l)
    }
}

/// Occurrences of letter `l` across all blocks.
pub open spec fn letter_count(blocks: Seq<Seq<char>>, l: int) -> nat {
    count_prefix(blocks, l, blocks.len() as int)
}

/// Sum of the squared counts of the first `l` letters.
pub open spec fn sum_squares_prefix(blocks: Seq<Seq<char>>, l: int) -> nat
    decreases l,
{
    if l <= 0 {
        0
    } else {
        sum_squares_prefix(blocks, l - 1) + letter_count(blocks, l - 1) * letter_count(
            blocks,
            l - 1,
        )
    }
}

/// The score of a partition: the sum over the 26 letters of the squared count
/// of that letter after undoing the position shifts.
pub open spec fn spec_score(blocks: Seq<Seq<char>>) -> nat {
    sum_squares_prefix(blocks, 26)
}

/// Every character of every block is an uppercase letter.
pub open spec fn blocks_upper(blocks: Seq<Seq<char>>) -> bool {
    forall|b: int, i: int|
        0 <= b < blocks.len() && 0 <= i < blocks[b].len() ==> is_upper(#[trigger] blocks[b][i])
}

/// The scorer is a pure function of its blocks: it holds no hidden state, so
/// two scoring passes over equal blocks yield the identical score.
pub proof fn lemma_scorer_deterministic(a: Seq<Seq<char>>, b: Seq<Seq<char>>)
    requires
        a == b,
    ensures
        spec_score(a) == spec_score(b),
{
}

/// A per-block letter count never exceeds the number of characters counted.
proof fn lemma_count_in_block_prefix_le(block: Seq<char>, block_index: int, l: int, i: int)
    requires
        0 <= i,
    ensures
        count_in_block_prefix(block, block_index, l, i) <= i,
    decreases i,
{
    if i > 0 {
        lemma_count_in_block_prefix_le(block, block_index, l, i - 1);
    }
}

/// A letter count over the first `b` blocks never exceeds the number of
/// characters those blocks hold.
proof fn lemma_count_prefix_le(blocks: Seq<Seq<char>>, l: int, b: int)
    requires
        0 <= b,
    ensures
        count_prefix(blocks, l, b) <= total_chars_prefix(blocks, b),
    decreases b,
{
    if b > 0 {
        lemma_count_prefix_le(blocks, l, b - 1);
        lemma_count_in_block_prefix_le(blocks[b - 1], b - 1, l, blocks[b - 1].len() as int);
    }
}

/// Block-prefix character totals grow with the prefix.
proof fn lemma_total_chars_prefix_mono(blocks: Seq<Seq<char>>, b1: int, b2: int)
    requires
        0 <= b1 <= b2,
    ensures
        total_chars_prefix(blocks, b1) <= total_chars_prefix(blocks, b2),
    decreases b2,
{
    if b1 < b2 {
        lemma_total_chars_prefix_mono(blocks, b1, b2 - 1);
    }
}

/// With at most `MAX_INPUT_LEN` characters in all, a partial sum of squared
/// counts is bounded by `l` times the squared maximum.
pub proof fn lemma_sum_squares_bound(blocks: Seq<Seq<char>>, l: int)
    requires
        0 <= l,
        total_chars(blocks) <= MAX_INPUT_LEN,
    ensures
        sum_squares_prefix(blocks, l) <= l * 10000000000000000,
    decreases l,
{
    if l > 0 {
        lemma_sum_squares_bound(blocks, l - 1);
        lemma_count_prefix_le(blocks, l - 1, blocks.len() as int);
        lemma_total_chars_prefix_mono(blocks, blocks.len() as int, blocks.len() as int);
        let c = letter_count(blocks, l - 1);
        assert(c <= MAX_INPUT_LEN);
        assert(c * c <= 10000000000000000) by (nonlinear_arith)
            requires
                0 <= c <= 100000000,
        ;
        assert((l - 1) * 10000000000000000 + 10000000000000000 == l * 10000000000000000)
            by (nonlinear_arith);
    }
}

/// Computes the score of the given blocks: the sum over the alphabet of the
/// squared count of each letter, counted after undoing the block-position
/// shift of every character.
pub fn calc_ioc(blocks: &Vec<String>) -> (r: u64)
    requires
        blocks_upper(seq_views(blocks@)),
        total_chars(seq_views(blocks@)) <= MAX_INPUT_LEN,
    ensures
        r == spec_score(seq_views(blocks@)),
{
    let ghost bs = seq_views(blocks@);
    let mut counts: Vec<u64> = Vec::new();
    let mut l: usize = 0;
    while l < 26
        invariant
            l <= 26,
            counts@.len() == l,
            forall|j: int| 0 <= j < l ==> counts@[j] == 0,
        decreases 26 - l,
    {
        counts.push(0);
        l = l + 1;
    }
    let mut b: usize = 0;
    while b < blocks.len()
        invariant
            bs == seq_views(blocks@),
            blocks_upper(bs),
            total_chars(bs) <= MAX_INPUT_LEN,
            bs.len() == blocks@.len(),
            b <= blocks.len(),
            counts@.len() == 26,
            forall|j: int| 0 <= j < 26 ==> counts@[j] == count_prefix(bs, j, b as int),
        decreases blocks@.len() - b,
    {
        let blen: usize = blocks[b].as_str().unicode_len();
        assert(blen == bs[b as int].len());
        let mut i: usize = 0;
        while i < blen
            invariant
                bs == seq_views(blocks@),
                blocks_upper(bs),
                total_chars(bs) <= MAX_INPUT_LEN,
                bs.len() == blocks@.len(),
                b < blocks.len(),
                blen == bs[b as int].len(),
                i <= blen,
                counts@.len() == 26,
                forall|j: int|
                    0 <= j < 26 ==> counts@[j] == count_prefix(bs, j, b as int)
                        + count_in_block_prefix(bs[b as int], b as int, j, i as int),
            decreases blen - i,
        {
            let ch: char = blocks[b].as_str().get_char(i);
            assert(ch == bs[b as int][i as int]);
            let d: u8 = decrypt(ch, 0, b);
            let dd: usize = d as usize;
            proof {
                lemma_count_prefix_le(bs, dd as int, b as int);
                lemma_count_in_block_prefix_le(bs[b as int], b as int, dd as int, i as int);
                lemma_total_chars_prefix_mono(bs, b as int + 1, bs.len() as int);
                assert(total_chars_prefix(bs, b as int + 1) == total_chars_prefix(bs, b as int)
                    + bs[b as int].len());
                assert(counts@[dd as int] < MAX_INPUT_LEN);
            }
            counts[dd] = counts[dd] + 1;
            i = i + 1;
            proof {
                assert forall|j: int| 0 <= j < 26 implies counts@[j] == count_prefix(
                    bs,
                    j,
                    b as int,
                ) + count_in_block_prefix(bs[b as int], b as int, j, i as int) by {
                    assert(count_in_block_prefix(bs[b as int], b as int, j, i as int)
                        == count_in_block_prefix(bs[b as int], b as int, j, i as int - 1)
                        + if scored_letter(bs[b as int][i as int - 1], b as int) == j {
                        1nat
                    } else {
                        0nat
                    });
                }
            }
        }
        b = b + 1;
        proof {
            assert forall|j: int| 0 <= j < 26 implies counts@[j] == count_prefix(
                bs,
                j,
                b as int,
            ) by {
                assert(count_prefix(bs, j, b as int) == count_prefix(bs, j, b as int - 1)
                    + count_in_block(bs[b as int - 1], b as int - 1, j));
            }
        }
    }
    let mut score: u64 = 0;
    let mut l: usize = 0;
    while l < 26
        invariant
            bs == seq_views(blocks@),
            total_chars(bs) <= MAX_INPUT_LEN,
            bs.len() == blocks@.len(),
            l <= 26,
            counts@.len() == 26,
            forall|j: int| 0 <= j < 26 ==> counts@[j] == letter_count(bs, j),
            score == sum_squares_prefix(bs, l as int),
        decreases 26 - l,
    {
        proof {
            lemma_sum_squares_bound(bs, l as int);
            lemma_count_prefix_le(bs, l as int, bs.len() as int);
            let c = letter_count(bs, l as int);
            assert(c * c <= 10000000000000000) by (nonlinear_arith)
                requires
                    0 <= c <= 100000000,
            ;
            assert(l * 10000000000000000 <= 26 * 10000000000000000) by (nonlinear_arith)
                requires
                    0 <= l <= 26,
            ;
        }
        score = score + counts[l] * counts[l];
        l = l + 1;
    }
    score
}

} // verus!
