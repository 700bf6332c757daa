//! The key-length selector.
//!
//! For every candidate key length `k` in `1..=25` the selector partitions the
//! ciphertext, scores the partition, and forms the divergence
//! `0.065 - score / n²` for a ciphertext of `n` characters.  All divergences
//! are compared exactly as integers on the common denominator `1000 · n²`:
//! the scaled divergence of candidate `k` is `65·n² - 1000·score(k)`.
//!
//! The baseline for the very first comparison is the divergence of length 1
//! rounded up to the nearest whole number (a deliberate asymmetry of the
//! procedure: later candidates are compared against raw divergences).  On the
//! common denominator that ceiling is the least multiple of `1000·n²` not
//! below the scaled divergence of length 1.  A candidate displaces the best
//! one seen so far exactly when its divergence is strictly smaller.

use vstd::prelude::*;
use vstd::arithmetic::div_mod::lemma_fundamental_div_mod_converse_div;
use crate::scorer::{blocks_upper, calc_ioc, lemma_sum_squares_bound, spec_score};
use crate::system::{
    lemma_partition_concat, partition_math, total_chars, valid_input, CryptoSystem, MAX_INPUT_LEN,
};
use crate::vigenere::is_upper;

verus! {

/// Divergence of candidate key length `k` from the target statistic 0.065,
/// scaled by `1000 · n²` so that it is an exact integer:
/// `65·n² - 1000·score(k)`.
pub open spec fn diff_scaled(input: Seq<char>, k: int) -> int {
    65 * input.len() * input.len() - 1000 * spec_score(partition_math(input, k))
}

/// The least multiple of `q` that is not below `p`, i.e. `ceil(p / q) · q`,
/// for positive `q`.  `/` is Euclidean division here, so `-((-p) / q)` is the
/// ceiling of the rational `p / q` for either sign of `p`.
pub open spec fn ceil_to_multiple(p: int, q: int) -> int {
    -((-p) / q) * q
}

/// The baseline the first comparison is made against: the divergence of key
/// length 1, rounded up to a whole number, on the common denominator.
pub open spec fn initial_min(input: Seq<char>) -> int {
    ceil_to_multiple(diff_scaled(input, 1), 1000 * (input.len() as int) * (input.len() as int))
}

/// Best candidate and its divergence after considering key lengths below `k`:
/// the running state of the selection fold.  Starts from length 1 with the
/// rounded baseline; a later candidate wins only with a strictly smaller
/// divergence.
pub open spec fn best_after(input: Seq<char>, k: int) -> (int, int)
    decreases k,
{
    if k <= 2 {
        (1, initial_min(input))
    } else {
        let prev = best_after(input, k - 1);
        let d = diff_scaled(input, k - 1);
        if d < prev.1 {
            (k - 1, d)
        } else {
            prev
        }
    }
}

/// The key length the selector reports: the winner of the fold over
/// candidates `1..=25`.  An empty ciphertext gives no statistic to compare,
/// and length 1 is reported.
pub open spec fn selected_key_length(input: Seq<char>) -> int {
    if input.len() == 0 {
        1
    } else {
        best_after(input, 26).0
    }
}

/// The characters of a partition of a valid input are uppercase, and the
/// blocks hold exactly the input's characters.
proof fn lemma_partition_scorable(input: Seq<char>, k: int)
    requires
        valid_input(input),
        1 <= k,
    ensures
        blocks_upper(partition_math(input, k)),
        total_chars(partition_math(input, k)) == input.len(),
{
    lemma_partition_concat(input, k);
    let parts = partition_math(input, k);
    let n = input.len() as int;
    assert forall|b: int, i: int|
        0 <= b < parts.len() && 0 <= i < parts[b].len() implies is_upper(
        #[trigger] parts[b][i],
    ) by {
        crate::system::lemma_block_start_in_range(n, k, b);
        assert(parts[b][i] == input[b * k + i]);
    }
}

/// Numeric room for the scaled divergences: with at most `MAX_INPUT_LEN`
/// characters both `65·n²` and `1000·n²` stay far inside the fixed-width
/// range used by the selector.
proof fn lemma_scale_bounds(n: int)
    requires
        0 <= n <= 100000000,
    ensures
        0 <= 65 * n * n <= 650000000000000000,
        0 <= 1000 * n * n <= 10000000000000000000,
        1 <= n ==> 0 < 65 * n * n < 1000 * n * n,
{
    assert((0 <= 65 * n * n <= 650000000000000000) && (0 <= 1000 * n * n
        <= 10000000000000000000) && (1 <= n ==> 0 < 65 * n * n < 1000 * n * n))
        by (nonlinear_arith)
        requires
            0 <= n <= 100000000,
    ;
}

impl CryptoSystem {
    /// Selects the most plausible key length among `1..=25`: the candidate
    /// whose divergence from the target statistic is smallest under the fold
    /// described by [`selected_key_length`].
    pub fn find_key_length(&self) -> (r: usize)
        requires
            valid_input(self@),
        ensures
            r == selected_key_length(self@),
            1 <= r <= 25,
    {
        let ghost input = self@;
        let n: usize = self.input_len();
        if n == 0 {
            return 1;
        }
        proof {
            lemma_scale_bounds(n as int);
        }
        let q: i128 = 1000 * (n as i128) * (n as i128);
        let parts1 = self.input_partition(1).unwrap();
        proof {
            lemma_partition_scorable(input, 1);
        }
        let s1: u64 = calc_ioc(&parts1);
        proof {
            lemma_sum_squares_bound(partition_math(input, 1), 26);
        }
        let scaled1: i128 = 1000 * (s1 as i128);
        let target: i128 = 65 * (n as i128) * (n as i128);
        let mut min_diff: i128;
        if scaled1 < target {
            // The divergence is positive and below `q`, so its ceiling is 1.
            min_diff = q;
            proof {
                let p = diff_scaled(input, 1);
                assert(p == target - scaled1);
                assert(0 < p <= 65 * (n as int) * (n as int));
                assert(65 * (n as int) * (n as int) < q) by (nonlinear_arith)
                    requires
                        1 <= n,
                        q == 1000 * (n as int) * (n as int),
                ;
                lemma_fundamental_div_mod_converse_div(-p, q as int, -1, q as int - p);
                assert((-p) / (q as int) == -1);
                assert(ceil_to_multiple(p, q as int) == q as int);
            }
        } else {
            // The divergence is zero or negative; its ceiling is found by
            // rounding the magnitude down to a multiple of the denominator.
            let u: u128 = (scaled1 - target) as u128;
            proof {
                let p = diff_scaled(input, 1);
                assert(p == target - scaled1);
                assert(u == -p);
                assert(0 < q as int);
                vstd::arithmetic::div_mod::lemma_remainder_lower(u as int, q as int);
                assert(((u as int) / (q as int)) * (q as int) <= u as int);
                assert(ceil_to_multiple(p, q as int) == -((u as int) / (q as int)) * (q as int));
            }
            let t: u128 = (u / (q as u128)) * (q as u128);
            proof {
                assert(t as int == ((u as int) / (q as int)) * (q as int));
                assert(-((u as int) / (q as int)) * (q as int) == -(((u as int) / (q as int)) * (
                q as int))) by {
                    vstd::arithmetic::mul::lemma_mul_unary_negation(
                        (u as int) / (q as int),
                        q as int,
                    );
                }
            }
            min_diff = -((t as i128));
        }
        assert(min_diff == initial_min(input));
        let mut key_len: usize = 1;
        let mut k: usize = 2;
        while k < 26
            invariant
                valid_input(input),
                input == self@,
                n == input.len(),
                1 <= n <= MAX_INPUT_LEN,
                2 <= k <= 26,
                1 <= key_len <= 25,
                (key_len as int, min_diff as int) == best_after(input, k as int),
            decreases 26 - k,
        {
            let parts = self.input_partition(k).unwrap();
            proof {
                lemma_partition_scorable(input, k as int);
            }
            let s: u64 = calc_ioc(&parts);
            proof {
                lemma_sum_squares_bound(partition_math(input, k as int), 26);
                lemma_scale_bounds(n as int);
            }
            let diff: i128 = 65 * (n as i128) * (n as i128) - 1000 * (s as i128);
            assert(diff == diff_scaled(input, k as int));
            if diff < min_diff {
                min_diff = diff;
                key_len = k;
            }
            k = k + 1;
            assert((key_len as int, min_diff as int) == best_after(input, k as int));
        }
        key_len
    }
}

} // verus!
