//! The ciphertext holder and the corpus partitioner.
//!
//! `CryptoSystem` owns one immutable uppercase ciphertext, injected at
//! construction.  Its partitioner splits that text into contiguous runs of
//! `key_len` characters — `ceil(len / key_len)` blocks, of which only the final
//! one may be shorter than `key_len`.

use vstd::prelude::*;
use vstd::math::min;
use vstd::arithmetic::div_mod::{
    lemma_basic_div, lemma_div_plus_one, lemma_fundamental_div_mod, lemma_div_is_ordered,
};
use vstd::string::StrSliceExecFns;
use crate::vigenere::is_upper;

verus! {

/// Largest ciphertext length the library accepts; keeps every count, squared
/// count and scaled divergence within the fixed-width integer types used by
/// the scorer and the selector.
pub const MAX_INPUT_LEN: usize = 100000000;

/// Failure conditions of the library.
#[derive(Clone, Copy, Debug, PartialEq, Eq, Structural)]
pub enum CipherError {
    /// A key length of zero was supplied to the partitioner.
    InvalidArgument,
}

/// Number of blocks a ciphertext of length `n` yields for key length `k`:
/// `ceil(n / k)`.
pub open spec fn block_count(n: int, k: int) -> int {
    (n + k - 1) / k
}

/// The contiguous chunking of `input` for key length `k`: block `b` holds the
/// characters at absolute indices `[b * k, b * k + k)`, truncated at the end
/// of the input.
pub open spec fn partition_math(input: Seq<char>, k: int) -> Seq<Seq<char>> {
    Seq::new(
        block_count(input.len() as int, k) as nat,
        |b: int| input.subrange(b * k, min(b * k + k, input.len() as int)),
    )
}

/// A ciphertext the library can work on: uppercase letters only, and short
/// enough that all derived statistics fit their integer types.
pub open spec fn valid_input(input: Seq<char>) -> bool {
    &&& input.len() <= MAX_INPUT_LEN
    &&& forall|i: int| 0 <= i < input.len() ==> is_upper(#[trigger] input[i])
}

/// Owns the ciphertext under analysis.
pub struct CryptoSystem {
    input_string: String,
}

impl View for CryptoSystem {
    type V = Seq<char>;

    closed spec fn view(&self) -> Seq<char> {
        self.input_string@
    }
}

impl CryptoSystem {
    /// Builds a system around the given ciphertext.
    pub fn new(input_string: String) -> (r: Self)
        requires
            valid_input(input_string@),
        ensures
            r@ == input_string@,
    {
        Self { input_string }
    }

    /// Length of the ciphertext in characters.
    pub fn input_len(&self) -> (n: usize)
        ensures
            n == self@.len(),
    {
        self.input_string.as_str().unicode_len()
    }

    /// Splits the ciphertext into `ceil(len / key_len)` contiguous blocks of
    /// `key_len` characters, the last one truncated at the end of the text.
    /// A key length of zero is rejected.
    pub fn input_partition(&self, key_len: usize) -> (r: Result<Vec<String>, CipherError>)
        requires
            valid_input(self@),
        ensures
            key_len == 0 ==> r == Result::<Vec<String>, CipherError>::Err(
                CipherError::InvalidArgument,
            ),
            key_len >= 1 ==> r is Ok && seq_views(r->Ok_0@) == partition_math(
                self@,
                key_len as int,
            ),
    {
        if key_len == 0 {
            return Err(CipherError::InvalidArgument);
        }
        let n: usize = self.input_string.as_str().unicode_len();
        let block_ctr: usize = if n == 0 {
            0
        } else {
            (n - 1) / key_len + 1
        };
        proof {
            lemma_ceil_div(n as int, key_len as int);
            assert(block_ctr == block_count(self@.len() as int, key_len as int));
        }
        let ghost parts = partition_math(self@, key_len as int);
        let mut buf: Vec<String> = Vec::new();
        let mut block: usize = 0;
        while block < block_ctr
            invariant
                valid_input(self@),
                1 <= key_len,
                n == self@.len(),
                block_ctr == block_count(n as int, key_len as int),
                parts == partition_math(self@, key_len as int),
                block <= block_ctr,
                buf@.len() == block,
                forall|j: int| 0 <= j < block ==> (#[trigger] buf@[j])@ == parts[j],
            decreases block_ctr - block,
        {
            proof {
                lemma_block_start_in_range(n as int, key_len as int, block as int);
            }
            let start: usize = block * key_len;
            let rem: usize = n - start;
            let take: usize = if key_len < rem {
                key_len
            } else {
                rem
            };
            let chunk: String = self.input_string.as_str().substring_char(
                start,
                start + take,
            ).to_owned();
            assert(chunk@ == parts[block as int]);
            buf.push(chunk);
            block = block + 1;
        }
        assert(seq_views(buf@) =~= parts);
        Ok(buf)
    }
}

/// The character sequences held by a sequence of strings.
pub open spec fn seq_views(blocks: Seq<String>) -> Seq<Seq<char>> {
    blocks.map_values(|s: String| s@)
}

/// Characters held by the first `b` blocks together.
pub open spec fn total_chars_prefix(blocks: Seq<Seq<char>>, b: int) -> nat
    decreases b,
{
    if b <= 0 {
        0
    } else {
        total_chars_prefix(blocks, b - 1) + blocks[b - 1].len()
    }
}

/// Characters held by all blocks together.
pub open spec fn total_chars(blocks: Seq<Seq<char>>) -> nat {
    total_chars_prefix(blocks, blocks.len() as int)
}

/// The first `b` blocks of the partition, concatenated, are exactly the first
/// `min(b * k, n)` characters of the input, and hold that many characters.
proof fn lemma_partition_prefix(input: Seq<char>, k: int, b: int)
    requires
        1 <= k,
        0 <= b <= block_count(input.len() as int, k),
    ensures
        partition_math(input, k).subrange(0, b).flatten() == input.subrange(
            0,
            min(b * k, input.len() as int),
        ),
        total_chars_prefix(partition_math(input, k), b) == min(b * k, input.len() as int),
    decreases b,
{
    let n = input.len() as int;
    let parts = partition_math(input, k);
    if b == 0 {
        assert(parts.subrange(0, 0).flatten() =~= input.subrange(0, 0)) by {
            parts.subrange(0, 0).lemma_flatten_length_le_mul(0);
            assert(parts.subrange(0, 0) =~= Seq::<Seq<char>>::empty());
            Seq::<Seq<char>>::empty().lemma_flatten_one_element();
            assert(Seq::<Seq<char>>::empty().flatten().len() == 0) by {
                reveal_with_fuel(Seq::flatten, 2);
            }
        }
    } else {
        lemma_partition_prefix(input, k, b - 1);
        lemma_block_start_in_range(n, k, b - 1);
        assert((b - 1) * k < n);
        assert(b * k == (b - 1) * k + k) by (nonlinear_arith);
        assert(min((b - 1) * k, n) == (b - 1) * k);
        assert(parts.subrange(0, b) =~= parts.subrange(0, b - 1).push(parts[b - 1]));
        parts.subrange(0, b - 1).lemma_flatten_push(parts[b - 1]);
        assert(parts[b - 1] == input.subrange((b - 1) * k, min(b * k, n)));
        assert(input.subrange(0, (b - 1) * k) + input.subrange((b - 1) * k, min(b * k, n))
            =~= input.subrange(0, min(b * k, n)));
        assert(total_chars_prefix(parts, b) == total_chars_prefix(parts, b - 1) + parts[b
            - 1].len());
    }
}

/// The blocks of the partition, concatenated in order, reproduce the input
/// exactly; their lengths sum to the input length; every block but the final
/// one holds exactly `k` characters, and the final one holds between 1 and `k`.
pub proof fn lemma_partition_concat(input: Seq<char>, k: int)
    requires
        1 <= k,
    ensures
        partition_math(input, k).flatten() == input,
        total_chars(partition_math(input, k)) == input.len(),
        forall|b: int|
            0 <= b < block_count(input.len() as int, k) - 1 ==> #[trigger] partition_math(
                input,
                k,
            )[b].len() == k,
        block_count(input.len() as int, k) >= 1 ==> {
            let last = block_count(input.len() as int, k) - 1;
            1 <= partition_math(input, k)[last].len() <= k
        },
{
    let n = input.len() as int;
    let parts = partition_math(input, k);
    let c = block_count(n, k);
    lemma_ceil_div(n, k);
    lemma_count_times_k_covers(n, k);
    lemma_partition_prefix(input, k, c);
    assert(parts.subrange(0, c) =~= parts);
    assert(min(c * k, n) == n);
    assert(input.subrange(0, n) =~= input);
    assert forall|b: int| 0 <= b < c - 1 implies #[trigger] parts[b].len() == k by {
        lemma_block_start_in_range(n, k, b + 1);
        assert((b + 1) * k == b * k + k) by (nonlinear_arith);
        assert(b * k + k < n);
    }
    if c >= 1 {
        lemma_block_start_in_range(n, k, c - 1);
        assert(parts[c - 1].len() == min((c - 1) * k + k, n) - (c - 1) * k);
        assert((c - 1) * k + k == c * k) by (nonlinear_arith);
    }
}

/// `block_count(n, k) * k` reaches at least `n`.
proof fn lemma_count_times_k_covers(n: int, k: int)
    requires
        0 <= n,
        1 <= k,
    ensures
        n <= block_count(n, k) * k,
{
    let c = block_count(n, k);
    lemma_fundamental_div_mod(n + k - 1, k);
    vstd::arithmetic::div_mod::lemma_mod_division_less_than_divisor(n + k - 1, k);
    assert(n + k - 1 == k * c + (n + k - 1) % k);
    assert(k * c == c * k) by (nonlinear_arith);
}

/// With a key length at least as long as the (non-empty) input, the partition
/// is a single block equal to the whole input.
pub proof fn lemma_partition_single(input: Seq<char>, k: int)
    requires
        1 <= input.len() <= k,
    ensures
        partition_math(input, k).len() == 1,
        partition_math(input, k)[0] == input,
{
    let n = input.len() as int;
    lemma_ceil_div(n, k);
    lemma_div_plus_one(n - 1, k);
    lemma_basic_div(n - 1, k);
    assert(block_count(n, k) == 1);
    assert(partition_math(input, k)[0] == input.subrange(0, min(k, n)));
    assert(input.subrange(0, n) =~= input);
}

/// For `k >= 1` and `n >= 0`, the executable ceiling division agrees with
/// `block_count`, and the count is at most `n`.
proof fn lemma_ceil_div(n: int, k: int)
    requires
        0 <= n,
        1 <= k,
    ensures
        n == 0 ==> block_count(n, k) == 0,
        n >= 1 ==> block_count(n, k) == (n - 1) / k + 1,
        0 <= block_count(n, k) <= n,
{
    if n == 0 {
        lemma_basic_div(k - 1, k);
    } else {
        lemma_div_plus_one(n - 1, k);
        assert(n - 1 <= (n - 1) * k) by (nonlinear_arith)
            requires
                1 <= k,
                1 <= n,
        ;
        lemma_div_is_ordered(n - 1, (n - 1) * k, k);
        vstd::arithmetic::div_mod::lemma_div_by_multiple(n - 1, k);
    }
}

/// Every block in range starts strictly inside the input.
pub proof fn lemma_block_start_in_range(n: int, k: int, b: int)
    requires
        1 <= k,
        0 <= b < block_count(n, k),
        0 <= n,
    ensures
        b * k < n,
        b * k <= (block_count(n, k) - 1) * k,
{
    lemma_ceil_div(n, k);
    assert(b <= block_count(n, k) - 1);
    assert(b * k <= (block_count(n, k) - 1) * k) by (nonlinear_arith)
        requires
            1 <= k,
            b <= block_count(n, k) - 1,
    ;
    let c = block_count(n, k);
    assert(c == (n - 1) / k + 1);
    lemma_fundamental_div_mod(n - 1, k);
    assert((c - 1) * k == ((n - 1) / k) * k);
    assert(((n - 1) / k) * k <= n - 1) by {
        assert(n - 1 == k * ((n - 1) / k) + (n - 1) % k);
        assert(0 <= (n - 1) % k) by {
            vstd::arithmetic::div_mod::lemma_mod_division_less_than_divisor(n - 1, k);
        }
    }
}

} // verus!
