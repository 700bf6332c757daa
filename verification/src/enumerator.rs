//! The mixed-radix key enumerator.
//!
//! Keys of a fixed length are walked in the order of counting in base 26 with
//! the most significant digit first: the last position increments fastest and
//! a carry cascades leftward.  Exactly `26^len` keys exist; the walk starts at
//! the all-zero key and ends after the all-25 key.  The enumerator only hands
//! keys out, one per call: judging a candidate key is the caller's extension
//! point, so any plaintext-likelihood measure can be plugged in around it.

use vstd::prelude::*;
use vstd::arithmetic::power::pow;

verus! {

/// Digits of a candidate key: one shift value per position, each in `0..=25`.
pub open spec fn wf_digits(digits: Seq<usize>) -> bool {
    forall|i: int| 0 <= i < digits.len() ==> (#[trigger] digits[i]) <= 25
}

/// Number of distinct keys of the given length: `26^len`.
pub open spec fn key_space(len: nat) -> int {
    pow(26, len)
}

/// A key read as a base-26 numeral, most significant digit first.
pub open spec fn key_value(digits: Seq<usize>) -> int
    decreases digits.len(),
{
    if digits.len() == 0 {
        0
    } else {
        key_value(digits.drop_last()) * 26 + digits.last()
    }
}

/// A well-formed key's value lies in `[0, 26^len)`.
pub proof fn lemma_key_value_bounds(digits: Seq<usize>)
    requires
        wf_digits(digits),
    ensures
        0 <= key_value(digits) < key_space(digits.len()),
    decreases digits.len(),
{
    reveal(pow);
    if digits.len() == 0 {
    } else {
        let dl = digits.drop_last();
        assert(wf_digits(dl));
        lemma_key_value_bounds(dl);
        let p = key_space(dl.len());
        assert(key_space(digits.len()) == 26 * p);
        assert(key_value(dl) * 26 + digits.last() < 26 * p) by (nonlinear_arith)
            requires
                0 <= key_value(dl) < p,
                digits.last() <= 25,
        ;
        assert(0 <= key_value(dl) * 26 + digits.last()) by (nonlinear_arith)
            requires
                0 <= key_value(dl),
                0 <= digits.last(),
        ;
    }
}

/// If every digit at position `i` or later is 25, the key's value is the
/// prefix's value scaled by `26^(len-i)` plus `26^(len-i) - 1`.
proof fn lemma_tail_all_25(digits: Seq<usize>, i: int)
    requires
        0 <= i <= digits.len(),
        forall|j: int| i <= j < digits.len() ==> (#[trigger] digits[j]) == 25,
    ensures
        key_value(digits) == key_value(digits.take(i)) * key_space((digits.len() - i) as nat)
            + key_space((digits.len() - i) as nat) - 1,
    decreases digits.len() - i,
{
    reveal(pow);
    let len = digits.len() as int;
    if i == len {
        assert(digits.take(i) =~= digits);
        assert(key_space(0) == 1);
    } else {
        let dl = digits.drop_last();
        assert(dl =~= digits.take(len - 1));
        lemma_tail_all_25(dl, i);
        assert(dl.take(i) =~= digits.take(i));
        let p = key_space((len - 1 - i) as nat);
        assert(key_space((len - i) as nat) == 26 * p);
        let v = key_value(digits.take(i));
        assert(key_value(digits) == (v * p + p - 1) * 26 + 25);
        assert((v * p + p - 1) * 26 + 25 == v * (26 * p) + 26 * p - 1) by (nonlinear_arith);
    }
}

/// If every digit at position `i` or later is 0, the key's value is the
/// prefix's value scaled by `26^(len-i)`.
proof fn lemma_tail_all_0(digits: Seq<usize>, i: int)
    requires
        0 <= i <= digits.len(),
        forall|j: int| i <= j < digits.len() ==> (#[trigger] digits[j]) == 0,
    ensures
        key_value(digits) == key_value(digits.take(i)) * key_space((digits.len() - i) as nat),
    decreases digits.len() - i,
{
    reveal(pow);
    let len = digits.len() as int;
    if i == len {
        assert(digits.take(i) =~= digits);
        assert(key_space(0) == 1);
    } else {
        let dl = digits.drop_last();
        assert(dl =~= digits.take(len - 1));
        lemma_tail_all_0(dl, i);
        assert(dl.take(i) =~= digits.take(i));
        let p = key_space((len - 1 - i) as nat);
        assert(key_space((len - i) as nat) == 26 * p);
        let v = key_value(digits.take(i));
        assert(key_value(digits) == (v * p) * 26 + 0);
        assert((v * p) * 26 == v * (26 * p)) by (nonlinear_arith);
    }
}

/// The all-zero key has value 0.
proof fn lemma_zero_value(digits: Seq<usize>)
    requires
        forall|j: int| 0 <= j < digits.len() ==> (#[trigger] digits[j]) == 0,
    ensures
        key_value(digits) == 0,
{
    lemma_tail_all_0(digits, 0);
    assert(digits.take(0) =~= Seq::<usize>::empty());
    assert(key_value(digits.take(0)) == 0);
}

/// The all-25 key of length `len` has the greatest value, `26^len - 1`.
proof fn lemma_max_value(digits: Seq<usize>)
    requires
        forall|j: int| 0 <= j < digits.len() ==> (#[trigger] digits[j]) == 25,
    ensures
        key_value(digits) == key_space(digits.len()) - 1,
{
    lemma_tail_all_25(digits, 0);
    assert(digits.take(0) =~= Seq::<usize>::empty());
    assert(key_value(digits.take(0)) == 0);
}

/// One odometer step: if the old key ends in a (possibly empty) run of 25s
/// after position `i`, and the new key agrees before `i`, has the digit at
/// `i` one higher, and zeros after it, the value advanced by exactly one.
proof fn lemma_bump(olds: Seq<usize>, news: Seq<usize>, i: int)
    requires
        olds.len() == news.len(),
        0 <= i < olds.len(),
        news.take(i) == olds.take(i),
        news[i] == olds[i] + 1,
        forall|j: int| i < j < olds.len() ==> (#[trigger] olds[j]) == 25,
        forall|j: int| i < j < news.len() ==> (#[trigger] news[j]) == 0,
    ensures
        key_value(news) == key_value(olds) + 1,
{
    let len = olds.len() as int;
    let p = key_space((len - i - 1) as nat);
    lemma_tail_all_25(olds, i + 1);
    lemma_tail_all_0(news, i + 1);
    assert(olds.take(i + 1).drop_last() =~= olds.take(i));
    assert(news.take(i + 1).drop_last() =~= news.take(i));
    assert(olds.take(i + 1).last() == olds[i]);
    assert(news.take(i + 1).last() == news[i]);
    let v = key_value(olds.take(i));
    assert(key_value(olds.take(i + 1)) == v * 26 + olds[i]);
    assert(key_value(news.take(i + 1)) == v * 26 + olds[i] + 1);
    let w = v * 26 + olds[i];
    assert(key_value(olds) == w * p + p - 1);
    assert(key_value(news) == (w + 1) * p);
    assert((w + 1) * p == w * p + p) by (nonlinear_arith);
}

/// Lexicographic order on keys, read left to right.
pub open spec fn lex_less(a: Seq<usize>, b: Seq<usize>) -> bool
    decreases a.len(),
{
    if a.len() == 0 || b.len() == 0 {
        false
    } else if a.first() < b.first() {
        true
    } else if a.first() == b.first() {
        lex_less(a.drop_first(), b.drop_first())
    } else {
        false
    }
}

/// A key's value splits at its most significant digit.
proof fn lemma_value_first_split(s: Seq<usize>)
    requires
        s.len() >= 1,
    ensures
        key_value(s) == s.first() * key_space((s.len() - 1) as nat) + key_value(s.drop_first()),
    decreases s.len(),
{
    reveal(pow);
    let len = s.len() as int;
    if len == 1 {
        assert(s.drop_last() =~= Seq::<usize>::empty());
        assert(s.drop_first() =~= Seq::<usize>::empty());
        assert(key_space(0) == 1);
        assert(s.last() == s.first());
        assert(s.first() * 1 == s.first()) by (nonlinear_arith);
    } else {
        let dl = s.drop_last();
        let df = s.drop_first();
        lemma_value_first_split(dl);
        assert(dl.first() == s.first());
        assert(dl.drop_first() =~= df.drop_last());
        assert(dl.len() - 1 == len - 2);
        let p = key_space((len - 2) as nat);
        assert(key_space((len - 1) as nat) == 26 * p);
        assert(s.last() == df.last());
        assert(key_value(df) == key_value(df.drop_last()) * 26 + df.last());
        let f = s.first() as int;
        let x = key_value(df.drop_last());
        assert(key_value(s) == (f * p + x) * 26 + df.last());
        assert((f * p + x) * 26 == f * (26 * p) + x * 26) by (nonlinear_arith);
    }
}

/// On well-formed keys of equal length, lexicographic order and numeric
/// order coincide.  Together with the one-step contract of
/// [`KeyEnumerator::next`] this pins the enumeration order: each key handed
/// out is strictly lexicographically greater than the one before it, so no
/// key is ever repeated.
pub proof fn lemma_lex_order_is_value_order(a: Seq<usize>, b: Seq<usize>)
    requires
        wf_digits(a),
        wf_digits(b),
        a.len() == b.len(),
    ensures
        lex_less(a, b) <==> key_value(a) < key_value(b),
    decreases a.len(),
{
    if a.len() == 0 {
    } else {
        let p = key_space((a.len() - 1) as nat);
        let af = a.drop_first();
        let bf = b.drop_first();
        assert(wf_digits(af) && wf_digits(bf));
        lemma_value_first_split(a);
        lemma_value_first_split(b);
        lemma_key_value_bounds(af);
        lemma_key_value_bounds(bf);
        lemma_lex_order_is_value_order(af, bf);
        let a0 = a.first() as int;
        let b0 = b.first() as int;
        if a0 < b0 {
            assert(a0 * p + key_value(af) < b0 * p + key_value(bf)) by (nonlinear_arith)
                requires
                    a0 < b0,
                    0 <= key_value(af) < p,
                    0 <= key_value(bf),
            ;
        } else if a0 > b0 {
            assert(b0 * p + key_value(bf) < a0 * p + key_value(af)) by (nonlinear_arith)
                requires
                    b0 < a0,
                    0 <= key_value(bf) < p,
                    0 <= key_value(af),
            ;
        }
    }
}

/// Walks every key of a fixed length, one call at a time, in base-26
/// counting order.
pub struct KeyEnumerator {
    digits: Vec<usize>,
    exhausted: bool,
}

impl KeyEnumerator {
    /// The key the enumerator stands on.
    pub closed spec fn current(&self) -> Seq<usize> {
        self.digits@
    }

    /// True once every key of the length has been handed out.
    pub closed spec fn done(&self) -> bool {
        self.exhausted
    }

    /// Well-formed state: at least one digit, all in range.
    pub open spec fn wf(&self) -> bool {
        &&& self.current().len() >= 1
        &&& wf_digits(self.current())
    }

    /// Starts the walk at the all-zero key of the given length.
    pub fn new(key_length: usize) -> (r: Self)
        requires
            1 <= key_length,
        ensures
            r.wf(),
            !r.done(),
            r.current().len() == key_length,
            forall|i: int| 0 <= i < key_length ==> r.current()[i] == 0,
            key_value(r.current()) == 0,
    {
        let mut digits: Vec<usize> = Vec::new();
        let mut i: usize = 0;
        while i < key_length
            invariant
                i <= key_length,
                digits@.len() == i,
                forall|j: int| 0 <= j < i ==> digits@[j] == 0,
            decreases key_length - i,
        {
            digits.push(0);
            i = i + 1;
        }
        proof {
            lemma_zero_value(digits@);
        }
        KeyEnumerator { digits, exhausted: false }
    }

    /// Hands out the current key and steps to its successor.  Returns `None`
    /// once the key space is exhausted.  Each produced key's value is one
    /// greater than its predecessor's, so the walk visits every key of the
    /// length exactly once, in increasing order of value.
    pub fn next(&mut self) -> (r: Option<Vec<usize>>)
        requires
            old(self).wf(),
        ensures
            final(self).wf(),
            final(self).current().len() == old(self).current().len(),
            r is Some <==> !old(self).done(),
            old(self).done() ==> final(self).done() && final(self).current() == old(
                self,
            ).current(),
            !old(self).done() ==> r->Some_0@ == old(self).current(),
            !old(self).done() ==> if key_value(old(self).current()) + 1 < key_space(
                old(self).current().len(),
            ) {
                !final(self).done() && key_value(final(self).current()) == key_value(
                    old(self).current(),
                ) + 1
            } else {
                final(self).done()
            },
    {
        if self.exhausted {
            return None;
        }
        let ghost olds = self.digits@;
        let mut key: Vec<usize> = Vec::new();
        let mut c: usize = 0;
        while c < self.digits.len()
            invariant
                c <= self.digits@.len(),
                key@.len() == c,
                forall|j: int| 0 <= j < c ==> key@[j] == self.digits@[j],
                self.digits@ == olds,
                self.exhausted == false,
            decreases self.digits@.len() - c,
        {
            key.push(self.digits[c]);
            c = c + 1;
        }
        assert(key@ =~= olds);
        let len: usize = self.digits.len();
        let mut i: usize = len;
        let mut bumped = false;
        while i > 0 && !bumped
            invariant
                i <= len,
                len == self.digits@.len(),
                1 <= len,
                wf_digits(self.digits@),
                wf_digits(olds),
                olds.len() == len,
                self.exhausted == false,
                !bumped ==> forall|j: int| i <= j < len ==> (#[trigger] olds[j]) == 25,
                !bumped ==> forall|j: int| i <= j < len ==> (#[trigger] self.digits@[j]) == 0,
                !bumped ==> self.digits@.take(i as int) == olds.take(i as int),
                bumped ==> key_value(self.digits@) == key_value(olds) + 1,
            decreases i,
        {
            i = i - 1;
            assert(self.digits@[i as int] == olds[i as int]) by {
                assert(self.digits@.take(i as int + 1)[i as int] == olds.take(
                    i as int + 1,
                )[i as int]);
            }
            let ghost before = self.digits@;
            let d: usize = self.digits[i];
            if d < 25 {
                self.digits[i] = d + 1;
                proof {
                    assert(self.digits@ == before.update(i as int, (d + 1) as usize));
                    assert(self.digits@.take(i as int) =~= olds.take(i as int)) by {
                        assert(before.take(i as int + 1) == olds.take(i as int + 1));
                        assert forall|j: int| 0 <= j < i implies before[j] == olds[j] by {
                            assert(before.take(i as int + 1)[j] == olds.take(i as int + 1)[j]);
                        }
                    }
                    assert forall|j: int| i < j < len implies (#[trigger] self.digits@[j])
                        == 0 by {
                        assert(before[j] == 0);
                    }
                    lemma_bump(olds, self.digits@, i as int);
                }
                bumped = true;
            } else {
                self.digits[i] = 0;
                proof {
                    assert(self.digits@ == before.update(i as int, 0usize));
                    assert(olds[i as int] == 25);
                    assert(self.digits@.take(i as int) =~= olds.take(i as int)) by {
                        assert forall|j: int| 0 <= j < i implies before[j] == olds[j] by {
                            assert(before.take(i as int + 1)[j] == olds.take(i as int + 1)[j]);
                        }
                    }
                    assert forall|j: int| i <= j < len implies (#[trigger] olds[j])
                        == 25 by {
                    }
                    assert forall|j: int| i <= j < len implies (#[trigger] self.digits@[j])
                        == 0 by {
                        if j > i {
                            assert(before[j] == 0);
                        }
                    }
                }
            }
        }
        if !bumped {
            self.exhausted = true;
            proof {
                lemma_max_value(olds);
            }
        } else {
            proof {
                lemma_key_value_bounds(self.digits@);
            }
        }
        Some(key)
    }
}

} // verus!
