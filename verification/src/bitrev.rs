//! Arithmetic of bit-reversed indices over a power-of-two index space.
//!
//! The radix-2 transform begins by moving the sample at index `i` to the
//! index whose binary digits are those of `i` written in reverse order.
//! This module defines that reversal as a specification function and proves
//! the facts the permutation code needs: a bound, a decomposition rule,
//! how a reversed index changes when the original index is incremented,
//! and that reversal is an involution.

use vstd::arithmetic::div_mod::{
    lemma_div_is_ordered, lemma_fundamental_div_mod, lemma_fundamental_div_mod_converse,
    lemma_small_mod,
};
use vstd::arithmetic::power2::{
    lemma2_to64, lemma_pow2_adds, lemma_pow2_pos, lemma_pow2_strictly_increases,
    lemma_pow2_unfold, pow2,
};
use vstd::prelude::*;

verus! {

/// True exactly when `n` is 1, 2, 4, 8, ... — the lengths the transform accepts.
pub open spec fn is_power_of_two(n: nat) -> bool {
    exists|b: nat| n == pow2(b)
}

/// The number of binary digits used to index a buffer of power-of-two length
/// `n`: `log2(pow2(b)) == b`.
pub open spec fn log2(n: nat) -> nat
    decreases n,
{
    if n <= 1 {
        0
    } else {
        1 + log2(n / 2)
    }
}

/// The low `b` binary digits of `i`, written in reverse order.
pub open spec fn bit_rev(i: nat, b: nat) -> nat
    decreases b,
{
    if b == 0 {
        0
    } else {
        (i % 2) * pow2((b - 1) as nat) + bit_rev(i / 2, (b - 1) as nat)
    }
}

pub proof fn lemma_log2_pow2(b: nat)
    ensures
        log2(pow2(b)) == b,
    decreases b,
{
    lemma2_to64();
    if b > 0 {
        let b1 = (b - 1) as nat;
        lemma_pow2_unfold(b);
        lemma_pow2_pos(b1);
        lemma_log2_pow2(b1);
        lemma_pow2_strictly_increases(0, b);
        assert(pow2(b) / 2 == pow2(b1)) by {
            lemma_fundamental_div_mod_converse(pow2(b) as int, 2, pow2(b1) as int, 0);
        }
    }
}

pub proof fn lemma_pow2_log2(n: nat)
    requires
        is_power_of_two(n),
    ensures
        pow2(log2(n)) == n,
{
    let b = choose|b: nat| n == pow2(b);
    lemma_log2_pow2(b);
}

/// A power of two is at least one.
pub proof fn lemma_pow2_at_least_one(n: nat)
    requires
        is_power_of_two(n),
    ensures
        n >= 1,
{
    let b = choose|b: nat| n == pow2(b);
    lemma_pow2_pos(b);
}

/// A power of two of at least two splits evenly in half, and the half is
/// again a power of two.
pub proof fn lemma_pow2_halves(n: nat)
    requires
        is_power_of_two(n),
        n >= 2,
    ensures
        n % 2 == 0,
        (n / 2) * 2 == n,
        is_power_of_two((n / 2) as nat),
{
    lemma2_to64();
    let b = choose|b: nat| n == pow2(b);
    assert(b > 0);
    let b1 = (b - 1) as nat;
    lemma_pow2_unfold(b);
    lemma_pow2_pos(b1);
    lemma_fundamental_div_mod_converse(n as int, 2, pow2(b1) as int, 0);
    assert(n / 2 == pow2(b1));
}

/// The zero index is a fixed point of reversal at every width.
pub proof fn lemma_bit_rev_zero(b: nat)
    ensures
        bit_rev(0, b) == 0,
    decreases b,
{
    if b > 0 {
        lemma_bit_rev_zero((b - 1) as nat);
        assert(0nat % 2 == 0 && 0nat / 2 == 0) by (nonlinear_arith);
    }
}

/// A reversed `b`-digit index again has `b` digits.
pub proof fn lemma_bit_rev_bound(i: nat, b: nat)
    ensures
        bit_rev(i, b) < pow2(b),
    decreases b,
{
    lemma2_to64();
    if b > 0 {
        let b1 = (b - 1) as nat;
        lemma_bit_rev_bound(i / 2, b1);
        lemma_pow2_unfold(b);
        if i % 2 == 0 {
            assert(bit_rev(i, b) == bit_rev(i / 2, b1));
        } else {
            assert(i % 2 == 1);
            assert((i % 2) * pow2(b1) == pow2(b1));
        }
    }
}

/// Splitting an index into its low `s` digits `a` and high digits `h`
/// reverses the two blocks and swaps them.
pub proof fn lemma_bit_rev_split(a: nat, h: nat, s: nat, b: nat)
    requires
        a < pow2(s),
        s <= b,
    ensures
        bit_rev(a + pow2(s) * h, b) == bit_rev(a, s) * pow2((b - s) as nat) + bit_rev(
            h,
            (b - s) as nat,
        ),
    decreases s,
{
    reveal_with_fuel(bit_rev, 3);
    lemma2_to64();
    let w = (b - s) as nat;
    if s == 0 {
        assert(a == 0);
        assert(pow2(0) * h == h);
        assert(w == b);
        assert(bit_rev(a, 0) == 0);
        assert(a + pow2(s) * h == h);
        assert(bit_rev(a + pow2(s) * h, b) == bit_rev(h, w));
        assert(bit_rev(a, s) * pow2(w) == 0);
    } else {
        let s1 = (s - 1) as nat;
        let b1 = (b - 1) as nat;
        let i = a + pow2(s) * h;
        let k = pow2(s1) * h;
        lemma_pow2_unfold(s);
        lemma_pow2_pos(s1);
        assert(pow2(s) * h == 2 * k) by (nonlinear_arith)
            requires
                pow2(s) == 2 * pow2(s1),
                k == pow2(s1) * h,
        ;
        // a / 2 < pow2(s1), because a <= 2 * pow2(s1) - 1
        assert(a / 2 < pow2(s1)) by {
            lemma_div_is_ordered(a as int, 2 * pow2(s1) - 1, 2);
            lemma_fundamental_div_mod_converse(
                2 * pow2(s1) - 1,
                2,
                pow2(s1) - 1,
                1,
            );
        }
        // i % 2 == a % 2 and i / 2 == a / 2 + k
        lemma_fundamental_div_mod(a as int, 2);
        lemma_fundamental_div_mod_converse(i as int, 2, (a / 2 + k) as int, (a % 2) as int);
        assert(i % 2 == a % 2);
        assert(i / 2 == a / 2 + pow2(s1) * h);
        lemma_bit_rev_split(a / 2, h, s1, b1);
        assert(bit_rev(i, b) == (a % 2) * pow2(b1) + bit_rev(a / 2, s1) * pow2(w) + bit_rev(h, w));
        lemma_pow2_adds(s1, w);
        assert(bit_rev(a, s) == (a % 2) * pow2(s1) + bit_rev(a / 2, s1));
        assert(bit_rev(a, s) * pow2(w) == (a % 2) * pow2(b1) + bit_rev(a / 2, s1) * pow2(w))
            by (nonlinear_arith)
            requires
                bit_rev(a, s) == (a % 2) * pow2(s1) + bit_rev(a / 2, s1),
                pow2(s1) * pow2(w) == pow2(b1),
        ;
        assert(bit_rev(a + pow2(s) * h, b) == bit_rev(a, s) * pow2(w) + bit_rev(h, w));
    }
}

/// The leading digit of a reversed `s`-digit index is the trailing digit of
/// the original index.
pub proof fn lemma_bit_rev_top(h: nat, s: nat)
    requires
        s >= 1,
    ensures
        bit_rev(h, s) / pow2((s - 1) as nat) == h % 2,
        bit_rev(h, s) % pow2((s - 1) as nat) == bit_rev(h / 2, (s - 1) as nat),
{
    let s1 = (s - 1) as nat;
    lemma_bit_rev_bound(h / 2, s1);
    lemma_pow2_pos(s1);
    lemma_fundamental_div_mod_converse(
        bit_rev(h, s) as int,
        pow2(s1) as int,
        (h % 2) as int,
        bit_rev(h / 2, s1) as int,
    );
}

/// Reversing the low `c` ones of the index `pow2(c) - 1` in `c + 1` digits
/// sets every digit but the lowest.
pub proof fn lemma_bit_rev_ones(c: nat)
    ensures
        bit_rev((pow2(c) - 1) as nat, c + 1) == pow2(c + 1) - 2,
    decreases c,
{
    reveal_with_fuel(bit_rev, 3);
    lemma2_to64();
    if c > 0 {
        let c1 = (c - 1) as nat;
        let v = (pow2(c) - 1) as nat;
        lemma_pow2_unfold(c);
        lemma_pow2_pos(c1);
        lemma_fundamental_div_mod_converse(v as int, 2, pow2(c1) - 1, 1);
        assert(v % 2 == 1);
        assert(v / 2 == pow2(c1) - 1);
        lemma_bit_rev_ones(c1);
        lemma_pow2_unfold(c + 1);
        assert((v % 2) * pow2(c) == pow2(c));
        assert(bit_rev(v, c + 1) == (v % 2) * pow2(((c + 1) - 1) as nat) + bit_rev(
            v / 2,
            ((c + 1) - 1) as nat,
        ));
        assert(bit_rev(v / 2, c) == pow2(c) - 2);
        assert(bit_rev(v, c + 1) == pow2(c) + (pow2(c) - 2));
    }
}

/// Reversing the single set digit of `pow2(c)` in `c + 1` digits yields 1.
pub proof fn lemma_bit_rev_pow2(c: nat)
    ensures
        bit_rev(pow2(c), c + 1) == 1,
    decreases c,
{
    lemma2_to64();
    if c == 0 {
        assert(bit_rev(1nat, 1nat) == (1nat % 2) * pow2(0nat) + bit_rev(0nat, 0nat));
    } else {
        let c1 = (c - 1) as nat;
        lemma_pow2_unfold(c);
        lemma_pow2_pos(c1);
        lemma_fundamental_div_mod_converse(pow2(c) as int, 2, pow2(c1) as int, 0);
        assert(pow2(c) % 2 == 0);
        assert(pow2(c) / 2 == pow2(c1));
        lemma_bit_rev_pow2(c1);
    }
}

/// Dropping the low `c` digits of `i` before reversing is the same as
/// reversing all `b` digits and keeping the low `b - c`.
pub proof fn lemma_bit_rev_shift(i: nat, c: nat, b: nat)
    requires
        c <= b,
    ensures
        bit_rev(i, b) % pow2((b - c) as nat) == bit_rev(i / pow2(c), (b - c) as nat),
        bit_rev(i, b) / pow2((b - c) as nat) == bit_rev(i % pow2(c), c),
{
    let w = (b - c) as nat;
    let a = i % pow2(c);
    let h = i / pow2(c);
    lemma_pow2_pos(c);
    lemma_pow2_pos(w);
    lemma_fundamental_div_mod(i as int, pow2(c) as int);
    assert(i == a + pow2(c) * h);
    lemma_bit_rev_split(a, h, c, b);
    lemma_bit_rev_bound(h, w);
    lemma_fundamental_div_mod_converse(
        bit_rev(i, b) as int,
        pow2(w) as int,
        bit_rev(a, c) as int,
        bit_rev(h, w) as int,
    );
}

/// How the reversed index changes when the original index is incremented:
/// if the low digits of `i` are `c` ones followed by a zero, the increment
/// clears the top `c` digits of the reversal and sets the next one down.
pub proof fn lemma_bit_rev_increment(i: nat, c: nat, b: nat)
    requires
        c < b,
        i < pow2(b),
        i % pow2(c + 1) == pow2(c) - 1,
    ensures
        i + 1 < pow2(b),
        bit_rev(i + 1, b) == bit_rev(i, b) % pow2((b - c - 1) as nat) + pow2((b - c - 1) as nat),
    decreases b,
{
    let w = (b - c - 1) as nat;
    let hi = i / pow2(c + 1);
    lemma_pow2_pos(c + 1);
    lemma_pow2_pos(c);
    lemma_pow2_pos(w);
    lemma_fundamental_div_mod(i as int, pow2(c + 1) as int);
    assert(i == (pow2(c) - 1) + pow2(c + 1) * hi);
    lemma_pow2_adds(c + 1, w);
    assert(hi < pow2(w)) by (nonlinear_arith)
        requires
            i < pow2(c + 1) * pow2(w),
            i >= pow2(c + 1) * hi,
            pow2(c + 1) > 0,
    ;
    lemma_pow2_unfold(c + 1);
    lemma_bit_rev_split((pow2(c) - 1) as nat, hi, c + 1, b);
    lemma_bit_rev_ones(c);
    lemma_bit_rev_split(pow2(c), hi, c + 1, b);
    lemma_bit_rev_pow2(c);
    lemma_bit_rev_bound(hi, w);
    assert(bit_rev(i, b) == (pow2(c + 1) - 2) * pow2(w) + bit_rev(hi, w));
    assert(bit_rev(i + 1, b) == pow2(w) + bit_rev(hi, w));
    lemma_fundamental_div_mod_converse(
        bit_rev(i, b) as int,
        pow2(w) as int,
        pow2(c + 1) - 2,
        bit_rev(hi, w) as int,
    );
    assert(bit_rev(i, b) % pow2(w) == bit_rev(hi, w));
    // i + 1 <= pow2(c + 1) * (pow2(w) - 1) + pow2(c) < pow2(b)
    assert(i + 1 < pow2(c + 1) * pow2(w)) by (nonlinear_arith)
        requires
            i == (pow2(c) - 1) + pow2(c + 1) * hi,
            hi < pow2(w),
            pow2(c + 1) == 2 * pow2(c),
            pow2(c) > 0,
            pow2(w) > 0,
    ;
}

/// Reversal is an involution: reversing twice restores the index.
pub proof fn lemma_bit_rev_involution(i: nat, b: nat)
    requires
        i < pow2(b),
    ensures
        bit_rev(bit_rev(i, b), b) == i,
    decreases b,
{
    reveal_with_fuel(bit_rev, 3);
    lemma2_to64();
    if b == 0 {
        assert(i == 0);
    } else {
        let b1 = (b - 1) as nat;
        lemma_pow2_unfold(b);
        lemma_pow2_pos(b1);
        lemma_fundamental_div_mod(i as int, 2);
        assert(i == i % 2 + 2 * (i / 2));
        assert(pow2(1) * (i / 2) == 2 * (i / 2));
        lemma_bit_rev_split(i % 2, i / 2, 1, b);
        lemma_small_mod((i % 2) as nat, 2);
        assert(bit_rev(i % 2, 1) == ((i % 2) % 2) * pow2(0) + bit_rev((i % 2) / 2, 0));
        assert(bit_rev(i % 2, 1) == i % 2);
        let r = bit_rev(i, b);
        let rt = bit_rev(i / 2, b1);
        assert(r == (i % 2) * pow2(b1) + rt);
        lemma_bit_rev_bound(i / 2, b1);
        // r = rt + pow2(b1) * (i % 2)
        lemma_bit_rev_split(rt, i % 2, b1, b);
        assert(bit_rev(r, b) == bit_rev(rt, b1) * pow2(1) + bit_rev(i % 2, 1));
        assert(i / 2 < pow2(b1)) by {
            lemma_div_is_ordered(i as int, 2 * pow2(b1) - 1, 2);
            lemma_fundamental_div_mod_converse(2 * pow2(b1) - 1, 2, pow2(b1) - 1, 1);
        }
        lemma_bit_rev_involution(i / 2, b1);
        assert(bit_rev(r, b) == (i / 2) * 2 + i % 2);
    }
}

} // verus!
