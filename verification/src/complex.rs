//! Complex samples and the in-place machinery of the complex transform.
//!
//! A sample stores the IEEE-754 bit patterns of its two double-precision
//! parts, so the permutation and packing steps of the transform — which only
//! move, mirror, or conjugate samples — are exact and fully verified. The
//! butterfly arithmetic that combines samples is floating-point work and is
//! driven from outside the crate; [`butterflies`] hands the driver the exact
//! pairing and twiddle order the network consumes.

use crate::bitrev::{
    bit_rev, is_power_of_two, lemma_bit_rev_bound, lemma_bit_rev_increment,
    lemma_bit_rev_involution, lemma_bit_rev_shift, lemma_bit_rev_top, lemma_bit_rev_zero,
    lemma_pow2_log2, log2,
};
use vstd::arithmetic::div_mod::{
    lemma_div_denominator, lemma_fundamental_div_mod, lemma_fundamental_div_mod_converse,
    lemma_mod_breakdown, lemma_small_mod,
};
use vstd::arithmetic::power2::{
    lemma2_to64, lemma_pow2_adds, lemma_pow2_pos, lemma_pow2_strictly_increases,
    lemma_pow2_unfold, pow2,
};
use vstd::bits::{lemma_usize_shl_is_mul, lemma_usize_shr_is_div};
use vstd::layout::unsigned_int_max_values;
use vstd::prelude::*;

verus! {

/// The sign bit of an IEEE-754 double-precision bit pattern.
pub const SIGN_BIT: u64 = 0x8000_0000_0000_0000;

/// One complex sample: the IEEE-754 bit patterns of the real and imaginary
/// parts of a double-precision complex number. Samples are plain values;
/// moving or comparing them never rounds.
#[derive(Clone, Copy, Debug, Eq, PartialEq, Structural)]
pub struct Complex {
    /// Bit pattern of the real part.
    pub re: u64,
    /// Bit pattern of the imaginary part.
    pub im: u64,
}

impl Complex {
    /// The conjugate of a sample, at specification level.
    pub open spec fn spec_conj(self) -> Complex {
        Complex { re: self.re, im: self.im ^ SIGN_BIT }
    }

    /// The complex conjugate: the imaginary part is negated. IEEE-754
    /// negation flips exactly the sign bit of a pattern, so on bit patterns
    /// conjugation is an exclusive or with the sign mask — an exact
    /// operation, even on zeros, infinities and NaNs.
    pub fn conj(self) -> (r: Complex)
        ensures
            r == self.spec_conj(),
    {
        Complex { re: self.re, im: self.im ^ SIGN_BIT }
    }
}

/// Conjugation is an involution: conjugating twice restores the sample.
pub proof fn lemma_conj_involution(c: Complex)
    ensures
        c.spec_conj().spec_conj() == c,
{
    let x = c.im;
    assert((x ^ SIGN_BIT) ^ SIGN_BIT == x) by (bit_vector);
}

/// The bit-reversal permutation of a power-of-two-length sequence: the
/// sample at each index moves to the index with the reversed binary digits.
pub open spec fn bit_rev_perm(s: Seq<Complex>) -> Seq<Complex> {
    Seq::new(s.len(), |k: int| s[bit_rev(k as nat, log2(s.len())) as int])
}

/// The bit-reversal permutation is self-inverse: applying it twice
/// restores the sequence, which is why [`rearrange`] can perform each swap
/// exactly once.
pub proof fn lemma_bit_rev_perm_involution(s: Seq<Complex>)
    requires
        is_power_of_two(s.len()),
    ensures
        bit_rev_perm(bit_rev_perm(s)) == s,
{
    let n = s.len();
    let b = log2(n);
    lemma_pow2_log2(n);
    assert forall|k: int| 0 <= k < n implies bit_rev_perm(bit_rev_perm(s))[k] == s[k] by {
        lemma_bit_rev_bound(k as nat, b);
        lemma_bit_rev_involution(k as nat, b);
        lemma_bit_rev_bound(bit_rev(k as nat, b), b);
    }
    assert(bit_rev_perm(bit_rev_perm(s)) =~= s);
}

/// An exponent whose power of two fits in `usize` is below the word width.
proof fn lemma_exp_fits_word(m: nat)
    requires
        pow2(m) <= usize::MAX,
    ensures
        m < usize::BITS,
{
    unsigned_int_max_values();
    if m > usize::BITS as nat {
        lemma_pow2_strictly_increases(usize::BITS as nat, m);
    }
}

/// Testing a single-bit mask reads the parity of the digits above it.
proof fn lemma_single_bit_test(j: usize, mu: usize)
    by (bit_vector)
    requires
        mu < usize::BITS,
    ensures
        ((j & (1usize << mu)) != 0) <==> ((j >> mu) % 2 == 1),
{
}

/// Clearing a set single-bit mask subtracts its value.
proof fn lemma_single_bit_clear(j: usize, mu: usize)
    by (bit_vector)
    requires
        mu < usize::BITS,
        (j & (1usize << mu)) != 0,
    ensures
        (j & !(1usize << mu)) == j - (1usize << mu),
{
}

/// Setting a clear single-bit mask adds its value.
proof fn lemma_single_bit_set(j: usize, mu: usize)
    by (bit_vector)
    requires
        mu < usize::BITS,
        (j & (1usize << mu)) == 0,
    ensures
        (j | (1usize << mu)) as int == j + (1usize << mu),
{
}

/// One butterfly combine of the network: the samples at `lo` and
/// `hi == lo + step` are merged, rotating the upper one by the plan factor
/// at index `factor`.
#[derive(Clone, Copy, Debug, Eq, PartialEq, Structural)]
pub struct Butterfly {
    /// Index of the lower sample of the pair.
    pub lo: usize,
    /// Index of the upper sample of the pair.
    pub hi: usize,
    /// Index into the plan's factor table.
    pub factor: usize,
}

/// The butterfly at flat position `t` of the network on `n` samples.
///
/// The network runs `log2(n)` stages of `n / 2` butterflies each. Stage `s`
/// works on pairs `step == pow2(s)` apart, grouped into blocks of width
/// `2 * step`; within a stage the offset inside the block advances in the
/// outer loop and the block in the inner one, and the factor index advances
/// with the offset, so every block reuses the same `step` factors
/// `step - 1 .. 2 * step - 1` of the plan.
pub open spec fn butterfly_of(n: nat, t: int) -> Butterfly {
    let half = n as int / 2;
    let s = t / half;
    let q = t % half;
    let step = pow2(s as nat) as int;
    let groups = n as int / (2 * step);
    let i = q / groups;
    let g = q % groups;
    Butterfly {
        lo: (i + g * (2 * step)) as usize,
        hi: (i + g * (2 * step) + step) as usize,
        factor: (step - 1 + i) as usize,
    }
}

/// Reorder `data` in place into bit-reversed index order.
///
/// This is the first step of the iterative radix-2 transform. The running
/// target index is maintained by a mask-based carry over the reversed
/// digits rather than recomputed per index, so the whole permutation is
/// linear time with constant extra space.
pub fn rearrange(data: &mut Vec<Complex>)
    requires
        is_power_of_two(old(data)@.len()),
    ensures
        final(data)@.len() == old(data)@.len(),
        final(data)@ == bit_rev_perm(old(data)@),
{
    let n = data.len();
    let ghost b = log2(n as nat);
    proof {
        lemma_pow2_log2(n as nat);
        lemma_bit_rev_zero(b);
    }
    let mut j: usize = 0;
    let mut i: usize = 0;
    while i < n
        invariant
            n == pow2(b),
            data@.len() == n,
            old(data)@.len() == n,
            i <= n,
            i < n ==> j as nat == bit_rev(i as nat, b),
            forall|k: int|
                0 <= k < n ==> data@[k] == (if k < i || bit_rev(k as nat, b) < i as nat {
                    old(data)@[bit_rev(k as nat, b) as int]
                } else {
                    old(data)@[k]
                }),
        decreases n - i,
    {
        proof {
            lemma_bit_rev_bound(i as nat, b);
        }
        if j > i {
            let tmp_i = data[i];
            let tmp_j = data[j];
            data[i] = tmp_j;
            data[j] = tmp_i;
        }
        proof {
            lemma_bit_rev_involution(i as nat, b);
            assert forall|k: int| 0 <= k < n implies data@[k] == (if k < i + 1 || bit_rev(
                k as nat,
                b,
            ) < (i + 1) as nat {
                old(data)@[bit_rev(k as nat, b) as int]
            } else {
                old(data)@[k]
            }) by {
                lemma_bit_rev_bound(k as nat, b);
                lemma_bit_rev_involution(k as nat, b);
            }
        }
        // Advance j to the reversal of i + 1: clear the run of high bits
        // that a carry into the reversed digits would ripple through, then
        // set the next bit down.
        let mut mask: usize = n >> 1;
        let ghost mut c: nat = 0;
        proof {
            lemma_usize_shr_is_div(n, 1);
            lemma2_to64();
            if b > 0 {
                lemma_pow2_unfold(b);
                lemma_pow2_pos((b - 1) as nat);
                lemma_fundamental_div_mod_converse(n as int, 2, pow2((b - 1) as nat) as int, 0);
            }
            assert((i as nat) % pow2(0) == pow2(0) - 1) by (nonlinear_arith)
                requires
                    pow2(0nat) == 1,
            ;
            lemma_small_mod(bit_rev(i as nat, b), pow2(b));
        }
        while j & mask != 0
            invariant
                n == pow2(b),
                i < n,
                c <= b,
                mask as nat == (if c < b {
                    pow2((b - c - 1) as nat)
                } else {
                    0
                }),
                (i as nat) % pow2(c) == pow2(c) - 1,
                j as nat == bit_rev(i as nat, b) % pow2((b - c) as nat),
            decreases mask,
        {
            proof {
                assert(j & 0usize == 0) by (bit_vector);
                assert(mask != 0);
                assert(c < b);
                let m = (b - c - 1) as nat;
                lemma_pow2_pos(m);
                lemma_pow2_pos(c);
                lemma_exp_fits_word(m);
                let mu = m as usize;
                lemma_usize_shl_is_mul(1usize, mu);
                assert(mask == 1usize << mu);
                lemma_single_bit_test(j, mu);
                lemma_usize_shr_is_div(j, mu);
                let h = (i as nat) / pow2(c);
                lemma_bit_rev_shift(i as nat, c, b);
                lemma_bit_rev_top(h, (b - c) as nat);
                assert(j as nat / pow2(m) == h % 2);
                lemma_small_mod(h % 2, 2);
                assert(h % 2 == 1);
                // the tested one extends the run of low set bits of i
                lemma_mod_breakdown(i as int, pow2(c) as int, 2);
                lemma_pow2_unfold(c + 1);
                assert((i as nat) % pow2(c + 1) == pow2(c + 1) - 1);
                // clearing the bit leaves the reversal of the remaining digits
                lemma_single_bit_clear(j, mu);
                lemma_fundamental_div_mod(j as int, pow2(m) as int);
                lemma_div_denominator(i as int, pow2(c) as int, 2);
                lemma_bit_rev_shift(i as nat, c + 1, b);
                assert((j - mask) as nat == bit_rev(i as nat, b) % pow2((b - (c + 1)) as nat));
                // the mask moves one bit down
                lemma_usize_shr_is_div(mask, 1);
                lemma2_to64();
                if m > 0 {
                    lemma_pow2_unfold(m);
                    lemma_pow2_pos((m - 1) as nat);
                    lemma_fundamental_div_mod_converse(
                        mask as int,
                        2,
                        pow2((m - 1) as nat) as int,
                        0,
                    );
                } else {
                    assert(mask as nat / 2 == 0) by (nonlinear_arith)
                        requires
                            mask == 1usize,
                    ;
                }
                assert(mask as nat / 2 < mask as nat) by (nonlinear_arith)
                    requires
                        mask >= 1usize,
                ;
            }
            j = j & !mask;
            mask = mask >> 1;
            proof {
                c = c + 1;
            }
        }
        proof {
            if c < b {
                let m = (b - c - 1) as nat;
                lemma_pow2_pos(m);
                lemma_pow2_pos(c);
                lemma_exp_fits_word(m);
                let mu = m as usize;
                lemma_usize_shl_is_mul(1usize, mu);
                assert(mask == 1usize << mu);
                lemma_single_bit_test(j, mu);
                lemma_usize_shr_is_div(j, mu);
                let h = (i as nat) / pow2(c);
                lemma_bit_rev_shift(i as nat, c, b);
                lemma_bit_rev_top(h, (b - c) as nat);
                assert(j as nat / pow2(m) == h % 2);
                lemma_small_mod(h % 2, 2);
                assert(h % 2 == 0);
                lemma_mod_breakdown(i as int, pow2(c) as int, 2);
                lemma_pow2_unfold(c + 1);
                assert((i as nat) % pow2(c + 1) == pow2(c) - 1);
                lemma_fundamental_div_mod(j as int, pow2(m) as int);
                lemma_div_denominator(i as int, pow2(c) as int, 2);
                lemma_bit_rev_shift(i as nat, c + 1, b);
                assert(j as nat == bit_rev(i as nat, b) % pow2(m));
                lemma_bit_rev_increment(i as nat, c, b);
                lemma_single_bit_set(j, mu);
                assert((j + mask) as nat == bit_rev((i + 1) as nat, b));
                assert(j + mask <= usize::MAX) by {
                    lemma_bit_rev_bound((i + 1) as nat, b);
                }
            } else {
                assert(mask == 0);
                assert(j | 0usize == j) by (bit_vector);
                lemma_small_mod(i as nat, pow2(b));
                assert(i as nat == pow2(b) - 1);
            }
        }
        j = j | mask;
        i = i + 1;
    }
    proof {
        assert(data@ =~= bit_rev_perm(old(data)@));
    }
}

/// The complete butterfly schedule of the radix-2 network on `n` samples:
/// every combine of every stage, in exactly the order the iterative
/// algorithm performs them and consumes the plan's factors.
///
/// A driver that plays the schedule back over a bit-reversed buffer — for
/// each entry rotating the sample at `hi` by factor `factor` and replacing
/// the pair at `lo` and `hi` by their sum and difference — performs the
/// unnormalized transform the plan's operation describes.
pub fn butterflies(n: usize) -> (r: Vec<Butterfly>)
    requires
        is_power_of_two(n as nat),
    ensures
        r@.len() == (n as int / 2) * log2(n as nat),
        forall|t: int| 0 <= t < r@.len() ==> (#[trigger] r@[t]) == butterfly_of(n as nat, t),
        forall|t: int|
            0 <= t < r@.len() ==> ((#[trigger] r@[t]).lo < r@[t].hi < n && r@[t].factor + 1 < n),
{
    let ghost b = log2(n as nat);
    let ghost half = pow2(b) as int / 2;
    proof {
        lemma_pow2_log2(n as nat);
        lemma2_to64();
    }
    let mut r: Vec<Butterfly> = Vec::new();
    let mut step: usize = 1;
    let mut k: usize = 0;
    let ghost mut s: nat = 0;
    while step < n
        invariant
            n == pow2(b),
            b == log2(n as nat),
            half == n as int / 2,
            step as nat == pow2(s),
            k as int == step - 1,
            s <= b,
            r@.len() == half * s,
            forall|t: int| 0 <= t < r@.len() ==> (#[trigger] r@[t]) == butterfly_of(n as nat, t),
            forall|t: int|
                0 <= t < r@.len() ==> ((#[trigger] r@[t]).lo < r@[t].hi < n && r@[t].factor + 1
                    < n),
        decreases n - step,
    {
        proof {
            if s >= b {
                if s > b {
                    lemma_pow2_strictly_increases(b, s);
                }
                assert(false);
            }
        }
        let ghost groups = pow2((b - s - 1) as nat) as int;
        proof {
            lemma2_to64();
            lemma_pow2_unfold((s + 1) as nat);
            lemma_pow2_adds(s + 1, (b - s - 1) as nat);
            lemma_pow2_adds(s, (b - s) as nat);
            lemma_pow2_adds(s, (b - s - 1) as nat);
            lemma_pow2_unfold((b - s) as nat);
            lemma_pow2_pos((b - s - 1) as nat);
            lemma_pow2_pos(s);
            if b > 0 {
                lemma_pow2_unfold(b);
                lemma_fundamental_div_mod_converse(
                    n as int,
                    2,
                    pow2((b - 1) as nat) as int,
                    0,
                );
                lemma_pow2_adds((b - 1) as nat, 1);
            }
            // 2 * step <= n, so the shift below cannot overflow
            assert(2 * (step as int) == pow2(s + 1));
            assert(pow2(s + 1) <= pow2(b)) by {
                if s + 1 < b {
                    lemma_pow2_strictly_increases(s + 1, b);
                }
            }
            lemma_usize_shl_is_mul(step, 1);
        }
        let jump = step << 1;
        proof {
            assert(jump as int == (step as int) * pow2(1));
            assert(jump as int == 2 * (step as int)) by (nonlinear_arith)
                requires
                    jump as int == (step as int) * pow2(1nat),
                    pow2(1nat) == 2,
            ;
            assert((jump as int) * groups == n as int);
            assert((step as int) * groups == half);
        }
        proof {
            assert(r@.len() == half * s + 0 * groups);
        }
        let mut i: usize = 0;
        while i < step
            invariant
                n == pow2(b),
                step as nat == pow2(s),
                s < b,
                jump as int == 2 * (step as int),
                (jump as int) * groups == n as int,
                (step as int) * groups == half,
                groups == pow2((b - s - 1) as nat) as int,
                half == n as int / 2,
                groups > 0,
                step >= 1,
                i <= step,
                k as int == step - 1 + i,
                r@.len() == half * s + i * groups,
                forall|t: int| 0 <= t < r@.len() ==> (#[trigger] r@[t]) == butterfly_of(n as nat, t),
                forall|t: int|
                    0 <= t < r@.len() ==> ((#[trigger] r@[t]).lo < r@[t].hi < n && r@[t].factor + 1
                        < n),
            decreases step - i,
        {
            proof {
                lemma_pow2_strictly_increases(s, b);
            }
            let mut idx: usize = i;
            let ghost mut g: int = 0;
            while idx < n
                invariant
                    n == pow2(b),
                    step as nat == pow2(s),
                    s < b,
                    jump as int == 2 * (step as int),
                    (jump as int) * groups == n as int,
                    (step as int) * groups == half,
                    half == n as int / 2,
                    groups > 0,
                    step >= 1,
                    i < step,
                    k as int == step - 1 + i,
                    0 <= g <= groups,
                    idx as int == i + g * (jump as int),
                    g < groups ==> idx < n,
                    g == groups ==> idx >= n,
                    r@.len() == half * s + i * groups + g,
                    forall|t: int|
                        0 <= t < r@.len() ==> (#[trigger] r@[t]) == butterfly_of(n as nat, t),
                    forall|t: int|
                        0 <= t < r@.len() ==> ((#[trigger] r@[t]).lo < r@[t].hi < n && r@[t].factor
                            + 1 < n),
                decreases n + jump - idx,
            {
                proof {
                    assert(g < groups);
                    assert(idx + step < n) by (nonlinear_arith)
                        requires
                            idx as int == i + g * (jump as int),
                            g <= groups - 1,
                            (jump as int) * groups == n as int,
                            jump as int == 2 * (step as int),
                            i < step,
                            step >= 1,
                            g >= 0,
                    ;
                    let q = i * groups + g;
                    let t = half * s + q;
                    assert(half * s == (s as int) * half) by (nonlinear_arith);
                    assert(groups * (2 * (step as int)) == (2 * (step as int)) * groups)
                        by (nonlinear_arith);
                    assert(q < half) by (nonlinear_arith)
                        requires
                            q == i * groups + g,
                            i <= step - 1,
                            0 <= g < groups,
                            (step as int) * groups == half,
                    ;
                    assert(q >= 0) by (nonlinear_arith)
                        requires
                            q == i * groups + g,
                            i >= 0,
                            groups > 0,
                            g >= 0,
                    ;
                    lemma_fundamental_div_mod_converse(t, half, s as int, q);
                    lemma_fundamental_div_mod_converse(q, groups, i as int, g);
                    lemma_fundamental_div_mod_converse(n as int, 2 * (step as int), groups, 0);
                    assert(g * (2 * (step as int)) == g * (jump as int));
                }
                r.push(Butterfly { lo: idx, hi: idx + step, factor: k });
                proof {
                    assert(jump as int <= n as int) by (nonlinear_arith)
                        requires
                            (jump as int) * groups == n as int,
                            groups >= 1,
                            jump >= 1,
                    ;
                    assert(r@[r@.len() - 1].factor + 1 < n);
                    assert(r@[r@.len() - 1] == butterfly_of(n as nat, r@.len() - 1));
                    // the next group start stays within the machine word
                    unsigned_int_max_values();
                    assert(pow2(s + 1) <= pow2(b)) by {
                        lemma_pow2_unfold(s + 1);
                        if s + 1 < b {
                            lemma_pow2_strictly_increases(s + 1, b);
                        }
                    }
                    assert(pow2(b + 1) <= pow2(usize::BITS as nat)) by {
                        lemma_exp_fits_word(b);
                        if b + 1 < usize::BITS as nat {
                            lemma_pow2_strictly_increases(b + 1, usize::BITS as nat);
                        }
                    }
                    lemma_pow2_unfold(b + 1);
                    assert(idx + jump <= usize::MAX);
                }
                idx = idx + jump;
                proof {
                    g = g + 1;
                    assert(g * (jump as int) == (g - 1) * (jump as int) + (jump as int))
                        by (nonlinear_arith);
                    assert(g == groups ==> g * (jump as int) == n as int) by (nonlinear_arith)
                        requires
                            (jump as int) * groups == n as int,
                    ;
                    assert(g < groups ==> idx < n) by (nonlinear_arith)
                        requires
                            idx as int == i + g * (jump as int),
                            (jump as int) * groups == n as int,
                            i < step,
                            jump as int == 2 * (step as int),
                            step >= 1,
                            g >= 0,
                    ;
                }
            }
            k = k + 1;
            i = i + 1;
            proof {
                assert(half * s + (i - 1) * groups + groups == half * s + i * groups)
                    by (nonlinear_arith);
            }
        }
        proof {
            assert(half * s + step * groups == half * (s + 1)) by (nonlinear_arith)
                requires
                    (step as int) * groups == half,
            ;
            s = s + 1;
        }
        step = jump;
        proof {
            assert(k as int == step - 1);
        }
    }
    proof {
        if s < b {
            lemma_pow2_strictly_increases(s, b);
            assert(false);
        }
    }
    r
}

} // verus!
