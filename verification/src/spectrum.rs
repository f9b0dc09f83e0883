//! The real-data side of the transform: the safe copies between
//! interleaved real buffers and complex samples, and the packed-spectrum
//! codec with its Hermitian-symmetry guarantees.
//!
//! The forward transform of a real buffer stores only the positive
//! frequency half of the spectrum: the first and last components, which
//! are real, sit in slots 0 and 1, and the remaining bins follow as
//! interleaved pairs. [`unpack`] expands that encoding into the full
//! complex spectrum, reconstructing the mirrored bins from conjugate
//! symmetry; [`repack`] reads the encoding back off an expanded spectrum.

use crate::bitrev::{is_power_of_two, lemma_pow2_at_least_one, lemma_pow2_halves};
use crate::complex::Complex;
use vstd::arithmetic::div_mod::lemma_fundamental_div_mod_converse;
use vstd::prelude::*;

verus! {

/// The complex reading of an interleaved real buffer: each pair of
/// adjacent reals becomes one sample.
pub open spec fn as_complex(data: Seq<u64>) -> Seq<Complex> {
    Seq::new(
        data.len() / 2,
        |k: int| Complex { re: data[2 * k], im: data[2 * k + 1] },
    )
}

/// The interleaved real reading of a complex buffer.
pub open spec fn as_real(s: Seq<Complex>) -> Seq<u64> {
    Seq::new(
        s.len() * 2,
        |k: int|
            if k % 2 == 0 {
                s[k / 2].re
            } else {
                s[k / 2].im
            },
    )
}

/// Copy an even-length interleaved real buffer into complex samples.
///
/// The transform engine treats a real buffer of length `2 * h` as `h`
/// complex samples. This explicit copy stands in for the in-place pointer
/// reinterpretation an unverified implementation would use; it is exact,
/// since both sides hold the same bit patterns.
pub fn pack(data: &Vec<u64>) -> (r: Vec<Complex>)
    requires
        data@.len() % 2 == 0,
    ensures
        r@ == as_complex(data@),
{
    let n = data.len();
    let h = n / 2;
    let mut r: Vec<Complex> = Vec::new();
    let mut i: usize = 0;
    while i < h
        invariant
            n == data@.len(),
            h == n as int / 2,
            n % 2 == 0,
            i <= h,
            r@.len() == i,
            forall|k: int| 0 <= k < i ==> (#[trigger] r@[k]) == as_complex(data@)[k],
        decreases h - i,
    {
        r.push(Complex { re: data[2 * i], im: data[2 * i + 1] });
        i = i + 1;
    }
    proof {
        assert(r@ =~= as_complex(data@));
    }
    r
}

/// Copy complex samples back into an interleaved real buffer: the inverse
/// of [`pack`].
pub fn flatten(s: &Vec<Complex>) -> (r: Vec<u64>)
    requires
        2 * s@.len() <= usize::MAX,
    ensures
        r@ == as_real(s@),
{
    let n = s.len();
    let mut r: Vec<u64> = Vec::new();
    let mut i: usize = 0;
    while i < n
        invariant
            n == s@.len(),
            2 * n <= usize::MAX,
            i <= n,
            r@.len() == 2 * i,
            forall|k: int| 0 <= k < 2 * i ==> (#[trigger] r@[k]) == as_real(s@)[k],
        decreases n - i,
    {
        proof {
            lemma_fundamental_div_mod_converse(2 * (i as int), 2, i as int, 0);
            lemma_fundamental_div_mod_converse(2 * (i as int) + 1, 2, i as int, 1);
        }
        let sample = s[i];
        r.push(sample.re);
        r.push(sample.im);
        i = i + 1;
    }
    proof {
        assert(r@ =~= as_real(s@));
    }
    r
}

/// Reading an even-length real buffer as samples and writing the samples
/// back reproduces the buffer bit for bit.
pub proof fn lemma_pack_round_trip(data: Seq<u64>)
    requires
        data.len() % 2 == 0,
    ensures
        as_real(as_complex(data)) == data,
{
    assert forall|k: int| 0 <= k < data.len() implies as_real(as_complex(data))[k] == data[k] by {
        if k % 2 == 0 {
            lemma_fundamental_div_mod_converse(k, 2, k / 2, 0);
        } else {
            lemma_fundamental_div_mod_converse(k, 2, k / 2, 1);
        }
    }
    assert(as_real(as_complex(data)) =~= data);
}

/// Writing samples as an interleaved real buffer and reading them back
/// reproduces the samples exactly.
pub proof fn lemma_flatten_round_trip(s: Seq<Complex>)
    ensures
        as_complex(as_real(s)) == s,
{
    assert forall|k: int| 0 <= k < s.len() implies as_complex(as_real(s))[k] == s[k] by {
        lemma_fundamental_div_mod_converse(2 * k, 2, k, 0);
        lemma_fundamental_div_mod_converse(2 * k + 1, 2, k, 1);
    }
    assert(as_complex(as_real(s)) =~= s);
}

/// The full spectrum encoded by a packed real-spectrum buffer of length
/// `n`: slot 0 is the real DC bin, slot `n / 2` the real Nyquist bin
/// (stored in the packed slot 1), slots below `n / 2` are read as
/// interleaved pairs, and the slots above mirror them by conjugation.
pub open spec fn unpack_spec(data: Seq<u64>) -> Seq<Complex> {
    let n = data.len() as int;
    Seq::new(
        data.len(),
        |k: int|
            if k == 0 {
                Complex { re: data[0], im: 0 }
            } else if 2 * k == n {
                Complex { re: data[1], im: 0 }
            } else if 2 * k < n {
                Complex { re: data[2 * k], im: data[2 * k + 1] }
            } else {
                (Complex { re: data[2 * (n - k)], im: data[2 * (n - k) + 1] }).spec_conj()
            },
    )
}

/// The packed form of a full spectrum: the derivation [`unpack`] inverts.
/// Slot 0 takes the real part of the DC bin, slot 1 the real part of the
/// middle (Nyquist) bin, and the pairs below the middle follow in
/// interleaved order.
pub open spec fn repack_spec(s: Seq<Complex>) -> Seq<u64> {
    let n = s.len() as int;
    Seq::new(
        s.len(),
        |k: int|
            if k == 0 {
                s[0].re
            } else if k == 1 {
                s[n / 2].re
            } else if k % 2 == 0 {
                s[k / 2].re
            } else {
                s[(k - 1) / 2].im
            },
    )
}

/// Unpack the result produced by the forward transform applied to real
/// data into the full complex spectrum it encodes.
pub fn unpack(data: &Vec<u64>) -> (r: Vec<Complex>)
    requires
        is_power_of_two(data@.len()),
    ensures
        r@.len() == data@.len(),
        r@ == unpack_spec(data@),
{
    let n = data.len();
    proof {
        lemma_pow2_at_least_one(n as nat);
    }
    let h = n >> 1;
    proof {
        assert(n >> 1usize == n / 2) by (bit_vector);
        if n >= 2 {
            lemma_pow2_halves(n as nat);
        }
    }
    let mut r: Vec<Complex> = Vec::new();
    r.push(Complex { re: data[0], im: 0 });
    if h == 0 {
        proof {
            assert(r@ =~= unpack_spec(data@));
        }
        return r;
    }
    let mut i: usize = 1;
    while i < h
        invariant
            n == data@.len(),
            h == n as int / 2,
            2 * h == n,
            1 <= i <= h,
            r@.len() == i,
            forall|k: int| 0 <= k < i ==> (#[trigger] r@[k]) == unpack_spec(data@)[k],
        decreases h - i,
    {
        r.push(Complex { re: data[2 * i], im: data[2 * i + 1] });
        i = i + 1;
    }
    r.push(Complex { re: data[1], im: 0 });
    let mut i: usize = h + 1;
    while i < n
        invariant
            n == data@.len(),
            h == n as int / 2,
            2 * h == n,
            h + 1 <= i <= n,
            r@.len() == i,
            forall|k: int| 0 <= k < i ==> (#[trigger] r@[k]) == unpack_spec(data@)[k],
        decreases n - i,
    {
        let mirror = r[n - i];
        r.push(mirror.conj());
        i = i + 1;
    }
    proof {
        assert(r@ =~= unpack_spec(data@));
    }
    r
}

/// Derive the packed form back from a full spectrum, as the inverse of
/// [`unpack`]: the DC and Nyquist real parts into the first two slots and
/// the bins below the middle as interleaved pairs.
pub fn repack(s: &Vec<Complex>) -> (r: Vec<u64>)
    requires
        is_power_of_two(s@.len()),
    ensures
        r@.len() == s@.len(),
        r@ == repack_spec(s@),
{
    let n = s.len();
    proof {
        lemma_pow2_at_least_one(n as nat);
    }
    let h = n >> 1;
    proof {
        assert(n >> 1usize == n / 2) by (bit_vector);
        if n >= 2 {
            lemma_pow2_halves(n as nat);
        }
    }
    let mut r: Vec<u64> = Vec::new();
    r.push(s[0].re);
    if h == 0 {
        proof {
            assert(r@ =~= repack_spec(s@));
        }
        return r;
    }
    r.push(s[h].re);
    let mut i: usize = 1;
    while i < h
        invariant
            n == s@.len(),
            h == n as int / 2,
            2 * h == n,
            1 <= i <= h,
            r@.len() == 2 * i,
            forall|k: int| 0 <= k < 2 * i ==> (#[trigger] r@[k]) == repack_spec(s@)[k],
        decreases h - i,
    {
        proof {
            lemma_fundamental_div_mod_converse(2 * (i as int), 2, i as int, 0);
            lemma_fundamental_div_mod_converse(2 * (i as int) + 1, 2, i as int, 1);
        }
        let sample = s[i];
        r.push(sample.re);
        r.push(sample.im);
        i = i + 1;
    }
    proof {
        assert(r@ =~= repack_spec(s@));
    }
    r
}

/// Hermitian symmetry of an unpacked spectrum: whatever the packed buffer
/// holds, the bin at `n - k` is the conjugate of the bin at `k`, for every
/// `k` strictly between zero and `n` other than the middle. (The DC and
/// middle bins cannot mirror an arbitrary partner; they are real instead —
/// see [`lemma_unpack_real_bins`].)
pub proof fn lemma_unpack_hermitian(data: Seq<u64>, k: int)
    requires
        is_power_of_two(data.len()),
        0 < k < data.len(),
        2 * k != data.len(),
    ensures
        unpack_spec(data)[data.len() - k] == unpack_spec(data)[k].spec_conj(),
{
    let n = data.len() as int;
    crate::complex::lemma_conj_involution(
        Complex { re: data[2 * (n - k)], im: data[2 * (n - k) + 1] },
    );
    if n >= 2 {
        lemma_pow2_halves(data.len());
    }
}

/// The DC bin of an unpacked spectrum is real, and so is the middle
/// (Nyquist) bin: their imaginary parts hold the bit pattern of zero.
pub proof fn lemma_unpack_real_bins(data: Seq<u64>)
    requires
        is_power_of_two(data.len()),
    ensures
        unpack_spec(data)[0].im == 0,
        data.len() >= 2 ==> unpack_spec(data)[data.len() as int / 2].im == 0,
{
    lemma_pow2_at_least_one(data.len());
    if data.len() >= 2 {
        lemma_pow2_halves(data.len());
    }
}

/// Unpacking a packed spectrum and deriving the packed form again
/// reproduces the packed buffer bit for bit: the encoding loses nothing,
/// and the DC and Nyquist slots are read constructively, not overwritten.
pub proof fn lemma_repack_unpack(data: Seq<u64>)
    requires
        is_power_of_two(data.len()),
    ensures
        repack_spec(unpack_spec(data)) == data,
{
    let n = data.len() as int;
    lemma_pow2_at_least_one(data.len());
    if n >= 2 {
        lemma_pow2_halves(data.len());
    }
    assert forall|k: int| 0 <= k < n implies repack_spec(unpack_spec(data))[k] == data[k] by {
        if k == 0 {
        } else if k == 1 {
        } else if k % 2 == 0 {
            lemma_fundamental_div_mod_converse(k, 2, k / 2, 0);
        } else {
            lemma_fundamental_div_mod_converse(k, 2, (k - 1) / 2, 1);
        }
    }
    assert(repack_spec(unpack_spec(data)) =~= data);
}

} // verus!
