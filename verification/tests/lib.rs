//! End-to-end tests: a floating-point driver around the verified index
//! machinery reproduces the discrete Fourier transform, and the codec
//! functions match their contracts on concrete data.

use dft::complex::{butterflies, rearrange, Butterfly, Complex as Sample};
use dft::spectrum::{flatten, pack, repack};
use dft::{Operation, Plan};
use num_complex::Complex;

type C64 = Complex<f64>;

fn to_sample(c: C64) -> Sample {
    Sample {
        re: c.re.to_bits(),
        im: c.im.to_bits(),
    }
}

fn from_sample(s: Sample) -> C64 {
    C64::new(f64::from_bits(s.re), f64::from_bits(s.im))
}

/// The twiddle factors a plan stores: per stage, the fundamental rotation
/// from the half-angle identity, then repeated multiply-adds.
fn plan_factors(operation: Operation, n: usize) -> Vec<C64> {
    let one = 1.0f64;
    let two = 2.0f64;
    let pi = f64::acos(-one);
    let mut factors = vec![];
    let sign = if operation == Operation::Forward {
        -one
    } else {
        one
    };
    let mut step = 1usize;
    while step < n {
        let theta = pi / (step as f64);
        let sine = (theta / two).sin();
        let multiplier = C64::new(-two * sine * sine, sign * theta.sin());
        let mut factor = C64::new(one, 0.0);
        for _ in 0..step {
            factors.push(factor);
            factor = multiplier * factor + factor;
        }
        step <<= 1;
    }
    factors
}

fn make_plan(operation: Operation, n: usize) -> Plan {
    assert!(n.is_power_of_two());
    let factors: Vec<Sample> = plan_factors(operation, n)
        .into_iter()
        .map(to_sample)
        .collect();
    Plan::new(operation, n, factors)
}

/// The complex engine: verified rearrangement and schedule, floating-point
/// combines.
fn transform_complex(data: &mut Vec<C64>, plan: &Plan) {
    let n = data.len();
    assert!(n <= plan.size());
    assert!(n.is_power_of_two());
    let mut bits: Vec<Sample> = data.iter().map(|&c| to_sample(c)).collect();
    rearrange(&mut bits);
    for (slot, s) in data.iter_mut().zip(bits.iter()) {
        *slot = from_sample(*s);
    }
    let schedule: Vec<Butterfly> = butterflies(n);
    for op in schedule {
        let factor = from_sample(plan.factor(op.factor));
        let product = factor * data[op.hi];
        data[op.hi] = data[op.lo] - product;
        data[op.lo] = data[op.lo] + product;
    }
    if plan.operation() == Operation::Inverse {
        let factor = (n as f64).recip();
        for slot in data.iter_mut() {
            *slot = slot.scale(factor);
        }
    }
}

/// The untangling step of the real engine: `n` is the complex length, the
/// per-position twiddles come off the end of the factor table of a plan of
/// twice that size.
fn compose(data: &mut Vec<C64>, n: usize, plan: &Plan, inverse: bool) {
    let one = 1.0f64;
    let half = (one + one).recip();
    let h = n >> 1;
    data[0] = C64::new(data[0].re + data[0].im, data[0].re - data[0].im);
    if inverse {
        data[0] = data[0].scale(half);
    }
    if h == 0 {
        return;
    }
    let m = plan.factor_count();
    let sign = if inverse { one } else { -one };
    for i in 1..h {
        let j = n - i;
        let part1 = data[i] + data[j].conj();
        let part2 = data[i] - data[j].conj();
        let product = C64::new(0.0, sign) * from_sample(plan.factor(m - j)) * part2;
        data[i] = (part1 + product).scale(half);
        data[j] = (part1 - product).scale(half).conj();
    }
    data[h] = data[h].conj();
}

/// The real engine: the buffer of `2 * h` reals is copied into `h` complex
/// samples through the verified pack step, transformed, untangled, and
/// copied back.
fn transform_real(data: &mut Vec<f64>, plan: &Plan) {
    let n = data.len();
    assert!(n == plan.size());
    let h = n >> 1;
    if h == 0 {
        return;
    }
    let bits: Vec<u64> = data.iter().map(|x| x.to_bits()).collect();
    let mut samples: Vec<C64> = pack(&bits).into_iter().map(from_sample).collect();
    match plan.operation() {
        Operation::Forward => {
            transform_complex(&mut samples, plan);
            compose(&mut samples, h, plan, false);
        }
        Operation::Backward | Operation::Inverse => {
            compose(&mut samples, h, plan, true);
            transform_complex(&mut samples, plan);
        }
    }
    let sample_bits: Vec<Sample> = samples.into_iter().map(to_sample).collect();
    let out = flatten(&sample_bits);
    for (slot, b) in data.iter_mut().zip(out.iter()) {
        *slot = f64::from_bits(*b);
    }
}

fn unpack_f64(data: &[f64]) -> Vec<C64> {
    assert!(data.len().is_power_of_two());
    let bits: Vec<u64> = data.iter().map(|x| x.to_bits()).collect();
    dft::unpack(&bits).into_iter().map(from_sample).collect()
}

/// A fixed pseudo-random sequence, so tests are deterministic.
fn noise(len: usize, mut seed: u64) -> Vec<f64> {
    let mut out = Vec::with_capacity(len);
    for _ in 0..len {
        seed = seed
            .wrapping_mul(6364136223846793005)
            .wrapping_add(1442695040888963407);
        let x = ((seed >> 11) as f64) / ((1u64 << 53) as f64);
        out.push(2.0 * x - 1.0);
    }
    out
}

fn assert_close(a: &[f64], b: &[f64], tolerance: f64) {
    assert_eq!(a.len(), b.len());
    for (x, y) in a.iter().zip(b.iter()) {
        assert!((x - y).abs() <= tolerance, "{} vs {}", x, y);
    }
}

fn as_parts(data: &[C64]) -> Vec<f64> {
    let mut out = Vec::new();
    for c in data {
        out.push(c.re);
        out.push(c.im);
    }
    out
}

#[test]
fn unpack() {
    let data = (0..4).map(|i| (i + 1) as f64).collect::<Vec<_>>();
    assert_eq!(
        unpack_f64(&data),
        vec![
            C64::new(1.0, 0.0),
            C64::new(3.0, 4.0),
            C64::new(2.0, 0.0),
            C64::new(3.0, -4.0),
        ]
    );

    let data = (0..8).map(|i| (i + 1) as f64).collect::<Vec<_>>();
    assert_eq!(
        unpack_f64(&data),
        vec![
            C64::new(1.0, 0.0),
            C64::new(3.0, 4.0),
            C64::new(5.0, 6.0),
            C64::new(7.0, 8.0),
            C64::new(2.0, 0.0),
            C64::new(7.0, -8.0),
            C64::new(5.0, -6.0),
            C64::new(3.0, -4.0),
        ]
    );
}

#[test]
fn complex_forward_1() {
    let mut data = vec![C64::new(1.0, -2.0)];
    transform_complex(&mut data, &make_plan(Operation::Forward, 1));
    assert_eq!(data, vec![C64::new(1.0, -2.0)]);
}

#[test]
fn complex_forward_2() {
    let mut data = vec![C64::new(1.0, -2.0), C64::new(3.0, -4.0)];
    transform_complex(&mut data, &make_plan(Operation::Forward, 2));
    assert_eq!(data, vec![C64::new(4.0, -6.0), C64::new(-2.0, 2.0)]);
}

#[test]
fn real_forward_1() {
    let mut data = vec![1.0];
    transform_real(&mut data, &make_plan(Operation::Forward, 1));
    assert_eq!(unpack_f64(&data), vec![C64::new(1.0, 0.0)]);
}

#[test]
fn real_forward_2() {
    let mut data = vec![1.0, -2.0];
    transform_real(&mut data, &make_plan(Operation::Forward, 2));
    assert_eq!(
        unpack_f64(&data),
        vec![C64::new(-1.0, 0.0), C64::new(3.0, 0.0)]
    );
}

#[test]
fn real_forward_4() {
    let mut data = vec![1.0, -2.0, 3.0, -4.0];
    transform_real(&mut data, &make_plan(Operation::Forward, 4));
    assert_eq!(
        unpack_f64(&data),
        vec![
            C64::new(-2.0, 0.0),
            C64::new(-2.0, -2.0),
            C64::new(10.0, 0.0),
            C64::new(-2.0, 2.0),
        ]
    );
}

#[test]
fn complex_round_trip_512() {
    let parts = noise(1024, 42);
    let original: Vec<C64> = parts.chunks(2).map(|p| C64::new(p[0], p[1])).collect();
    let mut data = original.clone();
    transform_complex(&mut data, &make_plan(Operation::Forward, 512));
    transform_complex(&mut data, &make_plan(Operation::Inverse, 512));
    assert_close(&as_parts(&data), &as_parts(&original), 1e-13);
}

#[test]
fn real_round_trip_512() {
    let original = noise(512, 7);
    let mut data = original.clone();
    transform_real(&mut data, &make_plan(Operation::Forward, 512));
    transform_real(&mut data, &make_plan(Operation::Inverse, 512));
    assert_close(&data, &original, 1e-13);
}

#[test]
fn backward_is_unnormalized() {
    // Forward then backward multiplies every sample by the length: the
    // backward operation deliberately skips the 1 / n scaling.
    let original: Vec<C64> = vec![
        C64::new(1.0, 0.5),
        C64::new(-2.0, 1.0),
        C64::new(0.25, -3.0),
        C64::new(4.0, 0.0),
    ];
    let mut data = original.clone();
    transform_complex(&mut data, &make_plan(Operation::Forward, 4));
    transform_complex(&mut data, &make_plan(Operation::Backward, 4));
    let scaled: Vec<C64> = original.iter().map(|c| c.scale(4.0)).collect();
    assert_close(&as_parts(&data), &as_parts(&scaled), 1e-13);
}

#[test]
fn forward_is_linear() {
    let n = 16;
    let (a, b) = (0.75, -1.5);
    let x: Vec<C64> = noise(2 * n, 1).chunks(2).map(|p| C64::new(p[0], p[1])).collect();
    let y: Vec<C64> = noise(2 * n, 2).chunks(2).map(|p| C64::new(p[0], p[1])).collect();
    let plan = make_plan(Operation::Forward, n);
    let mut combined: Vec<C64> = x
        .iter()
        .zip(y.iter())
        .map(|(u, v)| u.scale(a) + v.scale(b))
        .collect();
    transform_complex(&mut combined, &plan);
    let mut fx = x.clone();
    transform_complex(&mut fx, &plan);
    let mut fy = y.clone();
    transform_complex(&mut fy, &plan);
    let expected: Vec<C64> = fx
        .iter()
        .zip(fy.iter())
        .map(|(u, v)| u.scale(a) + v.scale(b))
        .collect();
    assert_close(&as_parts(&combined), &as_parts(&expected), 1e-12);
}

#[test]
fn real_matches_complex() {
    // Embedding a real signal as complex and transforming must agree with
    // the unpacked output of the real engine on every frequency bin.
    let n = 64;
    let signal = noise(n, 3);
    let mut embedded: Vec<C64> = signal.iter().map(|&x| C64::new(x, 0.0)).collect();
    transform_complex(&mut embedded, &make_plan(Operation::Forward, n));
    let mut packed = signal.clone();
    transform_real(&mut packed, &make_plan(Operation::Forward, n));
    let unpacked = unpack_f64(&packed);
    assert_close(&as_parts(&unpacked), &as_parts(&embedded), 1e-12);
}

#[test]
fn unpacked_spectrum_is_hermitian() {
    let n = 32;
    let mut data = noise(n, 4);
    transform_real(&mut data, &make_plan(Operation::Forward, n));
    let spectrum = unpack_f64(&data);
    for k in 1..n {
        if 2 * k == n {
            assert_eq!(spectrum[k].im, 0.0);
        } else {
            assert_eq!(spectrum[n - k], spectrum[k].conj());
        }
    }
    assert_eq!(spectrum[0].im, 0.0);
}

#[test]
fn repack_inverts_unpack() {
    let n = 32;
    let mut data = noise(n, 5);
    transform_real(&mut data, &make_plan(Operation::Forward, n));
    let packed_bits: Vec<u64> = data.iter().map(|x| x.to_bits()).collect();
    let repacked = repack(&dft::unpack(&packed_bits));
    assert_eq!(repacked, packed_bits);
}

#[test]
fn rearrange_reverses_indices() {
    // Tag each slot with its index and check the byte-exact permutation.
    let mut data: Vec<Sample> = (0..8u64).map(|k| Sample { re: k, im: 100 + k }).collect();
    rearrange(&mut data);
    let order: Vec<u64> = data.iter().map(|s| s.re).collect();
    assert_eq!(order, vec![0, 4, 2, 6, 1, 5, 3, 7]);
    assert!(data.iter().all(|s| s.im == 100 + s.re));
    // Applying the permutation twice restores the original order.
    rearrange(&mut data);
    let order: Vec<u64> = data.iter().map(|s| s.re).collect();
    assert_eq!(order, vec![0, 1, 2, 3, 4, 5, 6, 7]);
}

#[test]
fn butterfly_schedule_4() {
    let schedule = butterflies(4);
    let triples: Vec<(usize, usize, usize)> =
        schedule.iter().map(|op| (op.lo, op.hi, op.factor)).collect();
    assert_eq!(triples, vec![(0, 1, 0), (2, 3, 0), (0, 2, 1), (1, 3, 2)]);
}

#[test]
fn butterfly_schedule_8() {
    let schedule = butterflies(8);
    assert_eq!(schedule.len(), 12);
    let triples: Vec<(usize, usize, usize)> =
        schedule.iter().map(|op| (op.lo, op.hi, op.factor)).collect();
    assert_eq!(
        triples,
        vec![
            (0, 1, 0),
            (2, 3, 0),
            (4, 5, 0),
            (6, 7, 0),
            (0, 2, 1),
            (4, 6, 1),
            (1, 3, 2),
            (5, 7, 2),
            (0, 4, 3),
            (1, 5, 4),
            (2, 6, 5),
            (3, 7, 6),
        ]
    );
}

#[test]
fn plan_stores_factors() {
    let plan = make_plan(Operation::Forward, 4);
    assert_eq!(plan.size(), 4);
    assert_eq!(plan.operation(), Operation::Forward);
    assert_eq!(plan.factor_count(), 3);
    // Every stage's factor sequence starts from one.
    assert_eq!(from_sample(plan.factor(0)), C64::new(1.0, 0.0));
    assert_eq!(from_sample(plan.factor(1)), C64::new(1.0, 0.0));
}

#[test]
fn pack_flatten_round_trip() {
    let bits: Vec<u64> = vec![1, 2, 3, 4, 5, 6];
    let samples = pack(&bits);
    assert_eq!(samples.len(), 3);
    assert_eq!(samples[1], Sample { re: 3, im: 4 });
    assert_eq!(flatten(&samples), bits);
}

#[test]
fn conj_flips_sign_bit() {
    let sample = to_sample(C64::new(2.5, -3.5));
    let conjugated = sample.conj();
    assert_eq!(from_sample(conjugated), C64::new(2.5, 3.5));
    assert_eq!(conjugated.conj(), sample);
}
