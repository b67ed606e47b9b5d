//! Single-pole lowpass and highpass filters in Q24 fixed point.
//!
//! A filter is tuned by `cos(2 pi cutoff / sample_rate)`, handed in as a Q24
//! number (`COEF_ONE` stands for 1.0). With `cos_theta = 2 - cos(..)`, the
//! lowpass coefficient is `sqrt(cos_theta^2 - 1) - cos_theta` and the highpass
//! coefficient is `cos_theta - sqrt(cos_theta^2 - 1)`; the square root is the
//! exact integer square root of the Q48 radicand. A cosine outside [-1, 1] is
//! clamped to that range first, so the radicand is never negative.
use vstd::prelude::*;
use vstd::arithmetic::mul::lemma_mul_inequality;

verus! {

/// The fixed-point representation of 1.0.
pub const COEF_ONE: i64 = 16777216;

/// `r` is the integer square root of `x`.
pub open spec fn is_isqrt(x: int, r: int) -> bool {
    0 <= r && r * r <= x < (r + 1) * (r + 1)
}

/// The integer square root of `x`.
pub open spec fn isqrt(x: nat) -> nat
    decreases x,
{
    if x == 0 {
        0
    } else {
        let r = isqrt((x - 1) as nat);
        if (r + 1) * (r + 1) <= x {
            (r + 1) as nat
        } else {
            r
        }
    }
}

/// `isqrt` is an integer square root.
pub proof fn lemma_isqrt_is_isqrt(x: nat)
    ensures
        is_isqrt(x as int, isqrt(x) as int),
    decreases x,
{
    if x > 0 {
        lemma_isqrt_is_isqrt((x - 1) as nat);
        let r = isqrt((x - 1) as nat) as int;
        assert((r + 1) * (r + 1) <= (r + 2) * (r + 2)) by (nonlinear_arith)
            requires r >= 0;
        assert((r + 1) * (r + 1) < (r + 2) * (r + 2)) by (nonlinear_arith)
            requires r >= 0;
    }
}

/// A number has only one integer square root.
pub proof fn lemma_isqrt_unique(x: nat, r: int)
    requires
        is_isqrt(x as int, r),
    ensures
        r == isqrt(x),
{
    lemma_isqrt_is_isqrt(x);
    let s = isqrt(x) as int;
    if r < s {
        lemma_mul_inequality(r + 1, s, r + 1);
        lemma_mul_inequality(r + 1, s, s);
    } else if s < r {
        lemma_mul_inequality(s + 1, r, s + 1);
        lemma_mul_inequality(s + 1, r, r);
    }
}

/// Computes the integer square root of `x`.
pub fn integer_sqrt(x: u64) -> (r: u64)
    ensures
        is_isqrt(x as int, r as int),
        r == isqrt(x as nat),
{
    let mut lo: u128 = 0;
    let mut hi: u128 = 0x1_0000_0000;
    proof {
        assert(hi * hi > x) by (nonlinear_arith)
            requires hi == 0x1_0000_0000, x <= 0xffff_ffff_ffff_ffff;
    }
    while hi - lo > 1
        invariant
            lo < hi <= 0x1_0000_0000,
            lo * lo <= x,
            x < hi * hi,
        decreases hi - lo,
    {
        let mid: u128 = lo + (hi - lo) / 2;
        proof {
            assert(mid * mid <= 0x1_0000_0000 * 0x1_0000_0000) by (nonlinear_arith)
                requires mid <= 0x1_0000_0000;
        }
        if mid * mid <= x as u128 {
            lo = mid;
        } else {
            hi = mid;
        }
    }
    proof {
        lemma_isqrt_unique(x as nat, lo as int);
    }
    lo as u64
}

/// `v` limited to [-1, 1] in fixed point.
pub open spec fn clamp_unit(v: int) -> int {
    if v > COEF_ONE {
        COEF_ONE as int
    } else if v < -COEF_ONE {
        -COEF_ONE
    } else {
        v
    }
}

/// `2 - cos(..)` in fixed point, for a (clamped) cosine.
pub open spec fn cos_theta(cos_omega: int) -> int {
    2 * COEF_ONE - clamp_unit(cos_omega)
}

/// The integer square root of `cos_theta^2 - 1`, in fixed point.
pub open spec fn root_term(cos_omega: int) -> int {
    isqrt((cos_theta(cos_omega) * cos_theta(cos_omega) - COEF_ONE * COEF_ONE) as nat) as int
}

/// The lowpass coefficient for a cosine.
pub open spec fn lowpass_coef(cos_omega: int) -> int {
    root_term(cos_omega) - cos_theta(cos_omega)
}

/// The highpass coefficient for a cosine.
pub open spec fn highpass_coef(cos_omega: int) -> int {
    cos_theta(cos_omega) - root_term(cos_omega)
}

/// Weight of the input sample in the lowpass recursion.
pub open spec fn lowpass_gain(cos_omega: int) -> int {
    COEF_ONE + lowpass_coef(cos_omega)
}

/// Weight of the input sample in the highpass recursion.
pub open spec fn highpass_gain(cos_omega: int) -> int {
    COEF_ONE - highpass_coef(cos_omega)
}

/// Computes `cos_theta` and the square-root term for a cosine.
fn theta_and_root(cos_omega: i64) -> (r: (i64, i64))
    ensures
        r.0 == cos_theta(cos_omega as int),
        r.1 == root_term(cos_omega as int),
        COEF_ONE <= r.0 <= 3 * COEF_ONE,
        0 <= r.1 < r.0,
{
    let c: i64 = if cos_omega > COEF_ONE {
        COEF_ONE
    } else if cos_omega < -COEF_ONE {
        -COEF_ONE
    } else {
        cos_omega
    };
    let ct: i64 = 2 * COEF_ONE - c;
    proof {
        assert(COEF_ONE * COEF_ONE <= ct * ct <= 9 * COEF_ONE * COEF_ONE) by (nonlinear_arith)
            requires COEF_ONE <= ct <= 3 * COEF_ONE;
    }
    let rad: u64 = (ct * ct - COEF_ONE * COEF_ONE) as u64;
    let s: u64 = integer_sqrt(rad);
    proof {
        assert(s < ct) by (nonlinear_arith)
            requires s * s <= rad, rad < ct * ct, s >= 0, ct > 0;
    }
    (ct, s as i64)
}

/// The lowpass coefficient for a Q24 cosine `cos(2 pi cutoff / sample_rate)`.
pub fn lowpass_coefficient(cos_omega: i64) -> (r: i64)
    ensures
        r == lowpass_coef(cos_omega as int),
        -3 * COEF_ONE <= r < 0,
{
    let (ct, s) = theta_and_root(cos_omega);
    s - ct
}

/// The highpass coefficient for a Q24 cosine `cos(2 pi cutoff / sample_rate)`.
pub fn highpass_coefficient(cos_omega: i64) -> (r: i64)
    ensures
        r == highpass_coef(cos_omega as int),
        0 < r <= 3 * COEF_ONE,
{
    let (ct, s) = theta_and_root(cos_omega);
    ct - s
}

/// `a / b` rounded toward zero, for `b > 0`.
pub open spec fn trunc_div(a: int, b: int) -> int {
    if a >= 0 {
        a / b
    } else {
        -((-a) / b)
    }
}

/// `v` saturated to the 16-bit range.
pub open spec fn clamp_i16(v: int) -> int {
    if v > 32767 {
        32767
    } else if v < -32768 {
        -32768
    } else {
        v
    }
}

/// One step of the recursion `y = x * gain - delay * coef` (fixed point),
/// truncated toward zero and saturated to 16 bits.
pub open spec fn filter_step(x: int, delay: int, gain: int, coef: int) -> int {
    clamp_i16(trunc_div(x * gain - delay * coef, COEF_ONE as int))
}

/// The last sample of `s`, or `d` when `s` is empty.
pub open spec fn last_or(s: Seq<i16>, d: int) -> int {
    if s.len() == 0 {
        d
    } else {
        s.last() as int
    }
}

/// The output of the one-pole recursion over `input`, left to right, with
/// the delay starting at `d0` and becoming each output in turn.
pub open spec fn run_filter(input: Seq<i16>, gain: int, coef: int, d0: int) -> Seq<i16>
    decreases input.len(),
{
    if input.len() == 0 {
        Seq::empty()
    } else {
        let prev = run_filter(input.drop_last(), gain, coef, d0);
        prev.push(filter_step(input.last() as int, last_or(prev, d0), gain, coef) as i16)
    }
}

/// The filter's output has as many samples as its input.
pub proof fn lemma_run_filter_len(input: Seq<i16>, gain: int, coef: int, d0: int)
    ensures
        run_filter(input, gain, coef, d0).len() == input.len(),
    decreases input.len(),
{
    if input.len() > 0 {
        lemma_run_filter_len(input.drop_last(), gain, coef, d0);
    }
}

/// Filtering `a` and then `b`, with the delay carried from the first call to
/// the second, gives the same samples as filtering `a + b` at once.
pub proof fn lemma_run_filter_append(a: Seq<i16>, b: Seq<i16>, gain: int, coef: int, d0: int)
    ensures
        run_filter(a + b, gain, coef, d0) == run_filter(a, gain, coef, d0) + run_filter(
            b,
            gain,
            coef,
            last_or(run_filter(a, gain, coef, d0), d0),
        ),
    decreases b.len(),
{
    let ra = run_filter(a, gain, coef, d0);
    let da = last_or(ra, d0);
    if b.len() == 0 {
        assert(a + b == a);
        assert(ra + run_filter(b, gain, coef, da) == ra);
    } else {
        let b1 = b.drop_last();
        lemma_run_filter_append(a, b1, gain, coef, d0);
        lemma_run_filter_len(b1, gain, coef, da);
        let rb1 = run_filter(b1, gain, coef, da);
        assert((a + b).drop_last() == a + b1);
        assert((a + b).last() == b.last());
        if rb1.len() == 0 {
            assert(ra + rb1 == ra);
        } else {
            assert((ra + rb1).last() == rb1.last());
        }
        assert(last_or(ra + rb1, d0) == last_or(rb1, da));
        let y = filter_step(b.last() as int, last_or(rb1, da), gain, coef) as i16;
        assert((ra + rb1).push(y) == ra + rb1.push(y));
    }
}

/// One step of the recursion on a single sample.
pub fn filter_sample(x: i16, delay: i16, gain: i64, coef: i64) -> (r: i16)
    ensures
        r as int == filter_step(x as int, delay as int, gain as int, coef as int),
{
    proof {
        assert(-0x8000 * 0x8000_0000_0000_0000 <= x * gain <= 0x8000 * 0x8000_0000_0000_0000)
            by (nonlinear_arith)
            requires -0x8000 <= x < 0x8000, -0x8000_0000_0000_0000 <= gain < 0x8000_0000_0000_0000;
        assert(-0x8000 * 0x8000_0000_0000_0000 <= delay * coef <= 0x8000 * 0x8000_0000_0000_0000)
            by (nonlinear_arith)
            requires -0x8000 <= delay < 0x8000, -0x8000_0000_0000_0000 <= coef < 0x8000_0000_0000_0000;
    }
    let acc: i128 = (x as i128) * (gain as i128) - (delay as i128) * (coef as i128);
    let q: i128 = if acc >= 0 {
        acc / (COEF_ONE as i128)
    } else {
        -((-acc) / (COEF_ONE as i128))
    };
    if q > 32767 {
        32767
    } else if q < -32768 {
        -32768
    } else {
        q as i16
    }
}

/// Runs the one-pole recursion in place over `signal`, carrying `delay`
/// from sample to sample and across calls.
pub fn one_pole(signal: &mut [i16], gain: i64, coef: i64, delay: &mut i16)
    ensures
        final(signal)@ == run_filter(old(signal)@, gain as int, coef as int, *old(delay) as int),
        *final(delay) as int == last_or(final(signal)@, *old(delay) as int),
{
    let ghost input = signal@;
    let ghost d0 = *delay as int;
    let n: usize = signal.len();
    let mut i: usize = 0;
    while i < n
        invariant
            0 <= i <= n,
            n == input.len(),
            signal@.len() == n,
            signal@.subrange(0, i as int) == run_filter(
                input.subrange(0, i as int),
                gain as int,
                coef as int,
                d0,
            ),
            signal@.subrange(i as int, n as int) == input.subrange(i as int, n as int),
            *delay as int == last_or(signal@.subrange(0, i as int), d0),
        decreases n - i,
    {
        let ghost before = signal@;
        assert(input.subrange(0, i + 1).drop_last() == input.subrange(0, i as int));
        assert(signal@[i as int] == input[i as int]) by {
            assert(signal@.subrange(i as int, n as int)[0] == input.subrange(
                i as int,
                n as int,
            )[0]);
        }
        let y: i16 = filter_sample(signal[i], *delay, gain, coef);
        signal[i] = y;
        *delay = y;
        assert(signal@.subrange(0, i + 1) == before.subrange(0, i as int).push(y));
        assert(signal@.subrange(i + 1, n as int) == before.subrange(i + 1, n as int));
        assert(before.subrange(i + 1, n as int) == input.subrange(i + 1, n as int)) by {
            assert(before.subrange(i + 1, n as int) == before.subrange(i as int, n as int).drop_first());
            assert(input.subrange(i + 1, n as int) == input.subrange(i as int, n as int).drop_first());
        }
        i = i + 1;
    }
    assert(signal@ == signal@.subrange(0, n as int));
    assert(input == input.subrange(0, n as int));
}

/// Simple first-order lowpass filter, applied in place: each output is
/// `x * (1 + c) - delay * c` for the lowpass coefficient `c`, and becomes the
/// next delay.
pub fn lowpass(signal: &mut [i16], cos_omega: i64, delay: &mut i16)
    ensures
        final(signal)@ == run_filter(
            old(signal)@,
            lowpass_gain(cos_omega as int),
            lowpass_coef(cos_omega as int),
            *old(delay) as int,
        ),
        *final(delay) as int == last_or(final(signal)@, *old(delay) as int),
{
    let c: i64 = lowpass_coefficient(cos_omega);
    one_pole(signal, COEF_ONE + c, c, delay);
}

/// Simple first-order highpass filter, applied in place: each output is
/// `x * (1 - c) - delay * c` for the highpass coefficient `c`, and becomes the
/// next delay.
pub fn highpass(signal: &mut [i16], cos_omega: i64, delay: &mut i16)
    ensures
        final(signal)@ == run_filter(
            old(signal)@,
            highpass_gain(cos_omega as int),
            highpass_coef(cos_omega as int),
            *old(delay) as int,
        ),
        *final(delay) as int == last_or(final(signal)@, *old(delay) as int),
{
    let c: i64 = highpass_coefficient(cos_omega);
    one_pole(signal, COEF_ONE - c, c, delay);
}

/// With a zero coefficient the highpass form of the recursion (input weight
/// `1 - 0`, delay weight `0`) passes its input through unchanged, whatever
/// the starting delay; in particular its first output equals its first input.
pub proof fn lemma_zero_coefficient_passes_input(input: Seq<i16>, d0: int)
    ensures
        run_filter(input, COEF_ONE - 0, 0, d0) == input,
    decreases input.len(),
{
    if input.len() > 0 {
        lemma_zero_coefficient_passes_input(input.drop_last(), d0);
        let x = input.last() as int;
        let acc = x * COEF_ONE - last_or(input.drop_last(), d0) * 0;
        if x >= 0 {
            assert(acc / (COEF_ONE as int) == x) by (nonlinear_arith)
                requires acc == x * 16777216, x >= 0;
        } else {
            assert((-acc) / (COEF_ONE as int) == -x) by (nonlinear_arith)
                requires acc == x * 16777216, x < 0;
        }
        assert(-32768 <= x <= 32767);
        assert(input.drop_last().push(input.last()) == input);
    }
}

} // verus!
