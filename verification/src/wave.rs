//! Periodic odd triangle-wave primitive used by the wave-distortion effect.
//!
//! `wave(x, period, amplitude)` folds its argument into `[0, 2*period)` —
//! a positive argument is taken modulo `2*period`, a non-positive argument
//! enters as `period - x` — and evaluates a quadratic arch on the first half
//! of that interval and its negation on the second half. The wave is periodic
//! with period `2*period`, flips its sign when shifted by `period`, and is
//! identically zero at amplitude zero, which is what lets the distortion
//! effect come to an exact rest on its final frame.

use vstd::prelude::*;
use vstd::arithmetic::div_mod::{
    lemma_add_mod_noop, lemma_div_is_ordered, lemma_div_multiples_vanish, lemma_div_of0,
    lemma_mod_add_multiples_vanish, lemma_mod_bound, lemma_small_mod,
};

verus! {

/// The wave's folded argument: positive arguments are taken modulo one full
/// wave (`2*period`); a non-positive argument enters as `period - x` first.
pub open spec fn wave_fold(x: int, period: int) -> int {
    (if x > 0 {
        x
    } else {
        period - x
    }) % (2 * period)
}

/// The wave's value on a folded argument `m` in `[0, 2*period)`: a quadratic
/// arch scaled by `amplitude / 4` on `[0, period)`, its negation on
/// `[period, 2*period)`. All dividends are non-negative for a non-negative
/// amplitude, so the divisions agree with machine division.
pub open spec fn wave_arch(m: int, period: int, amplitude: int) -> int {
    if m < period {
        m * (period - m) * amplitude / period / period / 4
    } else {
        -((m - period) * (2 * period - m) * amplitude / period / period / 4)
    }
}

/// The periodic odd triangle wave.
pub open spec fn spec_wave(x: int, period: int, amplitude: int) -> int {
    wave_arch(wave_fold(x, period), period, amplitude)
}

/// The squared, damped wave variant: the wave at fixed amplitude 128 is
/// squared, scaled by `amplitude / 128`, damped by 16, and given the sign
/// of `x`.
pub open spec fn spec_wave2(x: int, period: int, amplitude: int) -> int {
    let w = spec_wave(x, period, 128);
    let ww = amplitude * w * w / 128;
    if x > 0 {
        ww / 16
    } else {
        -(ww / 16)
    }
}

/// The arch's dividend is at most `period * period * amplitude`, so the
/// arch's magnitude never exceeds the amplitude.
proof fn lemma_arch_bounded(m: int, period: int, amplitude: int)
    requires
        1 <= period,
        0 <= amplitude,
        0 <= m < 2 * period,
    ensures
        m < period ==> 0 <= m * (period - m) * amplitude / period / period / 4 <= amplitude,
        m >= period ==> 0 <= (m - period) * (2 * period - m) * amplitude / period / period / 4
            <= amplitude,
{
    let u = if m < period {
        m
    } else {
        m - period
    };
    let v = if m < period {
        period - m
    } else {
        2 * period - m
    };
    assert(0 <= u < period && 0 <= v <= period);
    assert(0 <= u * v * amplitude <= period * (period * amplitude)) by (nonlinear_arith)
        requires
            0 <= u < period,
            0 <= v <= period,
            0 <= amplitude,
    ;
    lemma_div_is_ordered(u * v * amplitude, period * (period * amplitude), period);
    lemma_div_multiples_vanish(period * amplitude, period);
    let q1 = u * v * amplitude / period;
    lemma_div_is_ordered(0, u * v * amplitude, period);
    lemma_div_of0(period);
    assert(0 <= q1 <= period * amplitude);
    lemma_div_is_ordered(q1, period * amplitude, period);
    lemma_div_multiples_vanish(amplitude, period);
    let q2 = q1 / period;
    lemma_div_is_ordered(0, q1, period);
    assert(0 <= q2 <= amplitude);
    lemma_div_is_ordered(q2, amplitude, 4);
    lemma_div_is_ordered(0, q2, 4);
    lemma_div_of0(4);
    lemma_div_is_ordered(amplitude, 4 * amplitude, 4);
    lemma_div_multiples_vanish(amplitude, 4);
    assert(0 <= q2 / 4 <= amplitude);
}

/// Shifting the argument of the arch by one half-period negates it:
/// for `y >= 0`, the arch at `(y + period) % (2*period)` is the negation
/// of the arch at `y % (2*period)`.
proof fn lemma_arch_shift(y: int, period: int, amplitude: int)
    requires
        0 <= y,
        1 <= period,
    ensures
        wave_arch((y + period) % (2 * period), period, amplitude) == -wave_arch(
            y % (2 * period),
            period,
            amplitude,
        ),
{
    let p = period;
    let a = amplitude;
    let m = y % (2 * p);
    lemma_mod_bound(y, 2 * p);
    lemma_add_mod_noop(y, p, 2 * p);
    lemma_small_mod(p as nat, (2 * p) as nat);
    assert((y + p) % (2 * p) == (m + p) % (2 * p));
    if m < p {
        lemma_small_mod((m + p) as nat, (2 * p) as nat);
        assert((y + p) % (2 * p) == m + p);
        assert((m + p - p) * (2 * p - (m + p)) * a == m * (p - m) * a) by (nonlinear_arith);
        assert(wave_arch(m + p, p, a) == -wave_arch(m, p, a));
    } else {
        lemma_mod_add_multiples_vanish(m - p, 2 * p);
        assert(m + p == 2 * p + (m - p));
        lemma_small_mod((m - p) as nat, (2 * p) as nat);
        assert((y + p) % (2 * p) == m - p);
        assert((m - p) * (p - (m - p)) * a == (m - p) * (2 * p - m) * a) by (nonlinear_arith);
        assert(wave_arch(m - p, p, a) == -wave_arch(m, p, a));
    }
}

/// Law: the wave flips its sign under a shift by one half-period —
/// `wave(x + period) == -wave(x)` for every integer `x`.
pub proof fn lemma_wave_half_period_negates(x: int, period: int, amplitude: int)
    requires
        1 <= period,
    ensures
        spec_wave(x + period, period, amplitude) == -spec_wave(x, period, amplitude),
{
    let p = period;
    let a = amplitude;
    if x > 0 {
        lemma_arch_shift(x, p, a);
    } else if x + p > 0 {
        // -p < x <= 0: both folded arguments are already in range.
        lemma_small_mod((p - x) as nat, (2 * p) as nat);
        lemma_small_mod((x + p) as nat, (2 * p) as nat);
        assert(wave_fold(x, p) == p - x);
        assert(wave_fold(x + p, p) == x + p);
        if x == 0 {
            // Both sides are the arch at exactly `period`, whose dividend is zero.
            assert((p - p) * (2 * p - p) * a == 0);
            lemma_div_of0(p);
            lemma_div_of0(4);
            assert(0 as int / p / p / 4 == 0);
            assert(wave_arch(p, p, a) == 0);
        } else {
            assert((x + p) * (p - (x + p)) * a == (p - x - p) * (2 * p - (p - x)) * a)
                by (nonlinear_arith);
            assert(wave_arch(x + p, p, a) == -wave_arch(p - x, p, a));
        }
    } else {
        // x <= -p: with y = -x >= period, the two folds are those of
        // y + period and y, shifted into each other by the arch lemma.
        let y = -x;
        assert(wave_fold(x, p) == (y + p) % (2 * p));
        assert(wave_fold(x + p, p) == y % (2 * p));
        lemma_arch_shift(y, p, a);
    }
}

/// Law: the wave is periodic with period `2*period` —
/// `wave(x + 2*period) == wave(x)` for every integer `x`.
pub proof fn lemma_wave_periodic(x: int, period: int, amplitude: int)
    requires
        1 <= period,
    ensures
        spec_wave(x + 2 * period, period, amplitude) == spec_wave(x, period, amplitude),
{
    lemma_wave_half_period_negates(x, period, amplitude);
    lemma_wave_half_period_negates(x + period, period, amplitude);
    assert(x + period + period == x + 2 * period);
}

/// Law: at amplitude zero the wave vanishes everywhere. This is the resting
/// state of the distortion effects: their final frame computes every offset
/// with amplitude zero, so the frame equals the unmodified source.
pub proof fn lemma_wave_zero_amplitude(x: int, period: int)
    requires
        1 <= period,
    ensures
        spec_wave(x, period, 0) == 0,
{
    let p = period;
    let m = wave_fold(x, p);
    assert(m * (p - m) * 0 == 0) by (nonlinear_arith);
    assert((m - p) * (2 * p - m) * 0 == 0) by (nonlinear_arith);
    lemma_div_of0(p);
    lemma_div_of0(4);
    assert(0 as int / p / p / 4 == 0);
}

/// The periodic odd triangle wave, evaluated in machine integers.
pub fn wave(x: i32, period: i32, amplitude: i32) -> (r: i32)
    requires
        1 <= period <= 500,
        -1000000 <= x <= 1000000,
        0 <= amplitude <= 1000,
    ensures
        r == spec_wave(x as int, period as int, amplitude as int),
        -amplitude <= r <= amplitude,
{
    let two_p: u32 = (2 * period) as u32;
    let base: u32 = if x > 0 {
        x as u32
    } else {
        (period - x) as u32
    };
    let m: u32 = base % two_p;
    proof {
        lemma_mod_bound(base as int, two_p as int);
        assert(m as int == wave_fold(x as int, period as int));
        lemma_arch_bounded(m as int, period as int, amplitude as int);
    }
    let p: u32 = period as u32;
    let a: u32 = amplitude as u32;
    if m < p {
        assert(m * (p - m) <= 250000 && m * (p - m) * a <= 250000000) by (nonlinear_arith)
            requires
                m < p <= 500,
                a <= 1000,
        ;
        let q: u32 = m * (p - m) * a / p / p / 4;
        q as i32
    } else {
        assert((m - p) * (2 * p - m) <= 250000 && (m - p) * (2 * p - m) * a <= 250000000)
            by (nonlinear_arith)
            requires
                p <= m < 2 * p,
                p <= 500,
                a <= 1000,
        ;
        let q: u32 = (m - p) * (2 * p - m) * a / p / p / 4;
        -(q as i32)
    }
}

/// The squared, damped wave variant, evaluated in machine integers.
pub fn wave2(x: i32, period: i32, amplitude: i32) -> (r: i32)
    requires
        1 <= period <= 500,
        -1000000 <= x <= 1000000,
        0 <= amplitude <= 1000,
    ensures
        r == spec_wave2(x as int, period as int, amplitude as int),
{
    let w = wave(x, period, 128);
    assert(0 <= w * w <= 128 * 128) by (nonlinear_arith)
        requires
            -128 <= w <= 128,
    ;
    let sq: u32 = (w * w) as u32;
    proof {
        assert((amplitude as u32) * sq <= 16384000) by (nonlinear_arith)
            requires
                0 <= amplitude <= 1000,
                0 <= sq <= 16384,
        ;
        assert(amplitude * w * w == (amplitude as u32) * sq) by (nonlinear_arith)
            requires
                sq == w * w,
                0 <= amplitude,
        ;
    }
    let ww: u32 = (amplitude as u32) * sq / 128;
    let d: u32 = ww / 16;
    if x > 0 {
        d as i32
    } else {
        -(d as i32)
    }
}

} // verus!
