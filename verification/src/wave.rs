//! The waveform generator family.
//!
//! Each generator maps a dimensionless virtual time (periodic with period 1)
//! to a unipolar amplitude in `[0, 1]`. The sinusoid is the standard
//! quarter-wave parabola approximation on the Q16.16 grid, so its exact
//! value at every phase is pinned by [`sine_at`]. Noise averages 100
//! deterministically frequency-shifted sinusoid evaluations and thresholds
//! the mean at one half, giving reproducible pseudo-noise rather than a
//! random source. Harmonics averages integer-multiple sinusoids under
//! caller-supplied non-negative weights.

use vstd::prelude::*;
use vstd::arithmetic::div_mod::lemma_mod_add_multiples_vanish;
use vstd::arithmetic::div_mod::lemma_mod_multiples_vanish;
use vstd::arithmetic::div_mod::lemma_mod_bound;
use vstd::arithmetic::div_mod::lemma_div_pos_is_pos;
use vstd::arithmetic::div_mod::lemma_div_is_ordered;
use vstd::arithmetic::div_mod::lemma_div_by_multiple;
use vstd::arithmetic::div_mod::lemma_div_denominator;
use crate::fixed::{Fx, FX_ONE, fx_add, fx_mul, fx_div, fx_scale, fx_rem_one};

verus! {

/// One waveform generator choice for a note.
#[derive(Clone, Debug)]
pub enum WaveForm {
    Square,
    Triangle,
    Sine,
    /// The field is the fraction of each period spent high.
    Pulse(Fx),
    SawTooth,
    Noise,
    /// Weight of harmonic `k+1` (a sinusoid at `k+1` times the base
    /// frequency) is the entry at index `k`.
    Harmonics(Vec<Fx>),
}

/// The mathematical image of a waveform: the same variants with every
/// parameter as a raw Q16.16 integer.
#[verifier::ext_equal]
pub enum WaveSpec {
    Square,
    Triangle,
    Sine,
    Pulse(int),
    SawTooth,
    Noise,
    Harmonics(Seq<int>),
}

impl View for WaveForm {
    type V = WaveSpec;

    open spec fn view(&self) -> WaveSpec {
        match self {
            WaveForm::Square => WaveSpec::Square,
            WaveForm::Triangle => WaveSpec::Triangle,
            WaveForm::Sine => WaveSpec::Sine,
            WaveForm::Pulse(ratio) => WaveSpec::Pulse(ratio.raw as int),
            WaveForm::SawTooth => WaveSpec::SawTooth,
            WaveForm::Noise => WaveSpec::Noise,
            WaveForm::Harmonics(ws) => WaveSpec::Harmonics(
                ws@.map_values(|w: Fx| w.raw as int),
            ),
        }
    }
}

/// Amplitude of the square generator: low for the first half period, high
/// from the half-period boundary on.
pub open spec fn square_at(t: int) -> int {
    if fx_rem_one(t) < 32768 {
        0
    } else {
        FX_ONE as int
    }
}

/// Amplitude of the triangle generator: up-ramp over the first half period,
/// down-ramp over the second.
pub open spec fn triangle_at(t: int) -> int {
    let m = fx_rem_one(t);
    if m < 32768 {
        m * 2
    } else {
        (FX_ONE - m) * 2
    }
}

/// Amplitude of the unipolar sinusoid, as the per-half-period parabola
/// `1/2 + 8*u*(1/2 - u)` (phase `u` in cycles), carried to the Q16.16 grid.
pub open spec fn sine_at(t: int) -> int {
    let m = fx_rem_one(t);
    if m < 32768 {
        32768 + (m * (32768 - m)) / 8192
    } else {
        let u = m - 32768;
        32768 - (u * (32768 - u)) / 8192
    }
}

/// Amplitude of the pulse generator: high exactly for the final `ratio`
/// share of each period. A ratio at or outside `(0, 1)` degenerates to a
/// constant rail rather than an error.
pub open spec fn pulse_at(ratio: int, t: int) -> int {
    if fx_rem_one(t) < FX_ONE - ratio {
        0
    } else {
        FX_ONE as int
    }
}

/// Amplitude of the sawtooth generator: the phase itself.
pub open spec fn saw_at(t: int) -> int {
    fx_rem_one(t)
}

/// The fixed integer frequency multiplier of the `i`-th noise partial: a
/// modular scramble spreading the partials over `[1, 193]`.
pub open spec fn noise_factor(i: int) -> int {
    (i * 61 + 17) % 193 + 1
}

/// Sum of the first `k` frequency-shifted sinusoid amplitudes used by the
/// noise generator.
pub open spec fn noise_sum(t: int, k: nat) -> int
    decreases k,
{
    if k == 0 {
        0
    } else {
        noise_sum(t, (k - 1) as nat) + sine_at(fx_scale(t, noise_factor(k - 1)))
    }
}

/// Amplitude of the noise generator: the mean of 100 shifted sinusoids,
/// hard-thresholded at one half.
pub open spec fn noise_at(t: int) -> int {
    if noise_sum(t, 100) < 100 * 32768 {
        0
    } else {
        FX_ONE as int
    }
}

/// Saturating sum of the first `k` harmonic weights.
pub open spec fn weight_sum(ws: Seq<int>, k: nat) -> int
    decreases k,
{
    if k == 0 {
        0
    } else {
        fx_add(weight_sum(ws, (k - 1) as nat), ws[k - 1])
    }
}

/// Saturating weighted sum of the first `k` harmonic partials: partial `k`
/// is the sinusoid at `k` times the virtual time.
pub open spec fn harmonic_sum(t: int, ws: Seq<int>, k: nat) -> int
    decreases k,
{
    if k == 0 {
        0
    } else {
        fx_add(
            harmonic_sum(t, ws, (k - 1) as nat),
            fx_mul(sine_at(fx_scale(t, k as int)), ws[k - 1]),
        )
    }
}

/// Amplitude of the harmonics generator: the weighted sum normalized by the
/// weight total.
pub open spec fn harmonics_at(t: int, ws: Seq<int>) -> int {
    fx_div(harmonic_sum(t, ws, ws.len()), weight_sum(ws, ws.len()))
}

/// What the engine assumes of a waveform before evaluating it: harmonic
/// weight lists are non-empty, non-negative, and small enough that their
/// saturating sums are exact.
pub open spec fn wf_valid(wf: WaveSpec) -> bool {
    match wf {
        WaveSpec::Harmonics(ws) => 1 <= ws.len() <= 4096 && forall|i: int|
            0 <= i < ws.len() ==> 0 <= #[trigger] ws[i] <= 0x1_0000_0000,
        _ => true,
    }
}

/// Amplitude of a waveform at a virtual time, on the Q16.16 grid.
pub open spec fn wave_at(wf: WaveSpec, t: int) -> int {
    match wf {
        WaveSpec::Square => square_at(t),
        WaveSpec::Triangle => triangle_at(t),
        WaveSpec::Sine => sine_at(t),
        WaveSpec::Pulse(ratio) => pulse_at(ratio, t),
        WaveSpec::SawTooth => saw_at(t),
        WaveSpec::Noise => noise_at(t),
        WaveSpec::Harmonics(ws) => harmonics_at(t, ws),
    }
}

/// The unipolar sinusoid: exact evaluation of [`sine_at`].
pub fn sine_wave(t: Fx) -> (r: Fx)
    ensures
        r.raw as int == sine_at(t.raw as int),
        0 <= r.raw <= FX_ONE,
{
    let m: u64 = t.rem_one().raw as u64;
    if m < 32768 {
        proof {
            assert(0 <= m * (32768 - m) <= 268435456) by (nonlinear_arith)
                requires
                    0 <= m < 32768,
            ;
        }
        let prod: u64 = m * (32768 - m);
        Fx { raw: (32768 + prod / 8192) as i64 }
    } else {
        let u: u64 = m - 32768;
        proof {
            assert(0 <= u * (32768 - u) <= 268435456) by (nonlinear_arith)
                requires
                    0 <= u < 32768,
            ;
        }
        let prod: u64 = u * (32768 - u);
        Fx { raw: (32768 - prod / 8192) as i64 }
    }
}

/// One weighted harmonic partial is non-negative and at most its weight.
proof fn lemma_partial_bound(s: int, w: int)
    requires
        0 <= s <= FX_ONE,
        0 <= w <= 0x1_0000_0000,
    ensures
        0 <= fx_mul(s, w) <= w,
{
    assert(0 <= s * w <= 65536 * w) by (nonlinear_arith)
        requires
            0 <= s <= 65536,
            0 <= w,
    ;
    lemma_div_pos_is_pos(s * w, FX_ONE as int);
    lemma_div_is_ordered(s * w, 65536 * w, FX_ONE as int);
    lemma_div_by_multiple(w, FX_ONE as int);
    assert((w * 65536) / 65536 == w);
    assert(65536 * w == w * 65536);
}

impl WaveForm {
    /// A deep copy whose mathematical image is exactly this waveform's.
    pub fn duplicate(&self) -> (r: WaveForm)
        ensures
            r@ == self@,
    {
        match self {
            WaveForm::Square => WaveForm::Square,
            WaveForm::Triangle => WaveForm::Triangle,
            WaveForm::Sine => WaveForm::Sine,
            WaveForm::Pulse(ratio) => WaveForm::Pulse(*ratio),
            WaveForm::SawTooth => WaveForm::SawTooth,
            WaveForm::Noise => WaveForm::Noise,
            WaveForm::Harmonics(ws) => {
                let copy = ws.clone();
                proof {
                    assert(copy@ =~= ws@);
                    assert(copy@.map_values(|w: Fx| w.raw as int) =~= ws@.map_values(
                        |w: Fx| w.raw as int,
                    ));
                }
                WaveForm::Harmonics(copy)
            },
        }
    }

    /// Evaluate this generator at a virtual time: the exact value of
    /// [`wave_at`], always inside `[0, 1]`.
    pub fn audio_at(&self, virt_time: Fx) -> (r: Fx)
        requires
            wf_valid(self@),
        ensures
            r.raw as int == wave_at(self@, virt_time.raw as int),
            0 <= r.raw <= FX_ONE,
    {
        match self {
            WaveForm::Square => {
                let m = virt_time.rem_one();
                if m.raw < 32768 {
                    Fx::zero()
                } else {
                    Fx::one()
                }
            },
            WaveForm::Triangle => {
                let m = virt_time.rem_one();
                if m.raw < 32768 {
                    Fx { raw: m.raw * 2 }
                } else {
                    Fx { raw: (FX_ONE - m.raw) * 2 }
                }
            },
            WaveForm::Sine => sine_wave(virt_time),
            WaveForm::Pulse(ratio) => {
                let m = virt_time.rem_one();
                if (m.raw as i128) < FX_ONE as i128 - ratio.raw as i128 {
                    Fx::zero()
                } else {
                    Fx::one()
                }
            },
            WaveForm::SawTooth => virt_time.rem_one(),
            WaveForm::Noise => {
                let mut i: u64 = 0;
                let mut acc: i64 = 0;
                while i < 100
                    invariant
                        0 <= i <= 100,
                        acc == noise_sum(virt_time.raw as int, i as nat),
                        0 <= acc <= i * 65536,
                    decreases 100 - i,
                {
                    let f: i64 = ((i * 61 + 17) % 193 + 1) as i64;
                    proof {
                        lemma_mod_bound(i as int * 61 + 17, 193);
                    }
                    let s = sine_wave(virt_time.scale(f));
                    acc = acc + s.raw;
                    i = i + 1;
                }
                if acc < 3276800 {
                    Fx::zero()
                } else {
                    Fx::one()
                }
            },
            WaveForm::Harmonics(ws) => {
                let ghost wsv: Seq<int> = ws@.map_values(|w: Fx| w.raw as int);
                let mut i: usize = 0;
                let mut sum = Fx::zero();
                let mut acc = Fx::zero();
                while i < ws.len()
                    invariant
                        0 <= i <= ws.len(),
                        wsv == ws@.map_values(|w: Fx| w.raw as int),
                        1 <= ws@.len() <= 4096,
                        forall|j: int| 0 <= j < wsv.len() ==> 0 <= #[trigger] wsv[j]
                            <= 0x1_0000_0000,
                        sum.raw == weight_sum(wsv, i as nat),
                        acc.raw == harmonic_sum(virt_time.raw as int, wsv, i as nat),
                        0 <= acc.raw <= sum.raw,
                        sum.raw <= i * 0x1_0000_0000,
                    decreases ws.len() - i,
                {
                    let w = ws[i];
                    let s = sine_wave(virt_time.scale((i + 1) as i64));
                    let term = s.mul(w);
                    proof {
                        assert(wsv[i as int] == ws@[i as int].raw as int);
                        lemma_partial_bound(s.raw as int, w.raw as int);
                    }
                    sum = sum.add(w);
                    acc = acc.add(term);
                    i = i + 1;
                }
                let r = acc.div(sum);
                proof {
                    if sum.raw > 0 {
                        lemma_div_pos_is_pos(acc.raw as int * 65536, sum.raw as int);
                        lemma_div_is_ordered(
                            acc.raw as int * 65536,
                            sum.raw as int * 65536,
                            sum.raw as int,
                        );
                        lemma_div_by_multiple(65536, sum.raw as int);
                        assert((65536 * sum.raw) / (sum.raw as int) == 65536);
                        assert(sum.raw as int * 65536 == 65536 * sum.raw);
                    }
                }
                r
            },
        }
    }
}

/// The sinusoid repeats after one whole period.
pub proof fn lemma_sine_periodic(t: int)
    ensures
        sine_at(t + FX_ONE) == sine_at(t),
{
    lemma_mod_add_multiples_vanish(t, FX_ONE as int);
}

/// Advancing the virtual time by one period does not change a scaled
/// sinusoid partial, as long as no saturation is reached.
proof fn lemma_scale_sine_periodic(t: int, f: int)
    requires
        1 <= f <= 8192,
        -0x2000_0000_0000 <= t <= 0x2000_0000_0000,
    ensures
        sine_at(fx_scale(t + FX_ONE, f)) == sine_at(fx_scale(t, f)),
{
    assert((t + 65536) * f == t * f + 65536 * f) by (nonlinear_arith);
    assert(-0x8000_0000_0000_0000 < t * f < 0x8000_0000_0000_0000) by (nonlinear_arith)
        requires
            1 <= f <= 8192,
            -0x2000_0000_0000 <= t <= 0x2000_0000_0000,
    ;
    assert(-0x8000_0000_0000_0000 < (t + 65536) * f < 0x8000_0000_0000_0000) by (nonlinear_arith)
        requires
            1 <= f <= 8192,
            -0x2000_0000_0000 <= t <= 0x2000_0000_0000,
    ;
    lemma_mod_multiples_vanish(f, t * f, FX_ONE as int);
    assert((65536 * f + t * f) % 65536 == (t * f) % 65536);
}

/// The noise partial sum repeats after one whole period.
proof fn lemma_noise_sum_periodic(t: int, k: nat)
    requires
        -0x2000_0000_0000 <= t <= 0x2000_0000_0000,
    ensures
        noise_sum(t + FX_ONE, k) == noise_sum(t, k),
    decreases k,
{
    if k > 0 {
        lemma_noise_sum_periodic(t, (k - 1) as nat);
        lemma_mod_bound((k - 1) * 61 + 17, 193);
        lemma_scale_sine_periodic(t, noise_factor(k - 1));
    }
}

/// The harmonic partial sum repeats after one whole period.
proof fn lemma_harmonic_sum_periodic(t: int, ws: Seq<int>, k: nat)
    requires
        -0x2000_0000_0000 <= t <= 0x2000_0000_0000,
        k <= 8192,
    ensures
        harmonic_sum(t + FX_ONE, ws, k) == harmonic_sum(t, ws, k),
    decreases k,
{
    if k > 0 {
        lemma_harmonic_sum_periodic(t, ws, (k - 1) as nat);
        lemma_scale_sine_periodic(t, k as int);
    }
}

/// Every generator is periodic with period one in virtual time: advancing
/// the phase by one whole period leaves the amplitude unchanged (for
/// arguments far from the representation limits).
pub proof fn lemma_wave_periodic(wf: WaveSpec, t: int)
    requires
        wf_valid(wf),
        -0x2000_0000_0000 <= t <= 0x2000_0000_0000,
    ensures
        wave_at(wf, t + FX_ONE) == wave_at(wf, t),
{
    lemma_mod_add_multiples_vanish(t, FX_ONE as int);
    assert(fx_rem_one(t + FX_ONE) == fx_rem_one(t));
    match wf {
        WaveSpec::Noise => {
            lemma_noise_sum_periodic(t, 100);
        },
        WaveSpec::Harmonics(ws) => {
            lemma_harmonic_sum_periodic(t, ws, ws.len());
        },
        _ => {},
    }
}

/// The sinusoid amplitude always stays inside `[0, 1]`.
pub proof fn lemma_sine_range(t: int)
    ensures
        0 <= sine_at(t) <= FX_ONE,
{
    lemma_mod_bound(t, FX_ONE as int);
    let m = fx_rem_one(t);
    if m < 32768 {
        assert(0 <= m * (32768 - m) <= 268435456) by (nonlinear_arith)
            requires
                0 <= m < 32768,
        ;
        lemma_div_pos_is_pos(m * (32768 - m), 8192);
        lemma_div_is_ordered(m * (32768 - m), 268435456, 8192);
    } else {
        let u = m - 32768;
        assert(0 <= u * (32768 - u) <= 268435456) by (nonlinear_arith)
            requires
                0 <= u < 32768,
        ;
        lemma_div_pos_is_pos(u * (32768 - u), 8192);
        lemma_div_is_ordered(u * (32768 - u), 268435456, 8192);
    }
}

/// With two equal harmonic weights, the harmonics generator is exactly the
/// unweighted average (on the Q16.16 grid) of the sinusoid at the virtual
/// time and the sinusoid at twice the virtual time.
pub proof fn lemma_harmonics_pair_average(ws: Seq<int>, t: int)
    requires
        ws.len() == 2,
        ws[0] == FX_ONE as int,
        ws[1] == FX_ONE as int,
        -0x4000_0000_0000_0000 <= t <= 0x4000_0000_0000_0000,
    ensures
        harmonics_at(t, ws) == (sine_at(t) + sine_at(fx_scale(t, 2))) / 2,
{
    reveal_with_fuel(weight_sum, 3);
    reveal_with_fuel(harmonic_sum, 3);
    let s1 = sine_at(t);
    let s2 = sine_at(fx_scale(t, 2));
    lemma_sine_range(t);
    lemma_sine_range(fx_scale(t, 2));
    assert(fx_scale(t, 1) == t);
    assert(weight_sum(ws, 1) == 65536);
    assert(weight_sum(ws, 2) == 131072);
    lemma_div_by_multiple(s1, 65536);
    lemma_div_by_multiple(s2, 65536);
    assert(fx_mul(s1, 65536) == s1);
    assert(fx_mul(s2, 65536) == s2);
    assert(harmonic_sum(t, ws, 2) == s1 + s2);
    let x = s1 + s2;
    lemma_div_denominator(x * 65536, 65536, 2);
    lemma_div_by_multiple(x, 65536);
    assert((x * 65536) / 131072 == x / 2);
    assert(harmonics_at(t, ws) == x / 2);
}

} // verus!
