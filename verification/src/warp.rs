//! Time warping: from real elapsed time to oscillator virtual time.
//!
//! Without glide or vibrato the virtual time is simply elapsed time times
//! frequency. A glide integrates an exponential frequency ramp from the
//! start to the target frequency over the note's span, realized on the
//! Q16.16 grid through base-two logarithm and exponential approximations
//! ([`log2_at`], [`exp2_at`]). Vibrato adds the phase-domain integral of a
//! sinusoidal frequency modulation, so the instantaneous frequency (not the
//! amplitude) wobbles around the carrier.

use vstd::prelude::*;
use vstd::arithmetic::power2::pow2;
use vstd::arithmetic::power2::lemma_pow2_unfold;
use vstd::arithmetic::power2::lemma_pow2_pos;
use vstd::arithmetic::div_mod::lemma_mod_bound;
use vstd::arithmetic::div_mod::lemma_div_is_ordered;
use vstd::arithmetic::div_mod::lemma_div_pos_is_pos;
use vstd::arithmetic::div_mod::lemma_div_denominator;
use crate::fixed::{Fx, FX_ONE, fx_add, fx_sub, fx_mul, fx_div, sat64};
use crate::wave::{sine_at, sine_wave};

verus! {

/// The natural logarithm of two on the Q16.16 grid.
pub const LN2_RAW: i64 = 45426;

/// Two pi on the Q16.16 grid.
pub const TAU_RAW: i64 = 411775;

/// The quadratic mantissa approximation of `2^f` for a fractional exponent
/// `f` in `[0, 1)`: exact at both ends, smooth in between.
pub open spec fn exp2_mant(f: int) -> int {
    FX_ONE + (f * 45426) / 65536 + (((f * f) / 65536) * 20110) / 65536
}

/// A mantissa in `[1, 2]` scaled by two to the power `n`, saturating above
/// and flushing to zero far below.
pub open spec fn pow2_shift(m: int, n: int) -> int {
    if n >= 47 {
        i64::MAX as int
    } else if n >= 0 {
        sat64(m * pow2(n as nat))
    } else if n >= -17 {
        m / pow2((-n) as nat) as int
    } else {
        0
    }
}

/// `2^x` for a Q16.16 exponent `x`: split into whole and fractional parts,
/// approximate the fractional part, shift by the whole part.
pub open spec fn exp2_at(x: int) -> int {
    pow2_shift(exp2_mant(x % 65536), x / 65536)
}

/// Normalization for the base-two logarithm: the exponent and the mantissa
/// in `[65536, 131072)` such that the input equals mantissa times two to
/// the exponent (up to the halving truncations).
pub open spec fn normalize(m: int) -> (int, int)
    decreases
            (if m >= 131072 {
                m
            } else {
                131072 - m
            }),
{
    if m < 1 {
        (0, FX_ONE as int)
    } else if m >= 131072 {
        let p = normalize(m / 2);
        (p.0 + 1, p.1)
    } else if m < 65536 {
        let p = normalize(m * 2);
        (p.0 - 1, p.1)
    } else {
        (0, m)
    }
}

/// The value of `k` fractional logarithm bits of a mantissa in
/// `[65536, 131072)`, extracted by repeated squaring, most significant bit
/// first.
pub open spec fn frac_bits(m: int, k: nat) -> int
    decreases k,
{
    if k == 0 {
        0
    } else {
        let msq = (m * m) / 65536;
        if msq >= 131072 {
            pow2((k - 1) as nat) + frac_bits(msq / 2, (k - 1) as nat)
        } else {
            frac_bits(msq, (k - 1) as nat)
        }
    }
}

/// The base-two logarithm of a positive Q16.16 value, with sixteen
/// fractional bits from repeated squaring; zero for non-positive input.
pub open spec fn log2_at(x: int) -> int {
    if x < 1 {
        0
    } else {
        let p = normalize(x);
        p.0 * 65536 + frac_bits(p.1, 16)
    }
}

/// `2^x`: exact evaluation of [`exp2_at`], always non-negative.
pub fn fexp2(x: Fx) -> (r: Fx)
    ensures
        r.raw as int == exp2_at(x.raw as int),
        0 <= r.raw,
{
    proof {
        lemma_div_is_ordered(i64::MIN as int, x.raw as int, 65536);
        lemma_div_is_ordered(x.raw as int, i64::MAX as int, 65536);
        lemma_mod_bound(x.raw as int, 65536);
    }
    let n: i64 = x.raw.checked_div_euclid(FX_ONE).unwrap();
    let f: i64 = x.raw.checked_rem_euclid(FX_ONE).unwrap();
    let fu: u64 = f as u64;
    proof {
        lemma_div_pos_is_pos(fu as int * 45426, 65536);
        lemma_div_is_ordered(fu as int * 45426, 65535int * 45426, 65536);
        assert(fu * fu <= 65535int * 65535) by (nonlinear_arith)
            requires
                0 <= fu <= 65535,
        ;
        lemma_div_pos_is_pos(fu as int * fu as int, 65536);
        lemma_div_is_ordered(fu as int * fu as int, 65535int * 65535, 65536);
    }
    let t1: u64 = fu * 45426 / 65536;
    let fsq: u64 = fu * fu / 65536;
    proof {
        lemma_div_pos_is_pos(fsq as int * 20110, 65536);
        lemma_div_is_ordered(fsq as int * 20110, 65535int * 20110, 65536);
    }
    let t2: u64 = fsq * 20110 / 65536;
    let mant: u64 = 65536 + t1 + t2;
    proof {
        assert(mant as int == exp2_mant(f as int));
        assert(65536 <= mant <= 131072);
    }
    proof {
        vstd::arithmetic::power2::lemma2_to64();
            vstd::arithmetic::power2::lemma2_to64_rest();
    }
    if n >= 47 {
        Fx { raw: i64::MAX }
    } else if n >= 0 {
        proof {
            assert(pow2(0) == 1);
            assert(mant as int * pow2(0) == mant as int) by (nonlinear_arith)
                requires
                    pow2(0) == 1,
            ;
        }
        let mut acc: u64 = mant;
        let mut j: i64 = 0;
        while j < n
            invariant
                0 <= j <= n < 47,
                65536 <= mant <= 131072,
                acc as int == sat64(mant as int * pow2(j as nat)),
                0 <= acc <= i64::MAX,
            decreases n - j,
        {
            proof {
                lemma_pow2_unfold((j + 1) as nat);
                lemma_pow2_pos(j as nat);
                assert(mant as int * pow2((j + 1) as nat) == (mant as int * pow2(j as nat))
                    * 2) by (nonlinear_arith)
                    requires
                        pow2((j + 1) as nat) == 2 * pow2(j as nat),
                ;
                assert(mant as int * pow2(j as nat) >= 0) by (nonlinear_arith)
                    requires
                        mant >= 0,
                        pow2(j as nat) >= 0,
                ;
            }
            acc = if acc > 4611686018427387903 {
                9223372036854775807
            } else {
                acc * 2
            };
            j = j + 1;
        }
        Fx { raw: acc as i64 }
    } else if n >= -17 {
        proof {
            assert(pow2(0) == 1);
            assert(mant as int / pow2(0) as int == mant as int);
        }
        let mut acc: u64 = mant;
        let mut j: i64 = 0;
        let steps: i64 = -n;
        while j < steps
            invariant
                0 <= j <= steps <= 17,
                65536 <= mant <= 131072,
                acc as int == mant as int / pow2(j as nat) as int,
                0 <= acc <= mant,
            decreases steps - j,
        {
            proof {
                lemma_pow2_unfold((j + 1) as nat);
                lemma_pow2_pos(j as nat);
                lemma_div_denominator(mant as int, pow2(j as nat) as int, 2);
            }
            acc = acc / 2;
            j = j + 1;
        }
        Fx { raw: acc as i64 }
    } else {
        Fx { raw: 0 }
    }
}

/// Base-two logarithm of a positive value: exact evaluation of
/// [`log2_at`].
pub fn flog2(x: Fx) -> (r: Fx)
    requires
        1 <= x.raw,
    ensures
        r.raw as int == log2_at(x.raw as int),
        -0x100000 <= r.raw <= 0x310000,
{
    proof {
        vstd::arithmetic::power2::lemma2_to64();
            vstd::arithmetic::power2::lemma2_to64_rest();
    }
    let ghost x0: int = x.raw as int;
    let mut m: u64 = x.raw as u64;
    let mut e: i64 = 0;
    proof {
        assert(m as int * pow2(0) == m as int) by (nonlinear_arith)
            requires
                pow2(0) == 1,
        ;
    }
    while m >= 131072
        invariant
            1 <= m,
            0 <= e <= 48,
            normalize(x0).0 == e + normalize(m as int).0,
            normalize(x0).1 == normalize(m as int).1,
            m as int * pow2(e as nat) <= 2 * x0,
            1 <= x0 <= i64::MAX,
        decreases m,
    {
        proof {
            vstd::arithmetic::power2::lemma2_to64();
            vstd::arithmetic::power2::lemma2_to64_rest();
            lemma_pow2_pos(e as nat);
            assert(e <= 47) by {
                if e == 48 {
                    assert(m as int * pow2(48) >= 131072 * pow2(48)) by (nonlinear_arith)
                        requires
                            m >= 131072,
                            pow2(48) >= 0,
                    ;
                    assert(131072 * pow2(48) > 2 * x0);
                    assert(false);
                }
            }
            lemma_pow2_unfold((e + 1) as nat);
            assert((m as int / 2) * pow2((e + 1) as nat) <= m as int * pow2(e as nat))
                by (nonlinear_arith)
                requires
                    m >= 1,
                    pow2((e + 1) as nat) == 2 * pow2(e as nat),
                    pow2(e as nat) >= 1,
                    2 * (m as int / 2) <= m as int,
            ;
        }
        m = m / 2;
        e = e + 1;
    }
    while m < 65536
        invariant
            1 <= m < 131072,
            -16 <= e <= 48,
            normalize(x0).0 == e + normalize(m as int).0,
            normalize(x0).1 == normalize(m as int).1,
            e < 0 ==> m as int >= pow2((-(e as int)) as nat),
        decreases 131072 - m,
    {
        proof {
            vstd::arithmetic::power2::lemma2_to64();
            vstd::arithmetic::power2::lemma2_to64_rest();
            assert(e >= -15) by {
                if e <= -16 {
                    vstd::arithmetic::power2::lemma_pow2_strictly_increases(
                        16,
                        (-(e as int)) as nat,
                    );
                }
            }
            if e <= 0 {
                lemma_pow2_unfold((-(e as int - 1)) as nat);
            }
        }
        m = m * 2;
        e = e - 1;
    }
    let ghost m1: int = m as int;
    proof {
        assert(normalize(m1) == (0int, m1));
        assert(normalize(x0) == (e as int, m1));
    }
    let mut y: u64 = 0;
    let mut j: i64 = 0;
    while j < 16
        invariant
            0 <= j <= 16,
            65536 <= m < 131072,
            y < pow2(j as nat),
            frac_bits(m1, 16) == y as int * pow2((16 - j) as nat) + frac_bits(
                m as int,
                (16 - j) as nat,
            ),
        decreases 16 - j,
    {
        proof {
            vstd::arithmetic::power2::lemma2_to64();
            vstd::arithmetic::power2::lemma2_to64_rest();
            assert(65536int * 65536 <= m as int * m as int <= 131071int * 131071)
                by (nonlinear_arith)
                requires
                    65536 <= m < 131072,
            ;
            lemma_div_is_ordered(65536int * 65536, m as int * m as int, 65536);
            lemma_div_is_ordered(m as int * m as int, 131071int * 131071, 65536);
            lemma_pow2_unfold((16 - j) as nat);
            let rest_hi = frac_bits((m as int * m as int) / 65536 / 2, (16 - j - 1) as nat);
            let rest_lo = frac_bits((m as int * m as int) / 65536, (16 - j - 1) as nat);
            assert(y as int * pow2((16 - j) as nat) == (2 * y as int) * pow2((16 - j - 1) as nat))
                by (nonlinear_arith)
                requires
                    pow2((16 - j) as nat) == 2 * pow2((16 - j - 1) as nat),
            ;
            assert((2 * y as int) * pow2((16 - j - 1) as nat) + pow2((16 - j - 1) as nat) == (2 * y
                as int + 1) * pow2((16 - j - 1) as nat)) by (nonlinear_arith);
        }
        let msq: u64 = m * m / 65536;
        if msq >= 131072 {
            m = msq / 2;
            y = y * 2 + 1;
        } else {
            m = msq;
            y = y * 2;
        }
        j = j + 1;
    }
    proof {
        vstd::arithmetic::power2::lemma2_to64();
            vstd::arithmetic::power2::lemma2_to64_rest();
        assert(y as int * pow2(0) == y as int) by (nonlinear_arith)
            requires
                pow2(0) == 1,
        ;
        assert(frac_bits(m1, 16) == y as int);
    }
    Fx { raw: e * 65536 + y as i64 }
}

/// The phase-domain integral of the sinusoidal frequency modulation:
/// `sin(2*pi*lfo*t) / (2*pi*lfo)`, with the sinusoid taken bipolar.
pub open spec fn vib_term(lfo: int, t: int) -> int {
    fx_div(2 * sine_at(fx_mul(lfo, t)) - FX_ONE, fx_mul(TAU_RAW as int, lfo))
}

/// The integrated exponential frequency ramp from the start frequency to
/// the target over the note's span, zeroed at the start: on the grid,
/// `d*fs*(ratio^(t/d) - 1) / ln(ratio)`. When the frequency ratio rounds to
/// one (or is degenerate) the ramp collapses to the constant-frequency
/// product.
pub open spec fn glide_phase(t: int, fs: int, fe: int, d: int) -> int {
    let ratio = fx_div(fe, fs);
    let lg = log2_at(ratio);
    let lr = fx_mul(lg, LN2_RAW as int);
    if lr == 0 {
        fx_mul(t, fs)
    } else {
        fx_div(
            fx_mul(fx_mul(d, fs), fx_sub(exp2_at(fx_mul(fx_div(t, d), lg)), FX_ONE as int)),
            lr,
        )
    }
}

/// The raw values of an optional fixed-point parameter.
pub open spec fn opt_raw(o: Option<Fx>) -> Option<int> {
    match o {
        Option::Some(f) => Option::Some(f.raw as int),
        Option::None => Option::None,
    }
}

/// The virtual time consumed by the oscillator after `t` elapsed real
/// seconds: constant-frequency product without glide and vibrato, the
/// integrated ramp with glide, plus the vibrato phase integral when a
/// positive modulation frequency is present (a non-positive one counts as
/// no vibrato). With vibrato but no glide the carrier term is the flat
/// product of span and frequency.
pub open spec fn scale_time_at(t: int, fs: int, fe: int, lfo: Option<int>, d: int) -> int {
    match lfo {
        Option::Some(l) => if l > 0 {
            if fs == fe {
                fx_add(fx_mul(d, fs), vib_term(l, t))
            } else {
                fx_add(glide_phase(t, fs, fe, d), vib_term(l, t))
            }
        } else {
            if fs == fe {
                fx_mul(t, fs)
            } else {
                glide_phase(t, fs, fe, d)
            }
        },
        Option::None => if fs == fe {
            fx_mul(t, fs)
        } else {
            glide_phase(t, fs, fe, d)
        },
    }
}

/// The vibrato phase integral: exact evaluation of [`vib_term`].
fn vibrato_term(lfo: Fx, t: Fx) -> (r: Fx)
    ensures
        r.raw as int == vib_term(lfo.raw as int, t.raw as int),
{
    let s = sine_wave(lfo.mul(t));
    let bipolar = Fx { raw: 2 * s.raw - FX_ONE };
    bipolar.div(Fx { raw: TAU_RAW }.mul(lfo))
}

/// The integrated glide ramp: exact evaluation of [`glide_phase`].
fn glide_warp(t: Fx, fs: Fx, fe: Fx, d: Fx) -> (r: Fx)
    ensures
        r.raw as int == glide_phase(t.raw as int, fs.raw as int, fe.raw as int, d.raw as int),
{
    let ratio = fe.div(fs);
    if ratio.raw < 1 {
        t.mul(fs)
    } else {
        let lg = flog2(ratio);
        let lr = lg.mul(Fx { raw: LN2_RAW });
        if lr.raw == 0 {
            t.mul(fs)
        } else {
            let ex = fexp2(t.div(d).mul(lg));
            d.mul(fs).mul(ex.sub(Fx::one())).div(lr)
        }
    }
}

/// The virtual time for the oscillator after `time_in` elapsed seconds of
/// a note with the given start and target frequencies, optional vibrato
/// frequency, and full audible span: exact evaluation of
/// [`scale_time_at`].
pub fn scale_time(
    time_in: Fx,
    frequency_start: Fx,
    frequency_end: Fx,
    lfo_frequency: Option<Fx>,
    duration: Fx,
) -> (r: Fx)
    ensures
        r.raw as int == scale_time_at(
            time_in.raw as int,
            frequency_start.raw as int,
            frequency_end.raw as int,
            opt_raw(lfo_frequency),
            duration.raw as int,
        ),
{
    match lfo_frequency {
        Option::Some(l) => {
            if l.raw > 0 {
                let vib = vibrato_term(l, time_in);
                if frequency_start.raw == frequency_end.raw {
                    duration.mul(frequency_start).add(vib)
                } else {
                    glide_warp(time_in, frequency_start, frequency_end, duration).add(vib)
                }
            } else {
                if frequency_start.raw == frequency_end.raw {
                    time_in.mul(frequency_start)
                } else {
                    glide_warp(time_in, frequency_start, frequency_end, duration)
                }
            }
        },
        Option::None => {
            if frequency_start.raw == frequency_end.raw {
                time_in.mul(frequency_start)
            } else {
                glide_warp(time_in, frequency_start, frequency_end, duration)
            }
        },
    }
}

/// The fractional mantissa approximation is monotone and stays in
/// `[1, 2]` on its domain.
proof fn lemma_mant_mono(f1: int, f2: int)
    requires
        0 <= f1 <= f2 < 65536,
    ensures
        exp2_mant(f1) <= exp2_mant(f2),
        65536 <= exp2_mant(f1),
        exp2_mant(f2) <= 131072,
{
    lemma_div_is_ordered(f1 * 45426, f2 * 45426, 65536);
    assert(f1 * f1 <= f2 * f2) by (nonlinear_arith)
        requires
            0 <= f1 <= f2,
    ;
    lemma_div_is_ordered(f1 * f1, f2 * f2, 65536);
    lemma_div_is_ordered((f1 * f1) / 65536 * 20110, (f2 * f2) / 65536 * 20110, 65536);
    lemma_div_pos_is_pos(f1 * 45426, 65536);
    lemma_div_pos_is_pos(f1 * f1, 65536);
    lemma_div_pos_is_pos((f1 * f1) / 65536 * 20110, 65536);
    lemma_div_is_ordered(f2 * 45426, 65535int * 45426, 65536);
    assert(f2 * f2 <= 65535int * 65535) by (nonlinear_arith)
        requires
            0 <= f2 <= 65535,
    ;
    lemma_div_is_ordered(f2 * f2, 65535int * 65535, 65536);
    lemma_div_is_ordered((f2 * f2) / 65536 * 20110, 65535int * 20110, 65536);
}

/// Shifting a larger in-range mantissa by the same exponent gives at
/// least as large a result.
proof fn lemma_shift_mono_mant(m1: int, m2: int, n: int)
    requires
        65536 <= m1 <= m2 <= 131072,
    ensures
        pow2_shift(m1, n) <= pow2_shift(m2, n),
{
    if 0 <= n < 47 {
        lemma_pow2_pos(n as nat);
        assert(m1 * pow2(n as nat) <= m2 * pow2(n as nat)) by (nonlinear_arith)
            requires
                m1 <= m2,
                pow2(n as nat) >= 0,
        ;
    } else if -17 <= n < 0 {
        lemma_pow2_pos((-n) as nat);
        lemma_div_is_ordered(m1, m2, pow2((-n) as nat) as int);
    }
}

/// Every shifted mantissa stays within the saturation rail.
proof fn lemma_shift_in_rail(m: int, n: int)
    requires
        65536 <= m <= 131072,
    ensures
        0 <= pow2_shift(m, n) <= i64::MAX,
{
    if 0 <= n < 47 {
        lemma_pow2_pos(n as nat);
        assert(m * pow2(n as nat) >= 0) by (nonlinear_arith)
            requires
                m >= 0,
                pow2(n as nat) >= 0,
        ;
    } else if -17 <= n < 0 {
        lemma_pow2_pos((-n) as nat);
        lemma_div_pos_is_pos(m, pow2((-n) as nat) as int);
        lemma_div_is_ordered(m, 131072, pow2((-n) as nat) as int);
        vstd::arithmetic::power2::lemma2_to64();
        assert(pow2((-n) as nat) >= 1);
        lemma_div_is_ordered(131072int / pow2((-n) as nat) as int, 131072, 1);
        assert(m / pow2((-n) as nat) as int <= m) by {
            vstd::arithmetic::div_mod::lemma_div_nonincreasing(m, pow2((-n) as nat) as int);
        }
    }
}

/// Raising the exponent by one never lowers a shifted in-range mantissa,
/// even across a mantissa change.
proof fn lemma_shift_step(m1: int, m2: int, n: int)
    requires
        65536 <= m1 <= 131072,
        65536 <= m2 <= 131072,
    ensures
        pow2_shift(m1, n) <= pow2_shift(m2, n + 1),
{
    vstd::arithmetic::power2::lemma2_to64();
    lemma_shift_in_rail(m1, n);
    lemma_shift_in_rail(m2, n + 1);
    if n + 1 >= 47 {
        // the right side sits at the rail
    } else if n >= 0 {
        lemma_pow2_unfold((n + 1) as nat);
        lemma_pow2_pos(n as nat);
        assert(m1 * pow2(n as nat) <= m2 * pow2((n + 1) as nat)) by (nonlinear_arith)
            requires
                m1 <= 131072,
                m2 >= 65536,
                pow2((n + 1) as nat) == 2 * pow2(n as nat),
                pow2(n as nat) >= 1,
        ;
    } else if n == -1 {
        lemma_div_is_ordered(m1, 131072, 2);
        assert(131072int / 2 == 65536);
        assert(m2 * pow2(0) == m2) by (nonlinear_arith)
            requires
                pow2(0) == 1,
        ;
    } else if n >= -18 {
        // both sides divide: m1 / 2^k against m2 / 2^(k-1)
        let k = -n;
        lemma_pow2_pos(k as nat);
        lemma_pow2_pos((k - 1) as nat);
        lemma_pow2_unfold(k as nat);
        if n == -18 {
            lemma_div_pos_is_pos(m2, pow2(17) as int);
        } else {
            lemma_div_is_ordered(m1, 2 * m2, pow2(k as nat) as int);
            vstd::arithmetic::div_mod::lemma_div_denominator(
                2 * m2,
                2,
                pow2((k - 1) as nat) as int,
            );
            assert((2 * m2) / 2 == m2) by {
                vstd::arithmetic::div_mod::lemma_div_multiples_vanish(m2, 2);
            }
            assert(2 * pow2((k - 1) as nat) == pow2(k as nat));
        }
    }
}

/// Shifting the same mantissa by a larger exponent never lowers it.
proof fn lemma_shift_mono_exp(m: int, na: int, nb: int)
    requires
        65536 <= m <= 131072,
        na <= nb,
    ensures
        pow2_shift(m, na) <= pow2_shift(m, nb),
    decreases nb - na,
{
    if na < nb {
        lemma_shift_mono_exp(m, na, nb - 1);
        lemma_shift_step(m, m, nb - 1);
    }
}

/// The grid exponential never decreases: a larger exponent gives at least
/// as large a power of two.
pub proof fn lemma_exp2_mono(x1: int, x2: int)
    requires
        x1 <= x2,
    ensures
        exp2_at(x1) <= exp2_at(x2),
{
    let n1 = x1 / 65536;
    let n2 = x2 / 65536;
    let f1 = x1 % 65536;
    let f2 = x2 % 65536;
    lemma_mod_bound(x1, 65536);
    lemma_mod_bound(x2, 65536);
    lemma_div_is_ordered(x1, x2, 65536);
    lemma_mant_mono(f1, f1);
    lemma_mant_mono(f2, f2);
    if n1 == n2 {
        vstd::arithmetic::div_mod::lemma_fundamental_div_mod(x1, 65536);
        vstd::arithmetic::div_mod::lemma_fundamental_div_mod(x2, 65536);
        assert(f1 <= f2) by (nonlinear_arith)
            requires
                x1 == 65536 * n1 + f1,
                x2 == 65536 * n1 + f2,
                x1 <= x2,
        ;
        lemma_mant_mono(f1, f2);
        lemma_shift_mono_mant(exp2_mant(f1), exp2_mant(f2), n1);
    } else {
        lemma_shift_step(exp2_mant(f1), exp2_mant(f2), n1);
        lemma_shift_mono_exp(exp2_mant(f2), n1 + 1, n2);
    }
}

/// A ratio of a nonnegative part to a positive whole stays within one
/// unit on the grid.
proof fn lemma_part_ratio(t: int, d: int)
    requires
        0 <= t <= d,
        0 < d,
    ensures
        0 <= fx_div(t, d) <= FX_ONE,
{
    lemma_div_pos_is_pos(t * 65536, d);
    assert(t * 65536 <= d * 65536) by (nonlinear_arith)
        requires
            t <= d,
    ;
    lemma_div_is_ordered(t * 65536, d * 65536, d);
    vstd::arithmetic::div_mod::lemma_div_by_multiple(65536, d);
    assert((65536 * d) / d == 65536);
    assert(d * 65536 == 65536 * d);
}

/// Fixed-point division by a positive value is monotone in the dividend;
/// by a negative value it reverses.
proof fn lemma_fx_div_mono(a1: int, a2: int, b: int)
    requires
        a1 <= a2,
        b != 0,
    ensures
        b > 0 ==> fx_div(a1, b) <= fx_div(a2, b),
        b < 0 ==> fx_div(a2, b) <= fx_div(a1, b),
{
    if b > 0 {
        lemma_div_is_ordered(a1 * 65536, a2 * 65536, b);
    } else {
        lemma_div_is_ordered(a1 * 65536, a2 * 65536, -b);
    }
}

/// Fixed-point multiplication by a nonnegative value is monotone in the
/// other factor; by a negative value it reverses.
proof fn lemma_fx_mul_mono(a1: int, a2: int, c: int)
    requires
        a1 <= a2,
    ensures
        c >= 0 ==> fx_mul(a1, c) <= fx_mul(a2, c),
        c < 0 ==> fx_mul(a2, c) <= fx_mul(a1, c),
{
    if c >= 0 {
        assert(a1 * c <= a2 * c) by (nonlinear_arith)
            requires
                a1 <= a2,
                c >= 0,
        ;
        lemma_div_is_ordered(a1 * c, a2 * c, 65536);
    } else {
        assert(a2 * c <= a1 * c) by (nonlinear_arith)
            requires
                a1 <= a2,
                c < 0,
        ;
        lemma_div_is_ordered(a2 * c, a1 * c, 65536);
    }
}

/// The integrated glide ramp never moves the virtual time backwards over
/// the note's span: for positive frequencies and a positive span it is
/// monotone non-decreasing in elapsed time.
pub proof fn lemma_glide_phase_mono(t1: int, t2: int, fs: int, fe: int, d: int)
    requires
        0 <= t1 <= t2 <= d,
        0 < fs,
        0 < fe,
        0 < d,
    ensures
        glide_phase(t1, fs, fe, d) <= glide_phase(t2, fs, fe, d),
{
    let ratio = fx_div(fe, fs);
    let lg = log2_at(ratio);
    let lr = fx_mul(lg, LN2_RAW as int);
    if lr == 0 {
        lemma_fx_mul_mono(t1, t2, fs);
    } else {
        // the sign of the log scale decides the direction at each stage
        let c = fx_mul(d, fs);
        assert(c >= 0) by {
            assert(d * fs >= 0) by (nonlinear_arith)
                requires
                    d > 0,
                    fs > 0,
            ;
            lemma_div_pos_is_pos(d * fs, 65536);
        }
        lemma_part_ratio(t1, d);
        lemma_part_ratio(t2, d);
        lemma_fx_div_mono(t1, t2, d);
        let q1 = fx_div(t1, d);
        let q2 = fx_div(t2, d);
        if lg >= 0 {
            assert(lr >= 0) by {
                lemma_div_pos_is_pos(lg * 45426, 65536);
                assert(lg * 45426 >= 0) by (nonlinear_arith)
                    requires
                        lg >= 0,
                ;
            }
            lemma_fx_mul_mono(q1, q2, lg);
            lemma_exp2_mono(fx_mul(q1, lg), fx_mul(q2, lg));
            let y1 = fx_sub(exp2_at(fx_mul(q1, lg)), FX_ONE as int);
            let y2 = fx_sub(exp2_at(fx_mul(q2, lg)), FX_ONE as int);
            lemma_fx_mul_mono(y1, y2, c);
            assert(fx_mul(y1, c) == fx_mul(c, y1) && fx_mul(y2, c) == fx_mul(c, y2)) by {
                assert(y1 * c == c * y1 && y2 * c == c * y2) by (nonlinear_arith);
            }
            lemma_fx_div_mono(fx_mul(c, y1), fx_mul(c, y2), lr);
        } else {
            assert(lr < 0) by {
                assert(lg * 45426 <= -45426) by (nonlinear_arith)
                    requires
                        lg <= -1,
                ;
                lemma_div_is_ordered(lg * 45426, -45426, 65536);
                assert((-45426int) / 65536 == -1);
            }
            lemma_fx_mul_mono(q1, q2, lg);
            lemma_exp2_mono(fx_mul(q2, lg), fx_mul(q1, lg));
            let y1 = fx_sub(exp2_at(fx_mul(q1, lg)), FX_ONE as int);
            let y2 = fx_sub(exp2_at(fx_mul(q2, lg)), FX_ONE as int);
            lemma_fx_mul_mono(y2, y1, c);
            assert(fx_mul(y1, c) == fx_mul(c, y1) && fx_mul(y2, c) == fx_mul(c, y2)) by {
                assert(y1 * c == c * y1 && y2 * c == c * y2) by (nonlinear_arith);
            }
            lemma_fx_div_mono(fx_mul(c, y2), fx_mul(c, y1), lr);
        }
    }
}

/// Without vibrato the time warp never runs backwards: over the note's
/// span the virtual time is monotone non-decreasing in elapsed time, for
/// positive frequencies, with or without glide.
pub proof fn lemma_warp_monotone(t1: int, t2: int, fs: int, fe: int, d: int)
    requires
        0 <= t1 <= t2 <= d,
        0 < fs,
        0 < fe,
        0 < d,
    ensures
        scale_time_at(t1, fs, fe, Option::None, d) <= scale_time_at(t2, fs, fe, Option::None, d),
{
    if fs == fe {
        lemma_fx_mul_mono(t1, t2, fs);
    } else {
        lemma_glide_phase_mono(t1, t2, fs, fe, d);
    }
}

/// Without glide (equal start and target frequencies) and without vibrato,
/// the virtual time is exactly elapsed time times frequency.
pub proof fn lemma_constant_warp(t: int, f: int, lfo: Option<int>, d: int)
    requires
        match lfo {
            Option::Some(l) => l <= 0,
            Option::None => true,
        },
    ensures
        scale_time_at(t, f, f, lfo, d) == fx_mul(t, f),
{
}

/// The integrated glide ramp starts at zero: at the instant the note
/// begins, no virtual time has accumulated.
pub proof fn lemma_glide_starts_at_zero(fs: int, fe: int, d: int)
    ensures
        glide_phase(0, fs, fe, d) == 0,
{
    vstd::arithmetic::power2::lemma2_to64();
    let ratio = fx_div(fe, fs);
    let lg = log2_at(ratio);
    let lr = fx_mul(lg, LN2_RAW as int);
    if lr != 0 {
        assert(fx_div(0, d) == 0) by {
            if d > 0 {
                vstd::arithmetic::div_mod::lemma_div_of0(d);
            } else if d < 0 {
                vstd::arithmetic::div_mod::lemma_div_of0(-d);
            }
        }
        assert(fx_mul(0, lg) == 0) by {
            vstd::arithmetic::div_mod::lemma_div_of0(65536);
        }
        assert(exp2_at(0) == sat64(exp2_mant(0) * pow2(0)));
        assert(exp2_mant(0) == 65536) by {
            vstd::arithmetic::div_mod::lemma_div_of0(65536);
        }
        assert(exp2_mant(0) * pow2(0) == 65536) by (nonlinear_arith)
            requires
                exp2_mant(0) == 65536,
                pow2(0) == 1,
        ;
        assert(fx_sub(exp2_at(0), FX_ONE as int) == 0);
        assert(fx_mul(fx_mul(d, fs), 0) == 0) by {
            vstd::arithmetic::div_mod::lemma_div_of0(65536);
            assert(fx_mul(d, fs) * 0 == 0) by (nonlinear_arith);
        }
        assert(fx_div(0, lr) == 0) by {
            if lr > 0 {
                vstd::arithmetic::div_mod::lemma_div_of0(lr);
            } else if lr < 0 {
                vstd::arithmetic::div_mod::lemma_div_of0(-lr);
            }
        }
    } else {
        assert(fx_mul(0, fs) == 0) by {
            vstd::arithmetic::div_mod::lemma_div_of0(65536);
        }
    }
}

} // verus!
