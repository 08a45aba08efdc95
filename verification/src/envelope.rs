//! The amplitude envelope: attack / decay / sustain / release.
//!
//! The envelope yields a volume multiplier from the time elapsed since the
//! note started and the time left until its audible end. Attack ramps the
//! multiplier linearly from 0 to 1, decay from 1 down to the sustain level,
//! which then holds. Independently, once the remaining time drops below the
//! release span, the current multiplier is faded linearly to silence. A
//! zero-length stage counts as already complete, so no stage ever divides
//! by zero.

use vstd::prelude::*;
use vstd::arithmetic::div_mod::lemma_div_pos_is_pos;
use vstd::arithmetic::div_mod::lemma_div_is_ordered;
use vstd::arithmetic::div_mod::lemma_div_by_multiple;
use vstd::arithmetic::div_mod::lemma_div_multiples_vanish;
use crate::fixed::{Fx, FX_ONE, fx_sub, fx_mul, fx_div, fx_lerp};

verus! {

/// The raw envelope multiplier, composed exactly as the engine computes it:
/// the attack/decay/sustain stage value, times the release fade when the
/// remaining time is inside the release span.
pub open spec fn envelope_at(
    elapsed_ms: int,
    until_end_ms: int,
    attack: int,
    decay: int,
    sustain: int,
    release: int,
) -> int {
    let stage = if elapsed_ms < attack {
        fx_div(elapsed_ms, attack)
    } else if elapsed_ms < attack + decay {
        fx_lerp(fx_div(elapsed_ms - attack, decay), FX_ONE as int, sustain)
    } else {
        sustain
    };
    if until_end_ms < release {
        fx_mul(stage, fx_div(until_end_ms, release))
    } else {
        stage
    }
}

/// A ratio of a partial span to its full span stays within one unit.
proof fn lemma_ratio_unit(n: int, d: int)
    requires
        0 <= n < d,
    ensures
        0 <= fx_div(n, d) <= FX_ONE,
{
    lemma_div_pos_is_pos(n * 65536, d);
    assert(n * 65536 <= d * 65536) by (nonlinear_arith)
        requires
            n <= d,
    ;
    lemma_div_is_ordered(n * 65536, d * 65536, d);
    lemma_div_by_multiple(65536, d);
    assert((65536 * d) / d == 65536);
    assert(d * 65536 == 65536 * d);
}

/// Interpolating from full level down to a sustain level inside `[0, 1]`
/// stays within `[0, 1]`.
proof fn lemma_decay_unit(x: int, s: int)
    requires
        0 <= x <= FX_ONE,
        0 <= s <= FX_ONE,
    ensures
        0 <= fx_lerp(x, FX_ONE as int, s) <= FX_ONE,
{
    let d = fx_sub(s, FX_ONE as int);
    assert(d == s - 65536);
    assert(-65536 * 65536 <= x * d <= 0) by (nonlinear_arith)
        requires
            0 <= x <= 65536,
            -65536 <= d <= 0,
    ;
    lemma_div_is_ordered(x * d, 0, 65536);
    lemma_div_is_ordered(-65536 * 65536, x * d, 65536);
    lemma_div_multiples_vanish(-65536, 65536);
    assert((65536 * -65536) / 65536 == -65536);
    assert(-65536 * 65536 == 65536 * -65536);
    assert(0int / 65536 == 0);
}

/// The product of two multipliers inside `[0, 1]` stays inside `[0, 1]`.
pub proof fn lemma_mul_unit(a: int, b: int)
    requires
        0 <= a <= FX_ONE,
        0 <= b <= FX_ONE,
    ensures
        0 <= fx_mul(a, b) <= FX_ONE,
{
    assert(0 <= a * b <= 65536 * 65536) by (nonlinear_arith)
        requires
            0 <= a <= 65536,
            0 <= b <= 65536,
    ;
    lemma_div_pos_is_pos(a * b, 65536);
    lemma_div_is_ordered(a * b, 65536int * 65536, 65536);
    lemma_div_by_multiple(65536, 65536);
}

/// The envelope multiplier for a note at a point in time.
///
/// `elapsed_ms` is the (capped) time since the note's start and
/// `until_end_ms` the time until its audible end, both in milliseconds.
/// The result is the exact value of [`envelope_at`]; whenever the stage
/// spans are non-negative, the sustain level lies in `[0, 1]`, and the
/// probed instant lies inside the note, the multiplier lies in `[0, 1]`.
pub fn volume_multiplier(
    elapsed_ms: Fx,
    until_end_ms: Fx,
    attack: Fx,
    decay: Fx,
    sustain: Fx,
    release: Fx,
) -> (r: Fx)
    ensures
        r.raw as int == envelope_at(
            elapsed_ms.raw as int,
            until_end_ms.raw as int,
            attack.raw as int,
            decay.raw as int,
            sustain.raw as int,
            release.raw as int,
        ),
        (0 <= elapsed_ms.raw && 0 <= until_end_ms.raw && 0 <= attack.raw && 0 <= decay.raw
            && 0 <= release.raw && 0 <= sustain.raw <= FX_ONE) ==> 0 <= r.raw <= FX_ONE,
{
    let stage: Fx = if elapsed_ms.raw < attack.raw {
        let r = elapsed_ms.div(attack);
        proof {
            if 0 <= elapsed_ms.raw {
                lemma_ratio_unit(elapsed_ms.raw as int, attack.raw as int);
            }
        }
        r
    } else if (elapsed_ms.raw as i128) < attack.raw as i128 + decay.raw as i128 {
        let x = elapsed_ms.sub(attack).div(decay);
        proof {
            if 0 <= attack.raw && 0 <= elapsed_ms.raw {
                lemma_ratio_unit(
                    elapsed_ms.raw - attack.raw,
                    decay.raw as int,
                );
                if 0 <= sustain.raw <= FX_ONE {
                    lemma_decay_unit(x.raw as int, sustain.raw as int);
                }
            }
        }
        x.lerp(Fx::one(), sustain)
    } else {
        sustain
    };
    if until_end_ms.raw < release.raw {
        let fade = until_end_ms.div(release);
        proof {
            if 0 <= until_end_ms.raw {
                lemma_ratio_unit(until_end_ms.raw as int, release.raw as int);
                if 0 <= stage.raw <= FX_ONE {
                    lemma_mul_unit(stage.raw as int, fade.raw as int);
                }
            }
        }
        stage.mul(fade)
    } else {
        stage
    }
}

/// A note with no attack, no decay, no release, and full sustain keeps the
/// multiplier at exactly one for every instant inside its span.
pub proof fn lemma_flat_envelope(elapsed_ms: int, until_end_ms: int)
    requires
        0 <= elapsed_ms,
        0 <= until_end_ms,
    ensures
        envelope_at(elapsed_ms, until_end_ms, 0, 0, FX_ONE as int, 0) == FX_ONE,
{
}

} // verus!
