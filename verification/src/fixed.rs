//! Q16.16 signed fixed-point arithmetic.
//!
//! A [`Fx`] value holds `raw` units of 1/65536: the number it stands for is
//! `raw / 65536`. Every operation is total: intermediate math runs in 128
//! bits and the result saturates at the `i64` range instead of overflowing.
//! Quotients round toward minus infinity for positive divisors, and the
//! phase wrap [`Fx::rem_one`] always lands in `[0, 1)`, also for negative
//! inputs.

use vstd::prelude::*;
use vstd::arithmetic::div_mod::lemma_fundamental_div_mod;
use vstd::arithmetic::div_mod::lemma_mod_bound;

verus! {

/// Raw units per 1.0: the Q16.16 scale factor.
pub const FX_ONE: i64 = 65536;

/// Saturate an unbounded integer into the `i64` range.
pub open spec fn sat64(x: int) -> int {
    if x > i64::MAX {
        i64::MAX as int
    } else if x < i64::MIN {
        i64::MIN as int
    } else {
        x
    }
}

/// Division rounding toward minus infinity for positive divisors, mirrored
/// for negative ones; division by zero is defined as zero so that the
/// operation is total.
pub open spec fn ediv(n: int, b: int) -> int {
    if b > 0 {
        n / b
    } else if b < 0 {
        -(n / (-b))
    } else {
        0
    }
}

/// Raw result of fixed-point addition.
pub open spec fn fx_add(a: int, b: int) -> int {
    sat64(a + b)
}

/// Raw result of fixed-point subtraction.
pub open spec fn fx_sub(a: int, b: int) -> int {
    sat64(a - b)
}

/// Raw result of fixed-point multiplication: the product rescaled by the
/// Q16.16 factor.
pub open spec fn fx_mul(a: int, b: int) -> int {
    sat64((a * b) / (FX_ONE as int))
}

/// Raw result of fixed-point division.
pub open spec fn fx_div(a: int, b: int) -> int {
    sat64(ediv(a * (FX_ONE as int), b))
}

/// Raw result of scaling by a plain integer.
pub open spec fn fx_scale(a: int, k: int) -> int {
    sat64(a * k)
}

/// Raw phase wrap: the Euclidean remainder by one period, always in
/// `[0, 65536)`.
pub open spec fn fx_rem_one(a: int) -> int {
    a % (FX_ONE as int)
}

/// Raw result of linear interpolation `x*(b-a)+a`.
pub open spec fn fx_lerp(x: int, a: int, b: int) -> int {
    fx_add(fx_mul(x, fx_sub(b, a)), a)
}

/// The product of two `i64`-sized factors stays well inside `i128`.
pub proof fn lemma_mul_fits_i128(a: int, b: int)
    requires
        -0x8000_0000_0000_0000 <= a <= 0x8000_0000_0000_0000,
        -0x8000_0000_0000_0000 <= b <= 0x8000_0000_0000_0000,
    ensures
        -0x4000_0000_0000_0000_0000_0000_0000_0000 <= a * b
            <= 0x4000_0000_0000_0000_0000_0000_0000_0000,
{
    assert(-0x4000_0000_0000_0000_0000_0000_0000_0000 <= a * b
        <= 0x4000_0000_0000_0000_0000_0000_0000_0000) by (nonlinear_arith)
        requires
            -0x8000_0000_0000_0000 <= a <= 0x8000_0000_0000_0000,
            -0x8000_0000_0000_0000 <= b <= 0x8000_0000_0000_0000,
    ;
}

/// A quotient by a positive `i64`-sized divisor stays inside `i128` when the
/// dividend does.
pub proof fn lemma_ediv_bounds(n: int, b: int)
    requires
        1 <= b <= 0x1_0000_0000_0000_0000,
        -0x4000_0000_0000_0000_0000_0000_0000_0000 <= n
            <= 0x4000_0000_0000_0000_0000_0000_0000_0000,
    ensures
        i128::MIN < n / b <= 0x4000_0000_0000_0000_0000_0000_0000_0000,
{
    let q = n / b;
    let r = n % b;
    lemma_mod_bound(n, b);
    lemma_fundamental_div_mod(n, b);
    assert(i128::MIN < q <= 0x4000_0000_0000_0000_0000_0000_0000_0000) by (nonlinear_arith)
        requires
            1 <= b <= 0x1_0000_0000_0000_0000,
            -0x4000_0000_0000_0000_0000_0000_0000_0000 <= n
                <= 0x4000_0000_0000_0000_0000_0000_0000_0000,
            n == b * q + r,
            0 <= r < b,
    ;
}

/// A Q16.16 fixed-point number: `raw / 65536`.
#[derive(Clone, Copy, PartialEq, Eq, Structural, Debug)]
pub struct Fx {
    pub raw: i64,
}

pub(crate) fn clamp128(x: i128) -> (r: i64)
    ensures
        r as int == sat64(x as int),
{
    if x > i64::MAX as i128 {
        i64::MAX
    } else if x < i64::MIN as i128 {
        i64::MIN
    } else {
        x as i64
    }
}

/// Euclidean-style division of a wide dividend by a nonzero `i64`-sized
/// divisor, rounding toward minus infinity for positive divisors.
pub(crate) fn ediv128(n: i128, b: i128) -> (r: i128)
    requires
        b != 0,
        -0x8000_0000_0000_0000 <= b <= 0x8000_0000_0000_0000,
        -0x4000_0000_0000_0000_0000_0000_0000_0000 <= n
            <= 0x4000_0000_0000_0000_0000_0000_0000_0000,
    ensures
        r as int == ediv(n as int, b as int),
{
    if b > 0 {
        proof {
            lemma_ediv_bounds(n as int, b as int);
        }
        n.checked_div_euclid(b).unwrap()
    } else {
        let bb: i128 = -b;
        proof {
            lemma_ediv_bounds(n as int, bb as int);
        }
        let q: i128 = n.checked_div_euclid(bb).unwrap();
        -q
    }
}

impl Fx {
    /// The number of whole units this value holds, rounded toward minus
    /// infinity.
    pub open spec fn floor_int(self) -> int {
        self.raw as int / (FX_ONE as int)
    }

    pub fn from_raw(raw: i64) -> (r: Fx)
        ensures
            r.raw == raw,
    {
        Fx { raw }
    }

    /// The fixed-point image of a plain integer, saturated.
    pub fn from_int(i: i64) -> (r: Fx)
        ensures
            r.raw as int == fx_scale(FX_ONE as int, i as int),
    {
        proof {
            lemma_mul_fits_i128(FX_ONE as int, i as int);
        }
        Fx { raw: clamp128(FX_ONE as i128 * i as i128) }
    }

    pub fn zero() -> (r: Fx)
        ensures
            r.raw == 0,
    {
        Fx { raw: 0 }
    }

    pub fn one() -> (r: Fx)
        ensures
            r.raw == FX_ONE,
    {
        Fx { raw: FX_ONE }
    }

    pub fn add(self, o: Fx) -> (r: Fx)
        ensures
            r.raw as int == fx_add(self.raw as int, o.raw as int),
    {
        Fx { raw: clamp128(self.raw as i128 + o.raw as i128) }
    }

    pub fn sub(self, o: Fx) -> (r: Fx)
        ensures
            r.raw as int == fx_sub(self.raw as int, o.raw as int),
    {
        Fx { raw: clamp128(self.raw as i128 - o.raw as i128) }
    }

    pub fn mul(self, o: Fx) -> (r: Fx)
        ensures
            r.raw as int == fx_mul(self.raw as int, o.raw as int),
    {
        proof {
            lemma_mul_fits_i128(self.raw as int, o.raw as int);
        }
        let wide: i128 = self.raw as i128 * o.raw as i128;
        Fx { raw: clamp128(ediv128(wide, FX_ONE as i128)) }
    }

    pub fn div(self, o: Fx) -> (r: Fx)
        ensures
            r.raw as int == fx_div(self.raw as int, o.raw as int),
    {
        if o.raw == 0 {
            Fx { raw: 0 }
        } else {
            proof {
                lemma_mul_fits_i128(self.raw as int, FX_ONE as int);
            }
            let wide: i128 = self.raw as i128 * FX_ONE as i128;
            Fx { raw: clamp128(ediv128(wide, o.raw as i128)) }
        }
    }

    /// Scale by a plain integer factor.
    pub fn scale(self, k: i64) -> (r: Fx)
        ensures
            r.raw as int == fx_scale(self.raw as int, k as int),
    {
        proof {
            lemma_mul_fits_i128(self.raw as int, k as int);
        }
        Fx { raw: clamp128(self.raw as i128 * k as i128) }
    }

    /// Wrap into one period: the Euclidean remainder by 1.0.
    pub fn rem_one(self) -> (r: Fx)
        ensures
            r.raw as int == fx_rem_one(self.raw as int),
            0 <= r.raw < FX_ONE,
    {
        proof {
            lemma_mod_bound(self.raw as int, FX_ONE as int);
        }
        let m: i64 = self.raw.checked_rem_euclid(FX_ONE).unwrap();
        Fx { raw: m }
    }

    /// Linear interpolation from `a` (at self 0) to `b` (at self 1).
    pub fn lerp(self, a: Fx, b: Fx) -> (r: Fx)
        ensures
            r.raw as int == fx_lerp(self.raw as int, a.raw as int, b.raw as int),
    {
        self.mul(b.sub(a)).add(a)
    }
}

} // verus!
