//! Pixel arithmetic. A length is an `i64` count of thousandths of a CSS
//! pixel, so fractional values survive parsing exactly. All arithmetic
//! saturates at `PX_SAT`, far beyond any workable page geometry, instead of
//! wrapping around.

use vstd::prelude::*;

verus! {

/// Thousandths of a pixel per pixel.
pub const PX_SCALE: i64 = 1000;

/// The largest length the CSS parser produces (a million million pixels).
pub const PX_LIMIT: i64 = 1_000_000_000_000_000;

/// Saturation bound of the layout arithmetic: adding two saturated values
/// still fits in an `i64`.
pub const PX_SAT: i64 = 4_000_000_000_000_000_000;

/// Clamp an unbounded value into the saturation range.
pub open spec fn sat(v: int) -> int {
    if v > PX_SAT {
        PX_SAT as int
    } else if v < -PX_SAT {
        -PX_SAT as int
    } else {
        v
    }
}

/// Saturating sum.
pub open spec fn spec_padd(a: int, b: int) -> int {
    sat(a + b)
}

/// Saturating difference.
pub open spec fn spec_psub(a: int, b: int) -> int {
    sat(a - b)
}

/// Half of a value, rounded towards zero.
pub open spec fn spec_phalf(a: int) -> int {
    if a >= 0 {
        a / 2
    } else {
        -((-a) / 2)
    }
}

/// Saturating addition of two lengths.
pub fn padd(a: i64, b: i64) -> (r: i64)
    ensures
        r as int == spec_padd(a as int, b as int),
{
    let s: i64 = if b >= 0 {
        if a <= i64::MAX - b {
            a + b
        } else {
            i64::MAX
        }
    } else {
        if a >= i64::MIN - b {
            a + b
        } else {
            i64::MIN
        }
    };
    if s > PX_SAT {
        PX_SAT
    } else if s < -PX_SAT {
        -PX_SAT
    } else {
        s
    }
}

/// Saturating subtraction of two lengths.
pub fn psub(a: i64, b: i64) -> (r: i64)
    ensures
        r as int == spec_psub(a as int, b as int),
{
    let s: i64 = if b >= 0 {
        if a >= i64::MIN + b {
            a - b
        } else {
            i64::MIN
        }
    } else {
        if a <= i64::MAX + b {
            a - b
        } else {
            i64::MAX
        }
    };
    if s > PX_SAT {
        PX_SAT
    } else if s < -PX_SAT {
        -PX_SAT
    } else {
        s
    }
}

/// Half of a length, rounded towards zero.
pub fn phalf(a: i64) -> (r: i64)
    ensures
        r as int == spec_phalf(a as int),
{
    if a >= 0 {
        let q = (a as u64) / 2;
        q as i64
    } else {
        let m = ((-(a + 1)) as u64) + 1;
        let q = m / 2;
        proof {
            assert(m == -(a as int));
            assert(q <= 0x8000_0000_0000_0000u64 / 2);
        }
        -(q as i64)
    }
}

} // verus!
