//! Small shared value types.

use vstd::arithmetic::div_mod::lemma_fundamental_div_mod;
use vstd::prelude::*;

verus! {

/// Floor division stays under `b` when the dividend stays under `b * d`.
pub proof fn lemma_div_below(a: int, b: int, d: int)
    requires
        0 <= a,
        0 < d,
        a < b * d,
    ensures
        a / d < b,
{
    lemma_fundamental_div_mod(a, d);
    if a / d >= b {
        assert(d * (a / d) >= d * b) by (nonlinear_arith)
            requires
                0 < d,
                a / d >= b,
        ;
        assert(a >= d * b) by {
            assert(a % d >= 0);
        }
        assert(b * d == d * b) by (nonlinear_arith);
    }
}

/// Floor division reaches at least `b` when the dividend reaches `b * d`.
pub proof fn lemma_div_at_least(a: int, b: int, d: int)
    requires
        0 <= b,
        0 < d,
        b * d <= a,
    ensures
        a / d >= b,
{
    lemma_fundamental_div_mod(a, d);
    if a / d < b {
        assert(d * (a / d) <= d * (b - 1)) by (nonlinear_arith)
            requires
                0 < d,
                a / d <= b - 1,
        ;
        assert(a % d < d);
        assert(d * (b - 1) == d * b - d) by (nonlinear_arith);
        assert(b * d == d * b) by (nonlinear_arith);
    }
}

/// `v` clamped into the interval from `lo` to `hi`.
pub open spec fn clamped(v: int, lo: int, hi: int) -> int {
    if v < lo {
        lo
    } else if v > hi {
        hi
    } else {
        v
    }
}

/// A raster size in pixels.
#[derive(Debug, PartialEq, Eq, Structural, Hash, Copy, Clone)]
pub struct Dimensions {
    pub width: u32,
    pub height: u32,
}

impl Dimensions {
    pub fn new(width: u32, height: u32) -> (r: Dimensions)
        ensures
            r.width == width,
            r.height == height,
    {
        Dimensions { width, height }
    }

    pub open spec fn spec_width(&self) -> u32 {
        self.width
    }

    pub open spec fn spec_height(&self) -> u32 {
        self.height
    }

    #[verifier::when_used_as_spec(spec_width)]
    pub fn width(&self) -> (r: u32)
        ensures
            r == self.width,
    {
        self.width
    }

    #[verifier::when_used_as_spec(spec_height)]
    pub fn height(&self) -> (r: u32)
        ensures
            r == self.height,
    {
        self.height
    }
}

} // verus!
