//! Shading: from the iteration count of a pixel to its intensity, the count
//! as a fraction of the cap, and from there to the byte of the image.
//!
//! The fraction is kept exactly, as its two terms, and the byte is computed
//! in integers, so that the byte is the floor of the true product and no
//! rounding of an intermediate value can move it.
use vstd::prelude::*;

verus! {

/// The byte that stands for the fraction `count / limit`: the integer part of
/// 255 times the fraction, and 255 where that is more.
pub open spec fn byte_of(count: int, limit: int) -> int
    recommends
        0 <= count,
        0 < limit,
{
    let scaled = (255 * count) / limit;
    if scaled > 255 {
        255
    } else {
        scaled
    }
}

/// An intensity: an iteration count as a fraction of the cap it was counted
/// under.
#[derive(Clone, Copy, Debug, PartialEq, Eq, Structural)]
pub struct Intensity {
    count: u32,
    limit: u32,
}

impl Intensity {
    #[verifier::type_invariant]
    spec fn positive_limit(self) -> bool {
        self.limit > 0
    }

    /// The numerator: the iteration count.
    pub closed spec fn spec_count(&self) -> u32 {
        self.count
    }

    /// The denominator: the cap.
    pub closed spec fn spec_limit(&self) -> u32 {
        self.limit
    }

    /// Whether the fraction lies between 0 and 1, both included.
    pub open spec fn in_unit_range(&self) -> bool {
        self.count() <= self.limit()
    }

    /// The numerator: the iteration count.
    #[verifier::when_used_as_spec(spec_count)]
    pub fn count(&self) -> (count: u32)
        ensures
            count == self.count(),
    {
        self.count
    }

    /// The denominator: the cap, which is never zero.
    #[verifier::when_used_as_spec(spec_limit)]
    pub fn limit(&self) -> (limit: u32)
        ensures
            limit == self.limit(),
            limit > 0,
    {
        proof {
            use_type_invariant(self);
        }
        self.limit
    }

    /// The byte of the image: 255 times the fraction, cut off below the point
    /// and never rounded up, and 255 for a fraction above 1.
    pub fn to_byte(&self) -> (byte: u8)
        ensures
            self.limit() > 0,
            byte == byte_of(self.count() as int, self.limit() as int),
            self.in_unit_range() ==> byte == (255 * self.count()) / (self.limit() as int),
    {
        proof {
            use_type_invariant(self);
            lemma_unit_range_fits_byte(self.count as int, self.limit as int);
        }
        let scaled: u64 = (255u64 * (self.count as u64)) / (self.limit as u64);
        if scaled > 255 {
            255
        } else {
            scaled as u8
        }
    }
}

/// The intensity of a pixel whose search used `iterations` advances under the
/// cap `limit`: the fraction `iterations / limit`. For a count that a search
/// under that cap can give, it lies between 0 and 1.
pub fn colourize(limit: u32, iterations: u32) -> (shade: Intensity)
    requires
        limit > 0,
    ensures
        shade.count() == iterations,
        shade.limit() == limit,
        iterations <= limit ==> shade.in_unit_range(),
{
    Intensity { count: iterations, limit }
}

/// A fraction between 0 and 1 needs no cutting off at 255: its byte is the
/// integer part of the product, which lies between 0 and 255.
pub proof fn lemma_unit_range_fits_byte(count: int, limit: int)
    requires
        0 <= count,
        0 < limit,
    ensures
        0 <= byte_of(count, limit) <= 255,
        count <= limit ==> byte_of(count, limit) == (255 * count) / limit,
        count == 0 ==> byte_of(count, limit) == 0,
        count >= limit ==> byte_of(count, limit) == 255,
{
    let l = limit;
    assert((255 * count) / l >= 0) by (nonlinear_arith)
        requires
            l > 0,
            count >= 0,
    ;
    if count <= limit {
        assert((255 * count) / l <= 255) by (nonlinear_arith)
            requires
                l > 0,
                0 <= count <= l,
        ;
    }
    if count >= limit {
        assert((255 * count) / l >= 255) by (nonlinear_arith)
            requires
                l > 0,
                count >= l,
        ;
    }
}

/// Shading keeps the order of the counts: a greater count under the same cap
/// never gives a darker byte.
pub proof fn lemma_byte_monotone(low: int, high: int, limit: int)
    requires
        0 < limit,
        0 <= low <= high,
    ensures
        byte_of(low, limit) <= byte_of(high, limit),
{
    let l = limit;
    assert((255 * low) / l <= (255 * high) / l) by (nonlinear_arith)
        requires
            l > 0,
            0 <= low <= high,
    ;
}

} // verus!
