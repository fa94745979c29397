//! The policy for degenerate geometry.
//!
//! The crossing of two circles is found from the squared distance between
//! their centres and from the radicand of the half-chord factor. Both are
//! binary64 quantities; this module reads them by their IEEE 754 bit
//! patterns, so that the decision itself is integer logic.

use vstd::prelude::*;

verus! {

/// Why two circles have no usable pair of crossing points.
#[derive(Clone, Copy, Debug, PartialEq, Eq, Structural)]
pub enum GeometryError {
    /// The two centres coincide: the line through them is undefined.
    DegenerateCenters,
    /// The circles are too far apart, or one lies inside the other, or the
    /// quantities that would tell are not finite numbers.
    NoIntersection,
}

/// What a binary64 bit pattern stands for, as far as the policy cares.
#[derive(Clone, Copy, Debug, PartialEq, Eq, Structural)]
pub enum Reading {
    /// Positive or negative zero.
    Zero,
    /// A finite number above zero.
    Positive,
    /// A finite number below zero.
    Negative,
    /// Positive or negative infinity.
    Infinite,
    /// Not a number.
    NotANumber,
}

/// The sign bit of a binary64 pattern.
pub const SIGN_BIT: u64 = 0x8000_0000_0000_0000;

/// The pattern of positive infinity: all exponent bits set, no fraction bit.
pub const INFINITY_BITS: u64 = 0x7FF0_0000_0000_0000;

/// The pattern without its sign bit.
pub open spec fn magnitude_of(bits: u64) -> int {
    if bits >= SIGN_BIT {
        bits - SIGN_BIT
    } else {
        bits as int
    }
}

/// The reading of a bit pattern under IEEE 754 binary64.
pub open spec fn reading_of(bits: u64) -> Reading {
    let magnitude = magnitude_of(bits);
    if magnitude == 0 {
        Reading::Zero
    } else if magnitude > INFINITY_BITS {
        Reading::NotANumber
    } else if magnitude == INFINITY_BITS {
        Reading::Infinite
    } else if bits >= SIGN_BIT {
        Reading::Negative
    } else {
        Reading::Positive
    }
}

/// The verdict on two circles, from the bit patterns of the squared distance
/// between their centres and of the half-chord radicand.
///
/// Coincident centres come first: with a zero distance the radicand is the
/// result of a division by zero and says nothing. Otherwise the circles cross
/// exactly when the distance is a finite positive number and the radicand is
/// a finite number that is not negative (zero: the circles touch).
pub open spec fn intersection_verdict(distance_squared: u64, radicand: u64) -> Result<
    (),
    GeometryError,
> {
    if reading_of(distance_squared) is Zero {
        Err(GeometryError::DegenerateCenters)
    } else if reading_of(distance_squared) is Positive && (reading_of(radicand) is Zero
        || reading_of(radicand) is Positive) {
        Ok(())
    } else {
        Err(GeometryError::NoIntersection)
    }
}

/// Reads a binary64 bit pattern.
pub fn classify(bits: u64) -> (reading: Reading)
    ensures
        reading == reading_of(bits),
{
    let negative = bits >= SIGN_BIT;
    let magnitude: u64 = if negative {
        bits - SIGN_BIT
    } else {
        bits
    };
    if magnitude == 0 {
        Reading::Zero
    } else if magnitude > INFINITY_BITS {
        Reading::NotANumber
    } else if magnitude == INFINITY_BITS {
        Reading::Infinite
    } else if negative {
        Reading::Negative
    } else {
        Reading::Positive
    }
}

/// Decides whether two circles have crossing points that can be computed.
///
/// `distance_squared` and `radicand` are binary64 bit patterns. The call
/// fails fast: a caller that gets `Ok` may take the square root of the
/// radicand and divide by the squared distance.
pub fn check_intersection(distance_squared: u64, radicand: u64) -> (verdict: Result<
    (),
    GeometryError,
>)
    ensures
        verdict == intersection_verdict(distance_squared, radicand),
        verdict == Err::<(), GeometryError>(GeometryError::DegenerateCenters) <==> magnitude_of(
            distance_squared,
        ) == 0,
        verdict is Ok <==> 0 < distance_squared < INFINITY_BITS && (radicand < INFINITY_BITS
            || radicand == SIGN_BIT),
{
    match classify(distance_squared) {
        Reading::Zero => Err(GeometryError::DegenerateCenters),
        Reading::Positive => match classify(radicand) {
            Reading::Zero | Reading::Positive => Ok(()),
            _ => Err(GeometryError::NoIntersection),
        },
        _ => Err(GeometryError::NoIntersection),
    }
}

} // verus!
