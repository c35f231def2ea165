//! Real-valued scores, held as the bit pattern of an IEEE 754 double.
//!
//! The library orders and compares scores; it does not compute with them. Two
//! doubles that are numbers compare as the signed integers below their bit
//! patterns do, and a comparison with a NaN is false.

use vstd::prelude::*;

verus! {

/// The sign bit of a double.
pub const SIGN: u64 = 0x8000_0000_0000_0000;

/// The bit pattern of positive infinity: a magnitude above it is a NaN.
pub const INFINITY: u64 = 0x7ff0_0000_0000_0000;

/// A double, by its bit pattern.
#[derive(Clone, Copy, Debug, PartialEq, Eq, Structural)]
pub struct Score {
    /// The IEEE 754 bit pattern.
    pub bits: u64,
}

/// The bit pattern of zero.
pub const ZERO: u64 = 0;

/// The bit pattern of one.
pub const ONE: u64 = 0x3ff0_0000_0000_0000;

impl Score {
    /// The bit pattern without its sign.
    pub open spec fn magnitude(self) -> int {
        if self.bits >= SIGN {
            self.bits - SIGN
        } else {
            self.bits as int
        }
    }

    /// Whether the pattern is no number.
    pub open spec fn nan(self) -> bool {
        self.magnitude() > INFINITY
    }

    /// The place of a number in the order of doubles; both zeros have place 0.
    pub open spec fn rank(self) -> int {
        if self.bits >= SIGN {
            -self.magnitude()
        } else {
            self.magnitude()
        }
    }

    /// `self < other`, as doubles compare.
    pub open spec fn below(self, other: Score) -> bool {
        !self.nan() && !other.nan() && self.rank() < other.rank()
    }

    /// `self >= other`, as doubles compare.
    pub open spec fn reaches(self, other: Score) -> bool {
        !self.nan() && !other.nan() && self.rank() >= other.rank()
    }

    /// Whether the pattern is no number.
    pub fn is_nan(&self) -> (r: bool)
        ensures
            r == self.nan(),
    {
        if self.bits >= SIGN {
            self.bits - SIGN > INFINITY
        } else {
            self.bits > INFINITY
        }
    }

    fn place(&self) -> (r: i64)
        requires
            !self.nan(),
        ensures
            r == self.rank(),
            -INFINITY <= r <= INFINITY,
    {
        if self.bits >= SIGN {
            -((self.bits - SIGN) as i64)
        } else {
            self.bits as i64
        }
    }

    /// A number that is the smaller the greater the score is.
    pub fn descending(&self) -> (r: i64)
        requires
            !self.nan(),
        ensures
            r == -self.rank(),
    {
        -self.place()
    }

    /// A number that grows with the score.
    pub fn ascending(&self) -> (r: i64)
        requires
            !self.nan(),
        ensures
            r == self.rank(),
    {
        self.place()
    }

    /// `self < other`, as doubles compare.
    pub fn lt(&self, other: &Score) -> (r: bool)
        ensures
            r == self.below(*other),
    {
        if self.is_nan() || other.is_nan() {
            false
        } else {
            self.place() < other.place()
        }
    }

    /// `self >= other`, as doubles compare.
    pub fn ge(&self, other: &Score) -> (r: bool)
        ensures
            r == self.reaches(*other),
    {
        if self.is_nan() || other.is_nan() {
            false
        } else {
            self.place() >= other.place()
        }
    }

    /// `self` bounded below by `low` and above by `high`; a NaN stays.
    pub open spec fn bounded(self, low: Score, high: Score) -> Score {
        if self.below(low) {
            low
        } else if high.below(self) {
            high
        } else {
            self
        }
    }

    /// `f64::clamp`: `low` for what is below it, `high` for what is above it,
    /// and anything else as it is.
    pub fn clamp(&self, low: Score, high: Score) -> (r: Score)
        requires
            high.reaches(low),
        ensures
            r == self.bounded(low, high),
    {
        if self.lt(&low) {
            low
        } else if high.lt(self) {
            high
        } else {
            *self
        }
    }
}

/// What is clamped lies between the bounds, unless it is no number.
pub proof fn law_clamp_in_range(s: Score, low: Score, high: Score)
    requires
        high.reaches(low),
        !s.nan(),
    ensures
        s.bounded(low, high).reaches(low),
        high.reaches(s.bounded(low, high)),
{
}

/// Clamping twice is clamping once.
pub proof fn law_clamp_idempotent(s: Score, low: Score, high: Score)
    requires
        high.reaches(low),
    ensures
        s.bounded(low, high).bounded(low, high) == s.bounded(low, high),
{
}

/// The order of doubles by their bits: positive ones grow with their bits and
/// negative ones fall, a negative one is below a positive one, the two zeros are
/// equal, and what is no number is neither below nor above anything.
pub proof fn law_order_is_that_of_doubles(a: Score, b: Score)
    ensures
        a.bits < b.bits <= 0x7ff0_0000_0000_0000 ==> a.below(b),
        0x8000_0000_0000_0000 <= a.bits < b.bits <= 0xfff0_0000_0000_0000 ==> b.below(a),
        0x8000_0000_0000_0000 < a.bits <= 0xfff0_0000_0000_0000 && b.bits <= 0x7ff0_0000_0000_0000
            ==> a.below(b),
        a.bits == 0x8000_0000_0000_0000 && b.bits == 0 ==> a.reaches(b) && b.reaches(a),
        a.nan() <==> 0x7ff0_0000_0000_0000 < a.bits < 0x8000_0000_0000_0000 || a.bits
            > 0xfff0_0000_0000_0000,
        a.nan() || b.nan() ==> !a.below(b) && !a.reaches(b),
        !a.nan() && !b.nan() ==> (a.reaches(b) <==> !a.below(b)),
        a.below(b) ==> !b.below(a),
{
}

/// A number within the bounds is kept, one outside becomes the nearer bound.
pub proof fn law_clamp_keeps_what_fits(s: Score, low: Score, high: Score)
    requires
        high.reaches(low),
        !s.nan(),
    ensures
        s.reaches(low) && high.reaches(s) ==> s.bounded(low, high) == s,
        s.below(low) ==> s.bounded(low, high) == low,
        high.below(s) ==> s.bounded(low, high) == high,
{
}

} // verus!
