//! Real-valued quantities (scores, costs, conservation measures).
//!
//! A quantity is an IEEE-754 double, held as its raw bits, so that it comes back
//! exactly as it was given (a negative zero, a NaN's payload). The library never
//! does arithmetic on quantities; it only compares them. For comparison a
//! double that is not a NaN stands for its position in the order of doubles: the
//! magnitude bits with the sign applied. For two doubles `x`, `y` that are not
//! NaN, `x < y` exactly when their keys compare so, and `x == y` exactly when
//! their keys are equal (both zeros have key 0). A NaN compares false with
//! everything.
use vstd::prelude::*;

verus! {

/// The sign bit of a double's raw bits.
pub const SIGN_BIT: u64 = 0x8000_0000_0000_0000;

/// Raw bits of positive infinity: the greatest magnitude that is not a NaN.
pub const INFINITY_BITS: u64 = 0x7FF0_0000_0000_0000;

/// Raw bits of the double 1.0.
pub const ONE_BITS: u64 = 0x3FF0_0000_0000_0000;

/// What the raw bits of a double stand for in comparisons: its order key, or NaN.
pub enum RealView {
    Value(int),
    NaN,
}

/// Magnitude of a double given by its raw bits (the bits without the sign).
pub open spec fn magnitude_of_bits(b: u64) -> int {
    if b >= SIGN_BIT {
        b - SIGN_BIT
    } else {
        b as int
    }
}

/// The order key of the double with raw bits `b`, or NaN.
pub open spec fn real_of_bits(b: u64) -> RealView {
    let m = magnitude_of_bits(b);
    if m > INFINITY_BITS {
        RealView::NaN
    } else if b >= SIGN_BIT {
        RealView::Value(-m)
    } else {
        RealView::Value(m)
    }
}

/// `a < b` for the doubles with raw bits `a`, `b`: false whenever either is NaN.
pub open spec fn real_lt(a: u64, b: u64) -> bool {
    match (real_of_bits(a), real_of_bits(b)) {
        (RealView::Value(x), RealView::Value(y)) => x < y,
        _ => false,
    }
}

/// `a == b` for the doubles with raw bits `a`, `b`: false whenever either is NaN.
pub open spec fn real_eq(a: u64, b: u64) -> bool {
    match (real_of_bits(a), real_of_bits(b)) {
        (RealView::Value(x), RealView::Value(y)) => x == y,
        _ => false,
    }
}

/// Whether the double with raw bits `a` is NaN.
pub open spec fn real_is_nan(a: u64) -> bool {
    real_of_bits(a) is NaN
}

/// The order key of the double with raw bits `a`, 0 for NaN.
pub open spec fn order_key(a: u64) -> int {
    match real_of_bits(a) {
        RealView::Value(x) => x,
        RealView::NaN => 0,
    }
}

/// A double, held by its raw bits.
#[derive(Clone, Copy, Debug)]
pub struct Real {
    bits: u64,
}

impl View for Real {
    type V = u64;

    closed spec fn view(&self) -> u64 {
        self.bits
    }
}

/// Whether the double with raw bits `bits` is NaN, and its order key (0 for NaN).
fn order_of_bits(bits: u64) -> (r: (bool, i64))
    ensures
        r.0 == real_is_nan(bits),
        r.1 as int == order_key(bits),
        -(INFINITY_BITS as int) <= r.1 <= INFINITY_BITS as int,
{
    let negative = bits >= SIGN_BIT;
    let mag: u64 = if negative {
        bits - SIGN_BIT
    } else {
        bits
    };
    if mag > INFINITY_BITS {
        (true, 0)
    } else if negative {
        (false, -(mag as i64))
    } else {
        (false, mag as i64)
    }
}

impl Real {
    /// The double whose raw bits (as `f64::to_bits` gives them) are `bits`.
    pub fn from_bits(bits: u64) -> (r: Real)
        ensures
            r@ == bits,
    {
        Real { bits }
    }

    /// The raw bits of this double, exactly as they were given.
    pub fn to_bits(&self) -> (b: u64)
        ensures
            b == self@,
    {
        self.bits
    }

    /// The double +0.0.
    pub fn zero() -> (r: Real)
        ensures
            r@ == 0,
    {
        Real { bits: 0 }
    }

    /// The double 1.0.
    pub fn one() -> (r: Real)
        ensures
            r@ == ONE_BITS,
    {
        Real { bits: ONE_BITS }
    }

    /// Whether this double is NaN.
    pub fn is_nan(&self) -> (b: bool)
        ensures
            b == real_is_nan(self@),
    {
        order_of_bits(self.bits).0
    }

    /// `self < other` as doubles compare.
    pub fn lt(&self, other: &Real) -> (b: bool)
        ensures
            b == real_lt(self@, other@),
    {
        let (a_nan, a) = order_of_bits(self.bits);
        let (b_nan, b) = order_of_bits(other.bits);
        !a_nan && !b_nan && a < b
    }

    /// `self == other` as doubles compare.
    pub fn same_value(&self, other: &Real) -> (b: bool)
        ensures
            b == real_eq(self@, other@),
    {
        let (a_nan, a) = order_of_bits(self.bits);
        let (b_nan, b) = order_of_bits(other.bits);
        !a_nan && !b_nan && a == b
    }

    /// The order key, 0 for NaN.
    pub fn key(&self) -> (k: i64)
        ensures
            k as int == order_key(self@),
            -(INFINITY_BITS as int) <= k <= INFINITY_BITS as int,
    {
        order_of_bits(self.bits).1
    }
}

} // verus!
