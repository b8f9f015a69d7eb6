//! Real numbers as IEEE-754 bit patterns, and complex numbers over them.

use vstd::prelude::*;

verus! {

/// The sign bit of an `f64` pattern.
pub const SIGN_64: u64 = 0x8000_0000_0000_0000;

/// The pattern of `1.0f64`.
pub const ONE_64: u64 = 0x3ff0_0000_0000_0000;

/// The sign bit of an `f32` pattern.
pub const SIGN_32: u32 = 0x8000_0000;

/// The pattern of `1.0f32`.
pub const ONE_32: u32 = 0x3f80_0000;

/// A real number carried as the bit pattern of an IEEE-754 binary float.
///
/// Only the operations the library needs are offered, each exact on the
/// pattern: telling a zero (of either sign) apart, and negating.
pub trait FloatBits: Copy + Sized {
    /// The pattern encodes `+0.0` or `-0.0`.
    spec fn spec_is_zero(self) -> bool;

    /// The pattern with its sign bit flipped: what float negation yields.
    spec fn spec_negated(self) -> Self;

    /// The pattern of `1.0`.
    spec fn spec_one() -> Self;

    /// The pattern of `+0.0`.
    spec fn spec_zero() -> Self;

    fn is_zero(&self) -> (r: bool)
        ensures
            r == self.spec_is_zero(),
    ;

    fn negated(&self) -> (r: Self)
        ensures
            r == self.spec_negated(),
    ;

    fn one() -> (r: Self)
        ensures
            r == Self::spec_one(),
            !r.spec_is_zero(),
    ;

    fn zero() -> (r: Self)
        ensures
            r == Self::spec_zero(),
            r.spec_is_zero(),
    ;

    /// Bit-for-bit identity of two patterns.
    fn same(&self, other: &Self) -> (r: bool)
        ensures
            r == (*self == *other),
    ;
}

impl FloatBits for u64 {
    open spec fn spec_is_zero(self) -> bool {
        self == 0 || self == SIGN_64
    }

    open spec fn spec_negated(self) -> u64 {
        if self >= SIGN_64 {
            (self - SIGN_64) as u64
        } else {
            (self + SIGN_64) as u64
        }
    }

    open spec fn spec_one() -> u64 {
        ONE_64
    }

    open spec fn spec_zero() -> u64 {
        0
    }

    fn is_zero(&self) -> (r: bool) {
        *self == 0 || *self == SIGN_64
    }

    fn negated(&self) -> (r: u64) {
        if *self >= SIGN_64 {
            *self - SIGN_64
        } else {
            *self + SIGN_64
        }
    }

    fn one() -> (r: u64) {
        ONE_64
    }

    fn zero() -> (r: u64) {
        0
    }

    fn same(&self, other: &u64) -> (r: bool) {
        *self == *other
    }
}

impl FloatBits for u32 {
    open spec fn spec_is_zero(self) -> bool {
        self == 0 || self == SIGN_32
    }

    open spec fn spec_negated(self) -> u32 {
        if self >= SIGN_32 {
            (self - SIGN_32) as u32
        } else {
            (self + SIGN_32) as u32
        }
    }

    open spec fn spec_one() -> u32 {
        ONE_32
    }

    open spec fn spec_zero() -> u32 {
        0
    }

    fn is_zero(&self) -> (r: bool) {
        *self == 0 || *self == SIGN_32
    }

    fn negated(&self) -> (r: u32) {
        if *self >= SIGN_32 {
            *self - SIGN_32
        } else {
            *self + SIGN_32
        }
    }

    fn one() -> (r: u32) {
        ONE_32
    }

    fn zero() -> (r: u32) {
        0
    }

    fn same(&self, other: &u32) -> (r: bool) {
        *self == *other
    }
}

/// A complex number `re + j im`.
#[derive(Clone, Copy, Debug, PartialEq, Eq)]
pub struct Complex<T> {
    pub re: T,
    pub im: T,
}

impl<T: FloatBits> Complex<T> {
    /// The complex number `re + j im`.
    pub fn new(re: T, im: T) -> (r: Self)
        ensures
            r == (Complex { re, im }),
    {
        Complex { re, im }
    }

    /// Both parts are zero: the additive identity.
    pub open spec fn spec_is_zero(self) -> bool {
        self.re.spec_is_zero() && self.im.spec_is_zero()
    }

    /// Whether this is the additive identity (each part `+0.0` or `-0.0`).
    pub fn is_zero(&self) -> (r: bool)
        ensures
            r == self.spec_is_zero(),
    {
        self.re.is_zero() && self.im.is_zero()
    }

    /// Bit-for-bit identity of both parts.
    pub fn same(&self, other: &Self) -> (r: bool)
        ensures
            r == (*self == *other),
    {
        self.re.same(&other.re) && self.im.same(&other.im)
    }
}

} // verus!
