//! The canonical coordinate mapping.
//!
//! A fixed-width integer domain is carried onto the unsigned coordinate
//! space `[0, Self::dom_max()]` by a strictly monotonic bijection: the
//! least representable value maps to coordinate `0` and the greatest to
//! `Self::dom_max()`.  For an unsigned type the mapping is a widening
//! reinterpretation; for a signed type it adds a bias of half the span,
//! so that signedness never has to be special-cased by the range logic.

use vstd::prelude::*;

verus! {

/// A fixed-width integer type, viewed through its canonical coordinates.
///
/// `cv` gives the canonical coordinate of a value; `encode` computes it and
/// `decode` inverts it.  `cv` is injective and its image is exactly
/// `[0, Self::dom_max()]`, so `decode` is total on that interval.
pub trait Domain: Sized + Copy {
    /// The canonical coordinate of this value.
    spec fn cv(self) -> u64;

    /// The greatest canonical coordinate of the domain, i.e. the
    /// coordinate of the type's maximum value.
    spec fn dom_max() -> u64;

    /// Distinct values have distinct canonical coordinates.
    proof fn lemma_cv_injective(a: Self, b: Self)
        requires
            a.cv() == b.cv(),
        ensures
            a == b,
    ;

    /// Every canonical coordinate lies within the domain.
    proof fn lemma_cv_in_domain(self)
        ensures
            self.cv() <= Self::dom_max(),
    ;

    /// The greatest canonical coordinate, computed.
    fn max_coord() -> (c: u64)
        ensures
            c == Self::dom_max(),
    ;

    /// The canonical coordinate of this value, computed.
    fn encode(self) -> (c: u64)
        ensures
            c == self.cv(),
            c <= Self::dom_max(),
    ;

    /// The value at a canonical coordinate.
    fn decode(c: u64) -> (r: Self)
        requires
            c <= Self::dom_max(),
        ensures
            r.cv() == c,
    ;
}

impl Domain for u8 {
    open spec fn cv(self) -> u64 {
        self as u64
    }

    open spec fn dom_max() -> u64 {
        0xff
    }

    proof fn lemma_cv_injective(a: Self, b: Self) {
    }

    proof fn lemma_cv_in_domain(self) {
    }

    fn max_coord() -> (c: u64) {
        0xff
    }

    fn encode(self) -> (c: u64) {
        self as u64
    }

    fn decode(c: u64) -> (r: Self) {
        c as u8
    }
}

impl Domain for u16 {
    open spec fn cv(self) -> u64 {
        self as u64
    }

    open spec fn dom_max() -> u64 {
        0xffff
    }

    proof fn lemma_cv_injective(a: Self, b: Self) {
    }

    proof fn lemma_cv_in_domain(self) {
    }

    fn max_coord() -> (c: u64) {
        0xffff
    }

    fn encode(self) -> (c: u64) {
        self as u64
    }

    fn decode(c: u64) -> (r: Self) {
        c as u16
    }
}

impl Domain for u32 {
    open spec fn cv(self) -> u64 {
        self as u64
    }

    open spec fn dom_max() -> u64 {
        0xffff_ffff
    }

    proof fn lemma_cv_injective(a: Self, b: Self) {
    }

    proof fn lemma_cv_in_domain(self) {
    }

    fn max_coord() -> (c: u64) {
        0xffff_ffff
    }

    fn encode(self) -> (c: u64) {
        self as u64
    }

    fn decode(c: u64) -> (r: Self) {
        c as u32
    }
}

impl Domain for u64 {
    open spec fn cv(self) -> u64 {
        self
    }

    open spec fn dom_max() -> u64 {
        0xffff_ffff_ffff_ffff
    }

    proof fn lemma_cv_injective(a: Self, b: Self) {
    }

    proof fn lemma_cv_in_domain(self) {
    }

    fn max_coord() -> (c: u64) {
        0xffff_ffff_ffff_ffff
    }

    fn encode(self) -> (c: u64) {
        self
    }

    fn decode(c: u64) -> (r: Self) {
        c
    }
}

impl Domain for i8 {
    open spec fn cv(self) -> u64 {
        (self + 0x80) as u64
    }

    open spec fn dom_max() -> u64 {
        0xff
    }

    proof fn lemma_cv_injective(a: Self, b: Self) {
    }

    proof fn lemma_cv_in_domain(self) {
    }

    fn max_coord() -> (c: u64) {
        0xff
    }

    fn encode(self) -> (c: u64) {
        (self as i64 + 0x80) as u64
    }

    fn decode(c: u64) -> (r: Self) {
        (c as i64 - 0x80) as i8
    }
}

impl Domain for i16 {
    open spec fn cv(self) -> u64 {
        (self + 0x8000) as u64
    }

    open spec fn dom_max() -> u64 {
        0xffff
    }

    proof fn lemma_cv_injective(a: Self, b: Self) {
    }

    proof fn lemma_cv_in_domain(self) {
    }

    fn max_coord() -> (c: u64) {
        0xffff
    }

    fn encode(self) -> (c: u64) {
        (self as i64 + 0x8000) as u64
    }

    fn decode(c: u64) -> (r: Self) {
        (c as i64 - 0x8000) as i16
    }
}

impl Domain for i32 {
    open spec fn cv(self) -> u64 {
        (self + 0x8000_0000) as u64
    }

    open spec fn dom_max() -> u64 {
        0xffff_ffff
    }

    proof fn lemma_cv_injective(a: Self, b: Self) {
    }

    proof fn lemma_cv_in_domain(self) {
    }

    fn max_coord() -> (c: u64) {
        0xffff_ffff
    }

    fn encode(self) -> (c: u64) {
        (self as i64 + 0x8000_0000) as u64
    }

    fn decode(c: u64) -> (r: Self) {
        (c as i64 - 0x8000_0000) as i32
    }
}

impl Domain for i64 {
    open spec fn cv(self) -> u64 {
        (self + 0x8000_0000_0000_0000) as u64
    }

    open spec fn dom_max() -> u64 {
        0xffff_ffff_ffff_ffff
    }

    proof fn lemma_cv_injective(a: Self, b: Self) {
    }

    proof fn lemma_cv_in_domain(self) {
    }

    fn max_coord() -> (c: u64) {
        0xffff_ffff_ffff_ffff
    }

    fn encode(self) -> (c: u64) {
        ((self as i128) + 0x8000_0000_0000_0000) as u64
    }

    fn decode(c: u64) -> (r: Self) {
        ((c as i128) - 0x8000_0000_0000_0000) as i64
    }
}

} // verus!
