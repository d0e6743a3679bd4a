use vstd::prelude::*;
use crate::ring::{Field, Ring};

verus! {

/// Machine integers as the ring of integers modulo 2^32, with wrapping
/// arithmetic.
impl Ring for u32 {
    open spec fn wf(self) -> bool {
        true
    }

    open spec fn zero_spec() -> Self {
        0
    }

    open spec fn one_spec() -> Self {
        1
    }

    open spec fn add_spec(self, other: Self) -> Self {
        self.wrapping_add(other)
    }

    open spec fn sub_spec(self, other: Self) -> Self {
        self.wrapping_sub(other)
    }

    open spec fn mul_spec(self, other: Self) -> Self {
        self.wrapping_mul(other)
    }

    proof fn lemma_closed(a: Self, b: Self) {
    }

    proof fn lemma_add_laws(a: Self, b: Self, c: Self) {
    }

    fn zero() -> (r: Self) {
        0
    }

    fn one() -> (r: Self) {
        1
    }

    fn is_zero(&self) -> (r: bool) {
        *self == 0
    }

    fn add(&self, other: &Self) -> (r: Self) {
        self.wrapping_add(*other)
    }

    fn sub(&self, other: &Self) -> (r: Self) {
        self.wrapping_sub(*other)
    }

    fn mul(&self, other: &Self) -> (r: Self) {
        self.wrapping_mul(*other)
    }

    fn same(&self, other: &Self) -> (r: bool) {
        *self == *other
    }

    fn duplicate(&self) -> (r: Self) {
        *self
    }
}

/// Machine integers as the ring of integers modulo 2^64, with wrapping
/// arithmetic.
impl Ring for i64 {
    open spec fn wf(self) -> bool {
        true
    }

    open spec fn zero_spec() -> Self {
        0
    }

    open spec fn one_spec() -> Self {
        1
    }

    open spec fn add_spec(self, other: Self) -> Self {
        self.wrapping_add(other)
    }

    open spec fn sub_spec(self, other: Self) -> Self {
        self.wrapping_sub(other)
    }

    open spec fn mul_spec(self, other: Self) -> Self {
        self.wrapping_mul(other)
    }

    proof fn lemma_closed(a: Self, b: Self) {
    }

    proof fn lemma_add_laws(a: Self, b: Self, c: Self) {
    }

    fn zero() -> (r: Self) {
        0
    }

    fn one() -> (r: Self) {
        1
    }

    fn is_zero(&self) -> (r: bool) {
        *self == 0
    }

    fn add(&self, other: &Self) -> (r: Self) {
        self.wrapping_add(*other)
    }

    fn sub(&self, other: &Self) -> (r: Self) {
        self.wrapping_sub(*other)
    }

    fn mul(&self, other: &Self) -> (r: Self) {
        self.wrapping_mul(*other)
    }

    fn same(&self, other: &Self) -> (r: bool) {
        *self == *other
    }

    fn duplicate(&self) -> (r: Self) {
        *self
    }
}

/// Integers divide exactly by the units one and minus one.
impl Field for i64 {
    open spec fn is_unit(self) -> bool {
        self == 1 || self == -1
    }

    open spec fn div_spec(self, other: Self) -> Self {
        if other == 1 {
            self
        } else {
            self.wrapping_mul(-1i64)
        }
    }

    proof fn lemma_div_closed(a: Self, b: Self) {
    }

    fn div(&self, other: &Self) -> (r: Self) {
        if *other == 1 {
            *self
        } else {
            self.wrapping_mul(-1i64)
        }
    }
}

} // verus!
