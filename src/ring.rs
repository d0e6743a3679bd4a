use vstd::prelude::*;

verus! {

/// What a polynomial needs of its coefficients: a commutative ring with a
/// zero and a one. `wf` marks the values that the operations accept.
pub trait Ring: Sized {
    spec fn wf(self) -> bool;

    spec fn zero_spec() -> Self;

    spec fn one_spec() -> Self;

    spec fn add_spec(self, other: Self) -> Self;

    spec fn sub_spec(self, other: Self) -> Self;

    spec fn mul_spec(self, other: Self) -> Self;

    /// The operations stay among well-formed values.
    proof fn lemma_closed(a: Self, b: Self)
        requires
            a.wf(),
            b.wf(),
        ensures
            Self::zero_spec().wf(),
            Self::one_spec().wf(),
            a.add_spec(b).wf(),
            a.sub_spec(b).wf(),
            a.mul_spec(b).wf(),
    ;

    /// Addition is commutative and associative, with zero as its identity;
    /// subtracting zero changes nothing.
    proof fn lemma_add_laws(a: Self, b: Self, c: Self)
        requires
            a.wf(),
            b.wf(),
            c.wf(),
        ensures
            a.add_spec(b) == b.add_spec(a),
            a.add_spec(b).add_spec(c) == a.add_spec(b.add_spec(c)),
            a.add_spec(Self::zero_spec()) == a,
            a.sub_spec(Self::zero_spec()) == a,
    ;

    fn zero() -> (r: Self)
        ensures
            r == Self::zero_spec(),
    ;

    fn one() -> (r: Self)
        ensures
            r == Self::one_spec(),
    ;

    fn is_zero(&self) -> (r: bool)
        requires
            self.wf(),
        ensures
            r == (*self == Self::zero_spec()),
    ;

    fn add(&self, other: &Self) -> (r: Self)
        requires
            self.wf(),
            other.wf(),
        ensures
            r == self.add_spec(*other),
    ;

    fn sub(&self, other: &Self) -> (r: Self)
        requires
            self.wf(),
            other.wf(),
        ensures
            r == self.sub_spec(*other),
    ;

    fn mul(&self, other: &Self) -> (r: Self)
        requires
            self.wf(),
            other.wf(),
        ensures
            r == self.mul_spec(*other),
    ;

    fn same(&self, other: &Self) -> (r: bool)
        ensures
            r == (*self == *other),
    ;

    fn duplicate(&self) -> (r: Self)
        ensures
            r == *self,
    ;
}

/// A ring with division by its units, the values that have an inverse.
pub trait Field: Ring {
    spec fn is_unit(self) -> bool;

    spec fn div_spec(self, other: Self) -> Self;

    proof fn lemma_div_closed(a: Self, b: Self)
        requires
            a.wf(),
            b.wf(),
            b.is_unit(),
        ensures
            a.div_spec(b).wf(),
    ;

    fn div(&self, other: &Self) -> (r: Self)
        requires
            self.wf(),
            other.wf(),
            other.is_unit(),
        ensures
            r == self.div_spec(*other),
    ;
}

} // verus!
