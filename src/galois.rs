use vstd::prelude::*;
use vstd::arithmetic::div_mod::*;
use crate::int_mod::{inverse_of, invertible, IntMod};
use crate::polynomial::{
    all_wf, lemma_add_associative, lemma_add_commutative, lemma_add_sub_wf, lemma_add_zero_identity,
    lemma_divide_wf, lemma_mul_wf, lemma_trim_canonical, poly_add, poly_divide, poly_mul, poly_sub,
    poly_wf, trim, Polynomial,
};
use crate::ring::{Field, Ring};

verus! {

/// `p` to the power `k`.
pub open spec fn power(p: nat, k: nat) -> nat
    decreases k,
{
    if k == 0 {
        1
    } else {
        p * power(p, (k - 1) as nat)
    }
}

/// The base-`P` digits of `n`, lowest first, as a polynomial over F_P.
pub open spec fn digits<const P: u32>(n: nat) -> Seq<IntMod<P>>
    decreases n,
    via digits_decreases::<P>
{
    if n == 0 || P <= 1 {
        Seq::empty()
    } else {
        seq![IntMod::<P> { value: (n % (P as nat)) as u32 }] + digits::<P>(n / (P as nat))
    }
}

#[via_fn]
proof fn digits_decreases<const P: u32>(n: nat) {
    if n == 0 || P <= 1 {
    } else {
        lemma_div_decreases(n as int, P as int);
    }
}

/// The number whose base-`P` digits are the coefficients.
pub open spec fn number<const P: u32>(s: Seq<IntMod<P>>) -> nat
    decreases s.len(),
{
    if s.len() == 0 {
        0
    } else {
        s[0].value as nat + (P as nat) * number::<P>(s.drop_first())
    }
}

proof fn lemma_digits_props<const P: u32>(n: nat)
    requires
        P > 1,
    ensures
        poly_wf(digits::<P>(n)),
        number::<P>(digits::<P>(n)) == n,
        forall|k: nat| n < #[trigger] power(P as nat, k) ==> digits::<P>(n).len() <= k,
    decreases n,
{
    let p = P as nat;
    if n > 0 {
        let m = n / p;
        lemma_div_decreases(n as int, p as int);
        lemma_digits_props::<P>(m);
        lemma_fundamental_div_mod(n as int, p as int);
        lemma_mod_bound(n as int, p as int);
        let d = digits::<P>(n);
        let rest = digits::<P>(m);
        assert(d.drop_first() =~= rest);
        assert forall|i: int| 0 <= i < d.len() implies (#[trigger] d[i]).wf() by {
            if i > 0 {
                assert(d[i] == rest[i - 1]);
            }
        }
        if rest.len() == 0 {
            if m > 0 {
                assert(digits::<P>(m).len() > 0);
            }
            assert(m == 0);
            assert(p * m == 0) by (nonlinear_arith)
                requires
                    m == 0,
            ;
            assert(n % p == n);
        } else {
            assert(d.last() == rest.last());
        }
        assert forall|k: nat| n < power(p, k) implies digits::<P>(n).len() <= k by {
            if k == 0 {
            } else {
                assert(power(p, k) == p * power(p, (k - 1) as nat));
                assert(m < power(p, (k - 1) as nat)) by {
                    lemma_div_upper(n, p, power(p, (k - 1) as nat));
                }
            }
        }
    }
}

proof fn lemma_div_upper(n: nat, p: nat, b: nat)
    requires
        p > 0,
        n < p * b,
    ensures
        n / p < b,
{
    lemma_fundamental_div_mod(n as int, p as int);
    lemma_mod_bound(n as int, p as int);
    assert(n / p < b) by (nonlinear_arith)
        requires
            n == p * (n / p) + n % p,
            n % p >= 0,
            n < p * b,
            p > 0,
    ;
}

proof fn lemma_number_positive<const P: u32>(s: Seq<IntMod<P>>)
    requires
        P > 1,
        poly_wf(s),
        s.len() > 0,
    ensures
        number::<P>(s) > 0,
    decreases s.len(),
{
    let rest = s.drop_first();
    if rest.len() > 0 {
        assert(rest.last() == s.last());
        assert forall|i: int| 0 <= i < rest.len() implies (#[trigger] rest[i]).wf() by {
            assert(rest[i] == s[i + 1]);
        }
        lemma_number_positive::<P>(rest);
        assert((P as nat) * number::<P>(rest) > 0) by (nonlinear_arith)
            requires
                P > 1,
                number::<P>(rest) > 0,
        ;
    } else {
        assert(s[0] == s.last());
    }
}

proof fn lemma_number_props<const P: u32>(s: Seq<IntMod<P>>)
    requires
        P > 1,
        poly_wf(s),
    ensures
        digits::<P>(number::<P>(s)) == s,
        number::<P>(s) < power(P as nat, s.len()),
    decreases s.len(),
{
    let p = P as nat;
    if s.len() > 0 {
        let rest = s.drop_first();
        assert forall|i: int| 0 <= i < rest.len() implies (#[trigger] rest[i]).wf() by {
            assert(rest[i] == s[i + 1]);
        }
        if rest.len() > 0 {
            assert(rest.last() == s.last());
        }
        lemma_number_props::<P>(rest);
        let n = number::<P>(s);
        let m = number::<P>(rest);
        assert(n == s[0].value + p * m);
        lemma_fundamental_div_mod_converse(n as int, p as int, m as int, s[0].value as int);
        assert(n > 0) by {
            lemma_number_positive::<P>(s);
        }
        assert(digits::<P>(n) =~= seq![s[0]] + rest) by {
            assert(IntMod::<P> { value: (n % p) as u32 } == s[0]);
        }
        assert(seq![s[0]] + rest =~= s);
        assert(n < power(p, s.len())) by (nonlinear_arith)
            requires
                n == s[0].value + p * m,
                s[0].value < p,
                m < power(p, rest.len()),
                power(p, s.len()) == p * power(p, rest.len()),
        ;
    }
}

/// The parameters describe a field: `PRIME` is prime, the prime polynomial
/// has degree `POWER` (so `POWER + 1` coefficients) and the field's size
/// fits in 32 bits.
pub open spec fn field_ok<const PRIME: u32, const POWER: u32, const PRIME_POLY: u32>() -> bool {
    &&& PRIME > 1
    &&& POWER >= 1
    &&& forall|x: nat| 0 < x < PRIME ==> #[trigger] invertible(x, PRIME as nat)
    &&& digits::<PRIME>(PRIME_POLY as nat).len() == POWER + 1
    &&& power(PRIME as nat, POWER as nat) <= 0xFFFF_FFFF
}

/// The prime polynomial, from the digits of `PRIME_POLY`.
pub open spec fn prime_poly_spec<const PRIME: u32, const PRIME_POLY: u32>() -> Seq<IntMod<PRIME>> {
    digits::<PRIME>(PRIME_POLY as nat)
}

/// A polynomial reduced modulo the prime polynomial.
pub open spec fn canonicalise<const PRIME: u32, const PRIME_POLY: u32>(s: Seq<IntMod<PRIME>>) -> Seq<IntMod<PRIME>> {
    poly_divide(trim(s), prime_poly_spec::<PRIME, PRIME_POLY>()).1
}

/// The Galois field GF(PRIME^POWER), the quotient of F_PRIME[x] by the
/// polynomial whose base-PRIME digits are `PRIME_POLY`, with the primitive
/// element whose digits are `ALPHA_POLY`.
pub struct GaloisField<const PRIME: u32, const POWER: u32, const PRIME_POLY: u32, const ALPHA_POLY: u32> {}

/// An element of the field: a polynomial over F_PRIME of degree below
/// POWER, held as the number whose base-PRIME digits are its coefficients.
#[derive(Clone, Copy, Debug)]
pub struct PolyWithinGF<const PRIME: u32, const POWER: u32, const PRIME_POLY: u32, const ALPHA_POLY: u32> {
    pub value: u32,
}

impl<const PRIME: u32, const POWER: u32, const PRIME_POLY: u32, const ALPHA_POLY: u32> PartialEq for PolyWithinGF<PRIME, POWER, PRIME_POLY, ALPHA_POLY> {
    fn eq(&self, other: &Self) -> (r: bool) {
        self.value == other.value
    }
}

impl<const PRIME: u32, const POWER: u32, const PRIME_POLY: u32, const ALPHA_POLY: u32> Eq for PolyWithinGF<PRIME, POWER, PRIME_POLY, ALPHA_POLY> {}

impl<const PRIME: u32, const POWER: u32, const PRIME_POLY: u32, const ALPHA_POLY: u32> vstd::std_specs::cmp::PartialEqSpecImpl for PolyWithinGF<PRIME, POWER, PRIME_POLY, ALPHA_POLY> {
    open spec fn obeys_eq_spec() -> bool {
        true
    }

    open spec fn eq_spec(&self, other: &Self) -> bool {
        self.value == other.value
    }
}

proof fn lemma_power_monotonic(p: nat, a: nat, b: nat)
    requires
        p >= 1,
        a <= b,
    ensures
        power(p, a) <= power(p, b),
        power(p, a) >= 1,
    decreases b,
{
    if b > a {
        lemma_power_monotonic(p, a, (b - 1) as nat);
        assert(power(p, (b - 1) as nat) <= p * power(p, (b - 1) as nat)) by (nonlinear_arith)
            requires
                p >= 1,
                power(p, (b - 1) as nat) >= 1,
        ;
    } else if a > 0 {
        lemma_power_monotonic(p, (a - 1) as nat, (a - 1) as nat);
        assert(p * power(p, (a - 1) as nat) >= 1) by (nonlinear_arith)
            requires
                p >= 1,
                power(p, (a - 1) as nat) >= 1,
        ;
    }
}

/// A canonical polynomial of degree below `k` is a number below `P^k`.
pub proof fn lemma_number_bound<const P: u32>(s: Seq<IntMod<P>>, k: nat)
    requires
        P > 1,
        poly_wf(s),
        s.len() <= k,
    ensures
        number::<P>(s) < power(P as nat, k),
{
    lemma_number_below::<P>(s, k);
}

/// A number below `PRIME^POWER` is its own reduction.
pub proof fn lemma_short_canonical<const PRIME: u32, const POWER: u32, const PRIME_POLY: u32, const ALPHA_POLY: u32>(n: nat)
    requires
        field_ok::<PRIME, POWER, PRIME_POLY>(),
        n < power(PRIME as nat, POWER as nat),
    ensures
        PolyWithinGF::<PRIME, POWER, PRIME_POLY, ALPHA_POLY>::of(canonicalise::<PRIME, PRIME_POLY>(digits::<PRIME>(n))) == (PolyWithinGF::<PRIME, POWER, PRIME_POLY, ALPHA_POLY> { value: n as u32 }),
{
    let d = digits::<PRIME>(n);
    lemma_digits_props::<PRIME>(n);
    lemma_digits_props::<PRIME>(PRIME_POLY as nat);
    crate::polynomial::lemma_trim_canonical(d);
    if !crate::polynomial::all_zero(d) {
        assert(d.len() < prime_poly_spec::<PRIME, PRIME_POLY>().len());
    } else if d.len() > 0 {
        assert(d[d.len() - 1] == d.last());
    }
}

/// A canonical polynomial of degree below `k` is a number below `PRIME^k`.
proof fn lemma_number_below<const P: u32>(s: Seq<IntMod<P>>, k: nat)
    requires
        P > 1,
        poly_wf(s),
        s.len() <= k,
    ensures
        number::<P>(s) < power(P as nat, k),
        digits::<P>(number::<P>(s)) == s,
{
    lemma_number_props::<P>(s);
    lemma_power_monotonic(P as nat, s.len(), k);
}

impl<const P: u32> Polynomial<IntMod<P>> {
    /// The polynomial whose coefficients are the base-`P` digits of `n`.
    pub fn from_number(n: u32) -> (r: Self)
        requires
            P > 1,
        ensures
            r@ == digits::<P>(n as nat),
            poly_wf(r@),
    {
        let mut coefficients: Vec<IntMod<P>> = Vec::new();
        let mut rest: u32 = n;
        proof {
            lemma_digits_props::<P>(n as nat);
        }
        while rest != 0
            invariant
                P > 1,
                coefficients@ + digits::<P>(rest as nat) == digits::<P>(n as nat),
            decreases rest,
        {
            let d = IntMod::<P> { value: rest % P };
            proof {
                assert(digits::<P>(rest as nat) == seq![d] + digits::<P>((rest / P) as nat));
                assert(coefficients@.push(d) + digits::<P>((rest / P) as nat) =~= coefficients@ + (seq![d] + digits::<P>((rest / P) as nat)));
            }
            coefficients.push(d);
            rest = rest / P;
        }
        proof {
            assert(coefficients@ =~= coefficients@ + digits::<P>(0));
        }
        Polynomial { coefficients }
    }

    /// The number whose base-`P` digits are the coefficients.
    pub fn to_number(&self) -> (r: u32)
        requires
            P > 1,
            all_wf(self@),
            number::<P>(self@) <= 0xFFFF_FFFF,
        ensures
            r == number::<P>(self@),
    {
        let ghost s = self@;
        let mut r: u32 = 0;
        let mut i: usize = self.coefficients.len();
        proof {
            lemma_number_suffixes::<P>(s, s.len() as int);
            assert(s.subrange(s.len() as int, s.len() as int) =~= Seq::<IntMod<P>>::empty());
        }
        while i > 0
            invariant
                P > 1,
                s == self@,
                all_wf(s),
                i <= s.len(),
                r == number::<P>(s.subrange(i as int, s.len() as int)),
                number::<P>(s) <= 0xFFFF_FFFF,
                forall|j: int| 0 <= j <= s.len() ==> number::<P>(#[trigger] s.subrange(j, s.len() as int)) <= number::<P>(s),
            decreases i,
        {
            i -= 1;
            let ghost tail = s.subrange(i as int, s.len() as int);
            proof {
                assert(tail.drop_first() =~= s.subrange(i + 1, s.len() as int));
                assert(tail[0] == s[i as int]);
                assert(number::<P>(tail) == s[i as int].value + (P as nat) * (r as nat));
            }
            r = self.coefficients[i].value + P * r;
        }
        proof {
            assert(s.subrange(0, s.len() as int) =~= s);
        }
        r
    }
}

proof fn lemma_number_suffixes<const P: u32>(s: Seq<IntMod<P>>, k: int)
    requires
        P > 1,
        0 <= k <= s.len(),
    ensures
        forall|j: int| 0 <= j <= k ==> number::<P>(#[trigger] s.subrange(j, s.len() as int)) <= number::<P>(s),
    decreases k,
{
    if k > 0 {
        lemma_number_suffixes::<P>(s, k - 1);
        let t = s.subrange(k - 1, s.len() as int);
        assert(t.drop_first() =~= s.subrange(k, s.len() as int));
        assert(number::<P>(t.drop_first()) <= (P as nat) * number::<P>(t.drop_first())) by (nonlinear_arith)
            requires P > 0;
    } else {
        assert(s.subrange(0, s.len() as int) =~= s);
    }
}

/// Extended Euclid over F_P[x], from the pair `(r_now, r_next)` with the
/// cofactors `(t_now, t_next)`: the last non-zero remainder (the gcd) and
/// its cofactor, once the remainder vanishes.
pub open spec fn euclid<const P: u32>(
    r_now: Seq<IntMod<P>>,
    r_next: Seq<IntMod<P>>,
    t_now: Seq<IntMod<P>>,
    t_next: Seq<IntMod<P>>,
) -> (Seq<IntMod<P>>, Seq<IntMod<P>>)
    decreases r_next.len(),
{
    if r_next.len() == 0 {
        (r_now, t_now)
    } else {
        let d = poly_divide(r_now, r_next);
        if d.1.len() < r_next.len() {
            euclid(r_next, d.1, t_next, poly_sub(t_now, poly_mul(d.0, t_next)))
        } else {
            (r_now, t_now)
        }
    }
}

impl<const PRIME: u32, const POWER: u32, const PRIME_POLY: u32, const ALPHA_POLY: u32> PolyWithinGF<PRIME, POWER, PRIME_POLY, ALPHA_POLY> {
    /// The element's polynomial.
    pub open spec fn elem(self) -> Seq<IntMod<PRIME>> {
        digits::<PRIME>(self.value as nat)
    }

    /// The element with the given (canonical, reduced) polynomial.
    pub open spec fn of(s: Seq<IntMod<PRIME>>) -> Self {
        PolyWithinGF { value: number::<PRIME>(s) as u32 }
    }

    /// The inverse by the extended Euclidean algorithm: the cofactor `t`
    /// with `t * self` equal to the gcd modulo the prime polynomial,
    /// divided by the gcd's leading coefficient (for an irreducible prime
    /// polynomial the gcd is that constant), then canonicalised.
    pub open spec fn inv_spec(self) -> Self {
        let e = euclid(prime_poly_spec::<PRIME, PRIME_POLY>(), self.elem(), Seq::empty(), seq![IntMod { value: 1 }]);
        let c = IntMod::<PRIME> { value: inverse_of(e.0.last().value as nat, PRIME as nat) as u32 };
        Self::of(canonicalise::<PRIME, PRIME_POLY>(crate::polynomial::poly_scale(e.1, c)))
    }

    /// The element holding `poly` as it stands, which must already be
    /// reduced.
    pub fn new(poly: Polynomial<IntMod<PRIME>>) -> (r: Self)
        requires
            field_ok::<PRIME, POWER, PRIME_POLY>(),
            poly_wf(poly@),
            poly@.len() <= POWER,
        ensures
            r == Self::of(poly@),
            r.elem() == poly@,
            r.wf(),
    {
        proof {
            lemma_number_below::<PRIME>(poly@, POWER as nat);
        }
        PolyWithinGF { value: poly.to_number() }
    }

    /// The element's polynomial.
    pub fn poly(&self) -> (r: Polynomial<IntMod<PRIME>>)
        requires
            PRIME > 1,
        ensures
            r@ == self.elem(),
            poly_wf(r@),
    {
        Polynomial::from_number(self.value)
    }

    /// Every coefficient times the integer `n`, modulo PRIME.
    pub open spec fn scalar_mul_spec(self, n: nat) -> Self {
        Self::of(canonicalise::<PRIME, PRIME_POLY>(crate::polynomial::poly_scale(self.elem(), IntMod { value: (n % (PRIME as nat)) as u32 })))
    }

    /// Every coefficient times the integer `n`, modulo PRIME.
    pub fn scalar_mul(&self, n: u32) -> (r: Self)
        requires
            self.wf(),
        ensures
            r == self.scalar_mul_spec(n as nat),
            r.wf(),
    {
        let c = IntMod::<PRIME>::from(n);
        let p = self.poly();
        proof {
            lemma_elem_wf(*self);
        }
        let scaled = p.scale(&c);
        GaloisField::<PRIME, POWER, PRIME_POLY, ALPHA_POLY>::make_polynomial(scaled)
    }

    /// The inverse, by the extended Euclidean algorithm on the prime
    /// polynomial and this element.
    pub fn inv(&self) -> (r: Self)
        requires
            self.wf(),
        ensures
            r == self.inv_spec(),
            r.wf(),
    {
        let mut t_now: Polynomial<IntMod<PRIME>> = Polynomial::zero();
        let mut t_next: Polynomial<IntMod<PRIME>> = Polynomial::one();
        let mut r_now = GaloisField::<PRIME, POWER, PRIME_POLY, ALPHA_POLY>::prime_poly();
        let mut r_next = self.poly();
        proof {
            lemma_digits_props::<PRIME>(PRIME_POLY as nat);
            assert(poly_wf(t_next@));
            assert(t_now@ =~= Seq::<IntMod<PRIME>>::empty());
            assert(r_now@.len() == POWER + 1);
        }
        while !r_next.is_zero()
            invariant
                field_ok::<PRIME, POWER, PRIME_POLY>(),
                poly_wf(r_now@),
                r_now@.len() > 0,
                poly_wf(r_next@),
                poly_wf(t_now@),
                poly_wf(t_next@),
                euclid(r_now@, r_next@, t_now@, t_next@) == euclid(
                    prime_poly_spec::<PRIME, PRIME_POLY>(),
                    self.elem(),
                    Seq::empty(),
                    seq![IntMod { value: 1 }],
                ),
            decreases r_next@.len(),
        {
            proof {
                assert(r_next@.len() > 0);
                assert(r_next@.last().value > 0 && r_next@.last().value < PRIME);
                assert(invertible(r_next@.last().value as nat, PRIME as nat));
            }
            let (q, rem) = r_now.full_divide(&r_next);
            let prod = q.mul(&t_next);
            let t_new = t_now.sub(&prod);
            proof {
                lemma_add_sub_wf(t_now@, prod@);
            }
            r_now = r_next;
            r_next = rem;
            t_now = t_next;
            t_next = t_new;
        }
        proof {
            assert(r_next@.len() == 0) by {
                if r_next@.len() > 0 {
                    assert(r_next@[r_next@.len() - 1] == r_next@.last());
                }
            }
        }
        let lead = r_now.coefficients[r_now.coefficients.len() - 1];
        proof {
            assert(r_now@[r_now@.len() - 1] == r_now@.last());
            assert(lead.value > 0 && lead.value < PRIME);
            assert(invertible(lead.value as nat, PRIME as nat));
            assert(lead.wf());
        }
        let c = lead.inverse().unwrap();
        proof {
            crate::int_mod::lemma_inverse_unique(
                lead.value as nat,
                c.value as nat,
                inverse_of(lead.value as nat, PRIME as nat),
                PRIME as nat,
            );
        }
        let scaled = t_now.scale(&c);
        GaloisField::<PRIME, POWER, PRIME_POLY, ALPHA_POLY>::make_polynomial(scaled)
    }
}

/// Zero and one are elements.
pub proof fn lemma_one_wf<const PRIME: u32, const POWER: u32, const PRIME_POLY: u32, const ALPHA_POLY: u32>()
    requires
        field_ok::<PRIME, POWER, PRIME_POLY>(),
    ensures
        PolyWithinGF::<PRIME, POWER, PRIME_POLY, ALPHA_POLY>::one_spec().wf(),
        PolyWithinGF::<PRIME, POWER, PRIME_POLY, ALPHA_POLY>::zero_spec().wf(),
        PolyWithinGF::<PRIME, POWER, PRIME_POLY, ALPHA_POLY>::one_spec() != PolyWithinGF::<PRIME, POWER, PRIME_POLY, ALPHA_POLY>::zero_spec(),
{
    lemma_power_monotonic(PRIME as nat, 1, POWER as nat);
    assert(power(PRIME as nat, 1) == (PRIME as nat) * power(PRIME as nat, 0));
    assert((PRIME as nat) * 1 == PRIME as nat) by (nonlinear_arith);
}

/// Reducing a polynomial gives an element that holds the reduced polynomial.
pub proof fn lemma_elem_of_canonical<const PRIME: u32, const POWER: u32, const PRIME_POLY: u32, const ALPHA_POLY: u32>(s: Seq<IntMod<PRIME>>)
    requires
        field_ok::<PRIME, POWER, PRIME_POLY>(),
        all_wf(s),
    ensures
        PolyWithinGF::<PRIME, POWER, PRIME_POLY, ALPHA_POLY>::of(canonicalise::<PRIME, PRIME_POLY>(s)).elem() == canonicalise::<PRIME, PRIME_POLY>(s),
        PolyWithinGF::<PRIME, POWER, PRIME_POLY, ALPHA_POLY>::of(canonicalise::<PRIME, PRIME_POLY>(s)).wf(),
{
    lemma_canonicalise_wf::<PRIME, POWER, PRIME_POLY>(s);
    lemma_of_wf::<PRIME, POWER, PRIME_POLY, ALPHA_POLY>(canonicalise::<PRIME, PRIME_POLY>(s));
}

/// Every power of alpha is an element.
pub proof fn lemma_alpha_power_wf<const PRIME: u32, const POWER: u32, const PRIME_POLY: u32, const ALPHA_POLY: u32>(k: nat)
    requires
        field_ok::<PRIME, POWER, PRIME_POLY>(),
    ensures
        alpha_power::<PRIME, POWER, PRIME_POLY, ALPHA_POLY>(k).wf(),
        alpha_spec::<PRIME, POWER, PRIME_POLY, ALPHA_POLY>().wf(),
    decreases k,
{
    lemma_one_wf::<PRIME, POWER, PRIME_POLY, ALPHA_POLY>();
    lemma_digits_props::<PRIME>(ALPHA_POLY as nat);
    lemma_elem_of_canonical::<PRIME, POWER, PRIME_POLY, ALPHA_POLY>(digits::<PRIME>(ALPHA_POLY as nat));
    if k > 0 {
        lemma_alpha_power_wf::<PRIME, POWER, PRIME_POLY, ALPHA_POLY>((k - 1) as nat);
        PolyWithinGF::<PRIME, POWER, PRIME_POLY, ALPHA_POLY>::lemma_closed(
            alpha_power::<PRIME, POWER, PRIME_POLY, ALPHA_POLY>((k - 1) as nat),
            alpha_spec(),
        );
    }
}

/// The elements' polynomials are canonical and of degree below POWER.
pub proof fn lemma_elem_wf<const PRIME: u32, const POWER: u32, const PRIME_POLY: u32, const ALPHA_POLY: u32>(
    a: PolyWithinGF<PRIME, POWER, PRIME_POLY, ALPHA_POLY>,
)
    requires
        a.wf(),
    ensures
        poly_wf(a.elem()),
        a.elem().len() <= POWER,
        PolyWithinGF::<PRIME, POWER, PRIME_POLY, ALPHA_POLY>::of(a.elem()) == a,
{
    lemma_digits_props::<PRIME>(a.value as nat);
}

/// A canonical polynomial of degree below POWER makes a well-formed element
/// that gives it back.
proof fn lemma_of_wf<const PRIME: u32, const POWER: u32, const PRIME_POLY: u32, const ALPHA_POLY: u32>(
    s: Seq<IntMod<PRIME>>,
)
    requires
        field_ok::<PRIME, POWER, PRIME_POLY>(),
        poly_wf(s),
        s.len() <= POWER,
    ensures
        PolyWithinGF::<PRIME, POWER, PRIME_POLY, ALPHA_POLY>::of(s).wf(),
        PolyWithinGF::<PRIME, POWER, PRIME_POLY, ALPHA_POLY>::of(s).elem() == s,
{
    lemma_number_below::<PRIME>(s, POWER as nat);
}

/// Reducing modulo the prime polynomial leaves a canonical polynomial of
/// degree below POWER.
proof fn lemma_canonicalise_wf<const PRIME: u32, const POWER: u32, const PRIME_POLY: u32>(s: Seq<IntMod<PRIME>>)
    requires
        field_ok::<PRIME, POWER, PRIME_POLY>(),
        all_wf(s),
    ensures
        poly_wf(canonicalise::<PRIME, PRIME_POLY>(s)),
        canonicalise::<PRIME, PRIME_POLY>(s).len() <= POWER,
{
    let pi = prime_poly_spec::<PRIME, PRIME_POLY>();
    lemma_digits_props::<PRIME>(PRIME_POLY as nat);
    crate::polynomial::lemma_trim_wf(s);
    assert(pi[pi.len() - 1] == pi.last());
    assert(invertible(pi.last().value as nat, PRIME as nat));
    lemma_divide_wf(trim(s), pi);
}

impl<const PRIME: u32, const POWER: u32, const PRIME_POLY: u32, const ALPHA_POLY: u32> Ring for PolyWithinGF<PRIME, POWER, PRIME_POLY, ALPHA_POLY> {
    open spec fn wf(self) -> bool {
        field_ok::<PRIME, POWER, PRIME_POLY>() && self.value < power(PRIME as nat, POWER as nat)
    }

    open spec fn zero_spec() -> Self {
        PolyWithinGF { value: 0 }
    }

    open spec fn one_spec() -> Self {
        PolyWithinGF { value: 1 }
    }

    open spec fn add_spec(self, other: Self) -> Self {
        Self::of(poly_add(self.elem(), other.elem()))
    }

    open spec fn sub_spec(self, other: Self) -> Self {
        Self::of(poly_sub(self.elem(), other.elem()))
    }

    open spec fn mul_spec(self, other: Self) -> Self {
        Self::of(canonicalise::<PRIME, PRIME_POLY>(poly_mul(self.elem(), other.elem())))
    }

    proof fn lemma_closed(a: Self, b: Self) {
        lemma_elem_wf(a);
        lemma_elem_wf(b);
        lemma_power_monotonic(PRIME as nat, 1, POWER as nat);
        assert(power(PRIME as nat, 1) == PRIME) by {
            assert(power(PRIME as nat, 1) == (PRIME as nat) * power(PRIME as nat, 0));
            assert(power(PRIME as nat, 0) == 1);
            assert((PRIME as nat) * 1 == PRIME as nat) by (nonlinear_arith);
        }
        lemma_add_sub_wf(a.elem(), b.elem());
        lemma_of_wf::<PRIME, POWER, PRIME_POLY, ALPHA_POLY>(poly_add(a.elem(), b.elem()));
        lemma_of_wf::<PRIME, POWER, PRIME_POLY, ALPHA_POLY>(poly_sub(a.elem(), b.elem()));
        lemma_mul_wf(a.elem(), b.elem());
        lemma_canonicalise_wf::<PRIME, POWER, PRIME_POLY>(poly_mul(a.elem(), b.elem()));
        lemma_of_wf::<PRIME, POWER, PRIME_POLY, ALPHA_POLY>(canonicalise::<PRIME, PRIME_POLY>(poly_mul(a.elem(), b.elem())));
    }

    proof fn lemma_add_laws(a: Self, b: Self, c: Self) {
        lemma_elem_wf(a);
        lemma_elem_wf(b);
        lemma_elem_wf(c);
        lemma_add_commutative(a.elem(), b.elem());
        let ab = poly_add(a.elem(), b.elem());
        let bc = poly_add(b.elem(), c.elem());
        lemma_add_sub_wf(a.elem(), b.elem());
        lemma_add_sub_wf(b.elem(), c.elem());
        lemma_of_wf::<PRIME, POWER, PRIME_POLY, ALPHA_POLY>(ab);
        lemma_of_wf::<PRIME, POWER, PRIME_POLY, ALPHA_POLY>(bc);
        lemma_add_associative(a.elem(), b.elem(), c.elem());
        lemma_add_zero_identity(a.elem());
        crate::polynomial::lemma_sub_zero(a.elem());
        assert(Self::zero_spec().elem() =~= Seq::<IntMod<PRIME>>::empty());
    }

    fn zero() -> (r: Self) {
        PolyWithinGF { value: 0 }
    }

    fn one() -> (r: Self) {
        PolyWithinGF { value: 1 }
    }

    fn is_zero(&self) -> (r: bool) {
        self.value == 0
    }

    fn add(&self, other: &Self) -> (r: Self) {
        proof {
            Self::lemma_closed(*self, *other);
            lemma_elem_wf(*self);
            lemma_elem_wf(*other);
            lemma_add_sub_wf(self.elem(), other.elem());
            lemma_number_below::<PRIME>(poly_add(self.elem(), other.elem()), POWER as nat);
        }
        let s = self.poly().add(&other.poly());
        PolyWithinGF { value: s.to_number() }
    }

    fn sub(&self, other: &Self) -> (r: Self) {
        proof {
            Self::lemma_closed(*self, *other);
            lemma_elem_wf(*self);
            lemma_elem_wf(*other);
            lemma_add_sub_wf(self.elem(), other.elem());
            lemma_number_below::<PRIME>(poly_sub(self.elem(), other.elem()), POWER as nat);
        }
        let s = self.poly().sub(&other.poly());
        PolyWithinGF { value: s.to_number() }
    }

    fn mul(&self, other: &Self) -> (r: Self) {
        let prod = self.poly().mul(&other.poly());
        GaloisField::<PRIME, POWER, PRIME_POLY, ALPHA_POLY>::make_polynomial(prod)
    }

    fn same(&self, other: &Self) -> (r: bool) {
        self.value == other.value
    }

    fn duplicate(&self) -> (r: Self) {
        *self
    }
}

impl<const PRIME: u32, const POWER: u32, const PRIME_POLY: u32, const ALPHA_POLY: u32> Field for PolyWithinGF<PRIME, POWER, PRIME_POLY, ALPHA_POLY> {
    open spec fn is_unit(self) -> bool {
        self.value != 0
    }

    open spec fn div_spec(self, other: Self) -> Self {
        self.mul_spec(other.inv_spec())
    }

    proof fn lemma_div_closed(a: Self, b: Self) {
        let x = b.inv_spec();
        lemma_elem_wf(a);
        lemma_digits_props::<PRIME>(x.value as nat);
        lemma_mul_wf(a.elem(), x.elem());
        lemma_canonicalise_wf::<PRIME, POWER, PRIME_POLY>(poly_mul(a.elem(), x.elem()));
        lemma_of_wf::<PRIME, POWER, PRIME_POLY, ALPHA_POLY>(canonicalise::<PRIME, PRIME_POLY>(poly_mul(a.elem(), x.elem())));
    }

    fn div(&self, other: &Self) -> (r: Self) {
        let i = other.inv();
        self.mul(&i)
    }
}

impl<const PRIME: u32, const POWER: u32, const PRIME_POLY: u32, const ALPHA_POLY: u32> GaloisField<PRIME, POWER, PRIME_POLY, ALPHA_POLY> {
    /// The number of elements, PRIME^POWER.
    pub fn order() -> (r: usize)
        requires
            field_ok::<PRIME, POWER, PRIME_POLY>(),
        ensures
            r == power(PRIME as nat, POWER as nat),
    {
        let mut r: u32 = 1;
        let mut i: u32 = 0;
        while i < POWER
            invariant
                field_ok::<PRIME, POWER, PRIME_POLY>(),
                i <= POWER,
                r == power(PRIME as nat, i as nat),
            decreases POWER - i,
        {
            proof {
                lemma_power_monotonic(PRIME as nat, (i + 1) as nat, POWER as nat);
                assert(power(PRIME as nat, (i + 1) as nat) == (PRIME as nat) * power(PRIME as nat, i as nat));
                assert((r as nat) * (PRIME as nat) == (PRIME as nat) * (r as nat)) by (nonlinear_arith);
            }
            r = r * PRIME;
            i += 1;
        }
        r as usize
    }

    /// The prime polynomial.
    pub fn prime_poly() -> (r: Polynomial<IntMod<PRIME>>)
        requires
            PRIME > 1,
        ensures
            r@ == prime_poly_spec::<PRIME, PRIME_POLY>(),
            poly_wf(r@),
    {
        Polynomial::from_number(PRIME_POLY)
    }

    /// The element that `poly` stands for: its remainder by the prime
    /// polynomial.
    pub fn make_polynomial(poly: Polynomial<IntMod<PRIME>>) -> (r: PolyWithinGF<PRIME, POWER, PRIME_POLY, ALPHA_POLY>)
        requires
            field_ok::<PRIME, POWER, PRIME_POLY>(),
            all_wf(poly@),
        ensures
            r == PolyWithinGF::<PRIME, POWER, PRIME_POLY, ALPHA_POLY>::of(canonicalise::<PRIME, PRIME_POLY>(poly@)),
            r.elem() == canonicalise::<PRIME, PRIME_POLY>(poly@),
            r.wf(),
    {
        let mut p = poly;
        p.reduce();
        let pi = Self::prime_poly();
        proof {
            lemma_canonicalise_wf::<PRIME, POWER, PRIME_POLY>(poly@);
            assert(pi@[pi@.len() - 1] == pi@.last());
            assert(invertible(pi@.last().value as nat, PRIME as nat));
            lemma_of_wf::<PRIME, POWER, PRIME_POLY, ALPHA_POLY>(canonicalise::<PRIME, PRIME_POLY>(poly@));
            lemma_number_below::<PRIME>(canonicalise::<PRIME, PRIME_POLY>(poly@), POWER as nat);
        }
        let (_q, rem) = p.full_divide(&pi);
        PolyWithinGF { value: rem.to_number() }
    }

    /// The primitive element.
    pub fn alpha_poly() -> (r: PolyWithinGF<PRIME, POWER, PRIME_POLY, ALPHA_POLY>)
        requires
            field_ok::<PRIME, POWER, PRIME_POLY>(),
        ensures
            r == PolyWithinGF::<PRIME, POWER, PRIME_POLY, ALPHA_POLY>::of(
                canonicalise::<PRIME, PRIME_POLY>(digits::<PRIME>(ALPHA_POLY as nat)),
            ),
            r.wf(),
    {
        proof {
            lemma_digits_props::<PRIME>(ALPHA_POLY as nat);
        }
        Self::make_polynomial(Polynomial::from_number(ALPHA_POLY))
    }
}

/// The primitive element, reduced.
pub open spec fn alpha_spec<const PRIME: u32, const POWER: u32, const PRIME_POLY: u32, const ALPHA_POLY: u32>() -> PolyWithinGF<PRIME, POWER, PRIME_POLY, ALPHA_POLY> {
    PolyWithinGF::of(canonicalise::<PRIME, PRIME_POLY>(digits::<PRIME>(ALPHA_POLY as nat)))
}

/// `alpha^k`.
pub open spec fn alpha_power<const PRIME: u32, const POWER: u32, const PRIME_POLY: u32, const ALPHA_POLY: u32>(k: nat) -> PolyWithinGF<PRIME, POWER, PRIME_POLY, ALPHA_POLY>
    decreases k,
{
    if k == 0 {
        PolyWithinGF { value: 1 }
    } else {
        alpha_power::<PRIME, POWER, PRIME_POLY, ALPHA_POLY>((k - 1) as nat).mul_spec(alpha_spec())
    }
}

/// `elements` lists the powers 1, alpha, alpha^2, ... up to the first that
/// returns to 1, and at most `PRIME^POWER - 1` of them.
pub open spec fn lists_powers<const PRIME: u32, const POWER: u32, const PRIME_POLY: u32, const ALPHA_POLY: u32>(elements: Seq<PolyWithinGF<PRIME, POWER, PRIME_POLY, ALPHA_POLY>>) -> bool {
    let order = power(PRIME as nat, POWER as nat);
    &&& 1 <= elements.len() <= order - 1
    &&& forall|i: int| 0 <= i < elements.len() ==> elements[i] == alpha_power::<PRIME, POWER, PRIME_POLY, ALPHA_POLY>(i as nat)
    &&& forall|i: int| 0 < i < elements.len() ==> #[trigger] alpha_power::<PRIME, POWER, PRIME_POLY, ALPHA_POLY>(i as nat) != PolyWithinGF::<PRIME, POWER, PRIME_POLY, ALPHA_POLY>::one_spec()
    &&& (elements.len() == order - 1 || alpha_power::<PRIME, POWER, PRIME_POLY, ALPHA_POLY>(elements.len()) == PolyWithinGF::<PRIME, POWER, PRIME_POLY, ALPHA_POLY>::one_spec())
}

/// The list of powers is determined by the field.
pub proof fn lemma_powers_unique<const PRIME: u32, const POWER: u32, const PRIME_POLY: u32, const ALPHA_POLY: u32>(
    a: Seq<PolyWithinGF<PRIME, POWER, PRIME_POLY, ALPHA_POLY>>,
    b: Seq<PolyWithinGF<PRIME, POWER, PRIME_POLY, ALPHA_POLY>>,
)
    requires
        lists_powers(a),
        lists_powers(b),
    ensures
        a == b,
{
    if a.len() < b.len() {
        let i: int = a.len() as int;
        assert(alpha_power::<PRIME, POWER, PRIME_POLY, ALPHA_POLY>(i as nat) != PolyWithinGF::<PRIME, POWER, PRIME_POLY, ALPHA_POLY>::one_spec());
    } else if b.len() < a.len() {
        let i: int = b.len() as int;
        assert(alpha_power::<PRIME, POWER, PRIME_POLY, ALPHA_POLY>(i as nat) != PolyWithinGF::<PRIME, POWER, PRIME_POLY, ALPHA_POLY>::one_spec());
    }
    assert(a.len() == b.len());
    assert forall|i: int| 0 <= i < a.len() implies a[i] == b[i] by {
        assert(a[i] == alpha_power::<PRIME, POWER, PRIME_POLY, ALPHA_POLY>(i as nat));
        assert(b[i] == alpha_power::<PRIME, POWER, PRIME_POLY, ALPHA_POLY>(i as nat));
    }
    assert(a =~= b);
}

/// alpha has multiplicative order `PRIME^POWER - 1`.
pub open spec fn is_primitive<const PRIME: u32, const POWER: u32, const PRIME_POLY: u32, const ALPHA_POLY: u32>() -> bool {
    let n = (power(PRIME as nat, POWER as nat) - 1) as nat;
    &&& forall|i: nat| 0 < i < n ==> #[trigger] alpha_power::<PRIME, POWER, PRIME_POLY, ALPHA_POLY>(i) != PolyWithinGF::<PRIME, POWER, PRIME_POLY, ALPHA_POLY>::one_spec()
    &&& alpha_power::<PRIME, POWER, PRIME_POLY, ALPHA_POLY>(n) == PolyWithinGF::<PRIME, POWER, PRIME_POLY, ALPHA_POLY>::one_spec()
}

/// For a primitive alpha, the enumeration of the non-zero elements has
/// `PRIME^POWER - 1` entries, starts at 1, and its last entry times alpha is 1.
pub proof fn lemma_enumeration_of_primitive<const PRIME: u32, const POWER: u32, const PRIME_POLY: u32, const ALPHA_POLY: u32>(
    elements: Seq<PolyWithinGF<PRIME, POWER, PRIME_POLY, ALPHA_POLY>>,
)
    requires
        lists_powers(elements),
        is_primitive::<PRIME, POWER, PRIME_POLY, ALPHA_POLY>(),
    ensures
        elements.len() == power(PRIME as nat, POWER as nat) - 1,
        elements[0] == PolyWithinGF::<PRIME, POWER, PRIME_POLY, ALPHA_POLY>::one_spec(),
        elements.last().mul_spec(alpha_spec()) == PolyWithinGF::<PRIME, POWER, PRIME_POLY, ALPHA_POLY>::one_spec(),
{
    let n = (power(PRIME as nat, POWER as nat) - 1) as nat;
    if elements.len() != n {
        assert(alpha_power::<PRIME, POWER, PRIME_POLY, ALPHA_POLY>(elements.len()) == PolyWithinGF::<PRIME, POWER, PRIME_POLY, ALPHA_POLY>::one_spec());
        assert(0 < elements.len() < n);
    }
    assert(elements[0] == alpha_power::<PRIME, POWER, PRIME_POLY, ALPHA_POLY>(0));
    assert(elements.last() == alpha_power::<PRIME, POWER, PRIME_POLY, ALPHA_POLY>((n - 1) as nat));
}

/// Walks the powers of alpha from 1, and stops after the power before the
/// one that returns to 1.
pub struct GaloisEnumerator<const PRIME: u32, const POWER: u32, const PRIME_POLY: u32, const ALPHA_POLY: u32> {
    pub current: PolyWithinGF<PRIME, POWER, PRIME_POLY, ALPHA_POLY>,
    pub finished: bool,
}

impl<const PRIME: u32, const POWER: u32, const PRIME_POLY: u32, const ALPHA_POLY: u32> GaloisEnumerator<PRIME, POWER, PRIME_POLY, ALPHA_POLY> {
    /// An enumeration that starts at 1.
    pub fn new() -> (r: Self)
        ensures
            r.current == PolyWithinGF::<PRIME, POWER, PRIME_POLY, ALPHA_POLY>::one_spec(),
            !r.finished,
    {
        GaloisEnumerator { current: PolyWithinGF { value: 1 }, finished: false }
    }

    /// The next power, or `None` once the walk is back at 1.
    pub fn next(&mut self) -> (r: Option<PolyWithinGF<PRIME, POWER, PRIME_POLY, ALPHA_POLY>>)
        requires
            old(self).current.wf(),
        ensures
            old(self).finished ==> r is None && *final(self) == *old(self),
            !old(self).finished ==> r == Some(old(self).current) && final(self).current == old(self).current.mul_spec(alpha_spec())
                && final(self).finished == (final(self).current == PolyWithinGF::<PRIME, POWER, PRIME_POLY, ALPHA_POLY>::one_spec()),
            final(self).current.wf(),
    {
        if self.finished {
            return None;
        }
        let ret = self.current;
        let alpha = GaloisField::<PRIME, POWER, PRIME_POLY, ALPHA_POLY>::alpha_poly();
        proof {
            PolyWithinGF::<PRIME, POWER, PRIME_POLY, ALPHA_POLY>::lemma_closed(self.current, alpha);
        }
        self.current = self.current.mul(&alpha);
        self.finished = self.current.value == 1;
        Some(ret)
    }
}

impl<const PRIME: u32, const POWER: u32, const PRIME_POLY: u32, const ALPHA_POLY: u32> GaloisField<PRIME, POWER, PRIME_POLY, ALPHA_POLY> {
    /// A fresh walk over the non-zero elements, as powers of alpha.
    pub fn all_elements() -> (r: GaloisEnumerator<PRIME, POWER, PRIME_POLY, ALPHA_POLY>)
        ensures
            r.current == PolyWithinGF::<PRIME, POWER, PRIME_POLY, ALPHA_POLY>::one_spec(),
            !r.finished,
    {
        GaloisEnumerator::new()
    }

    /// The powers 1, alpha, alpha^2, ... of the walk, in order, at most
    /// PRIME^POWER - 1 of them.
    pub fn enumerate_nonzero() -> (r: Vec<PolyWithinGF<PRIME, POWER, PRIME_POLY, ALPHA_POLY>>)
        requires
            field_ok::<PRIME, POWER, PRIME_POLY>(),
        ensures
            lists_powers(r@),
            forall|i: int| 0 <= i < r@.len() ==> (#[trigger] r@[i]).wf(),
    {
        proof {
            lemma_power_monotonic(PRIME as nat, 1, POWER as nat);
            assert(power(PRIME as nat, 1) == (PRIME as nat) * power(PRIME as nat, 0));
            assert((PRIME as nat) * 1 == PRIME as nat) by (nonlinear_arith);
        }
        let n = Self::order() - 1;
        let mut walk = Self::all_elements();
        let mut out: Vec<PolyWithinGF<PRIME, POWER, PRIME_POLY, ALPHA_POLY>> = Vec::new();
        while out.len() < n
            invariant
                field_ok::<PRIME, POWER, PRIME_POLY>(),
                n == power(PRIME as nat, POWER as nat) - 1,
                n >= 1,
                out@.len() <= n,
                walk.current.wf(),
                walk.current == alpha_power::<PRIME, POWER, PRIME_POLY, ALPHA_POLY>(out@.len()),
                walk.finished <==> (out@.len() > 0 && walk.current == PolyWithinGF::<PRIME, POWER, PRIME_POLY, ALPHA_POLY>::one_spec()),
                forall|i: int| 0 <= i < out@.len() ==> out@[i] == alpha_power::<PRIME, POWER, PRIME_POLY, ALPHA_POLY>(i as nat),
                forall|i: int| 0 < i < out@.len() ==> #[trigger] alpha_power::<PRIME, POWER, PRIME_POLY, ALPHA_POLY>(i as nat) != PolyWithinGF::<PRIME, POWER, PRIME_POLY, ALPHA_POLY>::one_spec(),
                forall|i: int| 0 <= i < out@.len() ==> (#[trigger] out@[i]).wf(),
            ensures
                1 <= out@.len() <= n,
                out@.len() == n || alpha_power::<PRIME, POWER, PRIME_POLY, ALPHA_POLY>(out@.len()) == PolyWithinGF::<PRIME, POWER, PRIME_POLY, ALPHA_POLY>::one_spec(),
            decreases n - out@.len(),
        {
            let ghost before = walk.current;
            let ghost was_finished = walk.finished;
            match walk.next() {
                Some(x) => {
                    out.push(x);
                    proof {
                        assert(alpha_power::<PRIME, POWER, PRIME_POLY, ALPHA_POLY>(out@.len()) == before.mul_spec(alpha_spec()));
                    }
                },
                None => {
                    proof {
                        assert(was_finished);
                        assert(out@.len() > 0);
                    }
                    break;
                },
            }
        }
        out
    }
}

} // verus!
