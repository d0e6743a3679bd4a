use vstd::prelude::*;
use vstd::arithmetic::div_mod::*;
use vstd::arithmetic::mul::*;
use crate::ring::{Field, Ring};

verus! {

/// An integer modulo `MODULUS`, held as its representative in `[0, MODULUS)`.
#[derive(Clone, Copy, Debug)]
pub struct IntMod<const MODULUS: u32> {
    pub value: u32,
}

/// Greatest common divisor, by Euclid's recursion.
pub open spec fn gcd(a: nat, b: nat) -> nat
    decreases b,
{
    if b == 0 {
        a
    } else {
        gcd(b, a % b)
    }
}

/// `b` is an inverse of `a` modulo `m`.
pub open spec fn is_inverse(a: nat, b: nat, m: nat) -> bool {
    (a * b) % m == 1nat % m
}

/// `a` has an inverse modulo `m`.
pub open spec fn invertible(a: nat, m: nat) -> bool {
    exists|b: nat| b < m && #[trigger] is_inverse(a, b, m)
}

/// An inverse of `a` modulo `m`, where there is one.
pub open spec fn inverse_of(a: nat, m: nat) -> nat {
    choose|b: nat| b < m && #[trigger] is_inverse(a, b, m)
}

proof fn lemma_mod_of_sum(x: int, y: int, d: int)
    requires
        d > 0,
        x % d == 0,
        y % d == 0,
    ensures
        (x + y) % d == 0,
        (x - y) % d == 0,
{
    lemma_fundamental_div_mod(x, d);
    lemma_fundamental_div_mod(y, d);
    assert(x + y == d * (x / d + y / d)) by (nonlinear_arith)
        requires
            x == d * (x / d) + x % d,
            y == d * (y / d) + y % d,
            x % d == 0,
            y % d == 0,
    ;
    assert(x - y == d * (x / d - y / d)) by (nonlinear_arith)
        requires
            x == d * (x / d) + x % d,
            y == d * (y / d) + y % d,
            x % d == 0,
            y % d == 0,
    ;
    lemma_mod_multiples_basic(x / d + y / d, d);
    lemma_mod_multiples_basic(x / d - y / d, d);
}

proof fn lemma_mod_of_multiple(x: int, k: int, d: int)
    requires
        d > 0,
        x % d == 0,
    ensures
        (k * x) % d == 0,
{
    lemma_fundamental_div_mod(x, d);
    assert(k * x == d * (k * (x / d))) by (nonlinear_arith)
        requires
            x == d * (x / d) + x % d,
            x % d == 0,
    ;
    lemma_mod_multiples_basic(k * (x / d), d);
}

/// The gcd of two numbers divides both.
proof fn lemma_gcd_divides(a: nat, b: nat)
    requires
        a > 0 || b > 0,
    ensures
        gcd(a, b) > 0,
        a % gcd(a, b) == 0,
        b % gcd(a, b) == 0,
    decreases b,
{
    if b == 0 {
        lemma_mod_self_0(a as int);
        lemma_small_mod(0, a);
    } else {
        let g = gcd(b, a % b);
        lemma_gcd_divides(b, a % b);
        lemma_fundamental_div_mod(a as int, b as int);
        lemma_mod_of_multiple(b as int, a as int / b as int, g as int);
        lemma_mod_of_sum((a as int / b as int) * b, (a % b) as int, g as int);
        assert((a as int / b as int) * b + (a % b) as int == a) by (nonlinear_arith)
            requires a == b * (a as int / b as int) + (a as int) % (b as int);
    }
}

/// A number with an inverse shares no factor with the modulus.
proof fn lemma_invertible_gcd(a: nat, m: nat)
    requires
        m > 0,
        invertible(a, m),
    ensures
        gcd(m, a) == 1,
{
    let b = choose|b: nat| b < m && #[trigger] is_inverse(a, b, m);
    let g = gcd(m, a);
    lemma_gcd_divides(m, a);
    lemma_fundamental_div_mod((a * b) as int, m as int);
    lemma_mod_of_multiple(a as int, b as int, g as int);
    lemma_mod_of_multiple(m as int, (a * b) as int / m as int, g as int);
    assert(b * a == a * b) by (nonlinear_arith);
    lemma_mod_of_sum((a * b) as int, (m as int) * ((a * b) as int / m as int), g as int);
    // a * b - m * q == 1 % m, which g divides
    lemma_mod_is_zero(m, g);
    if m == 1 {
        assert(g <= 1);
    } else {
        lemma_small_mod(1, m);
        assert((1int) % (g as int) == 0);
        if g > 1 {
            lemma_small_mod(1, g);
        }
    }
}

impl<const MODULUS: u32> IntMod<MODULUS> {
    /// The value is a representative of its class.
    pub open spec fn wf(self) -> bool {
        MODULUS > 0 && self.value < MODULUS
    }

    /// The class of `value`.
    pub fn from(value: u32) -> (r: Self)
        requires
            MODULUS > 0,
        ensures
            r.value == value % MODULUS,
            r.wf(),
    {
        IntMod { value: value % MODULUS }
    }

    /// Whether this is the class of zero.
    pub fn is_zero(&self) -> (r: bool)
        ensures
            r == (self.value == 0),
    {
        self.value == 0
    }

    /// Whether this is the class of one.
    pub fn is_one(&self) -> (r: bool)
        ensures
            r == (self.value == 1),
    {
        self.value == 1
    }

    /// Becomes the class of zero.
    pub fn set_zero(&mut self)
        ensures
            final(self).value == 0,
    {
        self.value = 0;
    }

    /// Becomes the class of one.
    pub fn set_one(&mut self)
        requires
            MODULUS > 1,
        ensures
            final(self).value == 1,
    {
        self.value = 1;
    }

    /// The remainder of a division, which in a field is always zero.
    pub fn rem(self, other: Self) -> (r: Self)
        ensures
            r.value == 0,
    {
        IntMod { value: 0 }
    }

    /// The representative, as a plain integer.
    pub fn to_u32(self) -> (r: u32)
        ensures
            r == self.value,
    {
        self.value
    }

    pub open spec fn add_mod(self, other: Self) -> Self {
        IntMod { value: ((self.value + other.value) % (MODULUS as int)) as u32 }
    }

    pub open spec fn sub_mod(self, other: Self) -> Self {
        IntMod { value: ((MODULUS + self.value - other.value) % (MODULUS as int)) as u32 }
    }

    pub open spec fn mul_mod(self, other: Self) -> Self {
        IntMod { value: ((self.value * other.value) % (MODULUS as int)) as u32 }
    }

    /// The inverse, by the extended Euclidean algorithm; `None` where the
    /// value shares a factor with the modulus.
    pub fn inverse(self) -> (r: Option<Self>)
        requires
            self.wf(),
        ensures
            r is Some <==> invertible(self.value as nat, MODULUS as nat),
            r is Some <==> gcd(MODULUS as nat, self.value as nat) == 1,
            r is Some ==> r->0.wf() && is_inverse(self.value as nat, r->0.value as nat, MODULUS as nat),
    {
        let m: u64 = MODULUS as u64;
        let v: u64 = self.value as u64;
        let mut r_prev: u64 = m;
        let mut r_now: u64 = v;
        let mut t_prev: u64 = 0;
        let mut t_now: u64 = 1 % m;
        proof {
            lemma_small_mod(0, m as nat);
            lemma_small_mod(v as nat, m as nat);
            lemma_mod_self_0(m as int);
            assert((t_now * v) % (m as int) == (v as int) % (m as int)) by {
                if m == 1 {
                    lemma_small_mod(0, 1);
                    assert(t_now * v == 0);
                } else {
                    lemma_small_mod(1, m as nat);
                    assert(t_now == 1);
                    assert(t_now * v == v);
                }
            }
        }
        while r_now != 0
            invariant
                m == MODULUS as u64,
                m > 0,
                v < m,
                r_prev <= m,
                t_prev < m,
                t_now < m,
                (t_prev * v) % (m as int) == (r_prev as int) % (m as int),
                (t_now * v) % (m as int) == (r_now as int) % (m as int),
                gcd(r_prev as nat, r_now as nat) == gcd(m as nat, v as nat),
                r_now <= m,
            decreases r_now,
        {
            let q: u64 = r_prev / r_now;
            let r_next: u64 = r_prev % r_now;
            proof {
                lemma_fundamental_div_mod(r_prev as int, r_now as int);
                lemma_mod_bound(r_prev as int, r_now as int);
                assert(q <= m) by (nonlinear_arith)
                    requires
                        r_prev == r_now * q + r_prev % r_now,
                        r_prev % r_now >= 0,
                        r_now >= 1,
                        q >= 0,
                        r_prev <= m,
                ;
                assert((q as int) * (t_now as int) <= 0xFFFF_FFFF_FFFF_FFFFint) by (nonlinear_arith)
                    requires q <= m, t_now < m, m <= 0xFFFF_FFFFint;
            }
            let qt: u64 = (q * t_now) % m;
            let t_next: u64 = (t_prev + m - qt) % m;
            proof {
                lemma_fundamental_div_mod(r_prev as int, r_now as int);
                // t_next * v == (t_prev - q * t_now) * v == r_prev - q * r_now == r_next (mod m)
                lemma_mod_bound((q * t_now) as int, m as int);
                lemma_t_step(t_prev as int, t_now as int, q as int, v as int, r_prev as int, r_now as int, m as int, qt as int);
            }
            r_prev = r_now;
            r_now = r_next;
            t_prev = t_now;
            t_now = t_next;
        }
        if r_prev != 1 {
            proof {
                if invertible(self.value as nat, MODULUS as nat) {
                    lemma_invertible_gcd(v as nat, m as nat);
                }
            }
            None
        } else {
            proof {
                assert(v * t_prev == t_prev * v) by (nonlinear_arith);
                assert(is_inverse(v as nat, t_prev as nat, m as nat));
                assert(t_prev < m);
            }
            Some(IntMod { value: t_prev as u32 })
        }
    }
}

/// An inverse modulo `m` is unique below `m`.
pub proof fn lemma_inverse_unique(a: nat, b: nat, c: nat, m: nat)
    requires
        m > 0,
        b < m,
        c < m,
        is_inverse(a, b, m),
        is_inverse(a, c, m),
    ensures
        b == c,
{
    if m == 1 {
    } else {
        let (ai, bi, ci, mi) = (a as int, b as int, c as int, m as int);
        lemma_small_mod(1, m);
        lemma_small_mod(b, m);
        lemma_small_mod(c, m);
        lemma_mul_mod_noop_right(bi, ai * ci, mi);
        lemma_mul_mod_noop_left(ai * bi, ci, mi);
        assert(bi * (ai * ci) == (ai * bi) * ci) by (nonlinear_arith);
    }
}

/// Adding a value and then subtracting it again gives back the start.
pub proof fn lemma_add_sub_cancel<const MODULUS: u32>(a: IntMod<MODULUS>, b: IntMod<MODULUS>)
    requires
        a.wf(),
        b.wf(),
    ensures
        a.add_mod(b).sub_mod(b) == a,
{
    let m = MODULUS as int;
    let s = (a.value + b.value) % m;
    lemma_fundamental_div_mod(a.value + b.value, m);
    lemma_mod_bound(a.value + b.value, m);
    if a.value + b.value < m {
        lemma_small_mod((a.value + b.value) as nat, m as nat);
        lemma_mod_add_multiples_vanish(a.value as int, m);
        lemma_small_mod(a.value as nat, m as nat);
    } else {
        assert((a.value + b.value - m) % m == s) by {
            lemma_mod_sub_multiples_vanish(a.value + b.value, m);
        }
        lemma_small_mod((a.value + b.value - m) as nat, m as nat);
        lemma_small_mod(a.value as nat, m as nat);
    }
}

proof fn lemma_t_step(tp: int, tn: int, q: int, v: int, rp: int, rn: int, m: int, qt: int)
    requires
        m > 0,
        0 <= tp < m,
        0 <= tn < m,
        q >= 0,
        rn > 0,
        qt == (q * tn) % m,
        (tp * v) % m == rp % m,
        (tn * v) % m == rn % m,
        rp == rn * q + rp % rn,
    ensures
        (((tp + m - qt) % m) * v) % m == (rp % rn) % m,
{
    let tnext = (tp + m - qt) % m;
    // tnext == tp - q * tn (mod m)
    lemma_fundamental_div_mod(tp + m - qt, m);
    lemma_fundamental_div_mod(q * tn, m);
    let k1 = (tp + m - qt) / m;
    let k2 = (q * tn) / m;
    assert(tnext == tp - q * tn + m * (1 + k2 - k1)) by (nonlinear_arith)
        requires
            tp + m - qt == m * k1 + tnext,
            q * tn == m * k2 + qt,
    ;
    assert(tnext * v == (tp * v - q * (tn * v)) + m * ((1 + k2 - k1) * v)) by (nonlinear_arith)
        requires
            tnext == tp - q * tn + m * (1 + k2 - k1),
    ;
    lemma_mod_multiples_vanish((1 + k2 - k1) * v, tp * v - q * (tn * v), m);
    // (tp * v - q * (tn * v)) % m == (rp - q * rn) % m
    lemma_fundamental_div_mod(tp * v, m);
    lemma_fundamental_div_mod(tn * v, m);
    lemma_fundamental_div_mod(rp, m);
    lemma_fundamental_div_mod(rn, m);
    let a1 = (tp * v) / m;
    let a2 = (tn * v) / m;
    let b1 = rp / m;
    let b2 = rn / m;
    assert(tp * v - q * (tn * v) == (rp - q * rn) + m * ((a1 - b1) - q * (a2 - b2))) by (nonlinear_arith)
        requires
            tp * v == m * a1 + (tp * v) % m,
            tn * v == m * a2 + (tn * v) % m,
            rp == m * b1 + rp % m,
            rn == m * b2 + rn % m,
            (tp * v) % m == rp % m,
            (tn * v) % m == rn % m,
    ;
    lemma_mod_multiples_vanish((a1 - b1) - q * (a2 - b2), rp - q * rn, m);
    assert(rp - q * rn == rp % rn) by (nonlinear_arith)
        requires rp == rn * q + rp % rn;
}

impl<const MODULUS: u32> PartialEq for IntMod<MODULUS> {
    fn eq(&self, other: &Self) -> (r: bool) {
        self.value == other.value
    }
}

impl<const MODULUS: u32> Eq for IntMod<MODULUS> {}

impl<const MODULUS: u32> vstd::std_specs::cmp::PartialEqSpecImpl for IntMod<MODULUS> {
    open spec fn obeys_eq_spec() -> bool {
        true
    }

    open spec fn eq_spec(&self, other: &Self) -> bool {
        self.value == other.value
    }
}

impl<const MODULUS: u32> Ring for IntMod<MODULUS> {
    open spec fn wf(self) -> bool {
        MODULUS > 0 && self.value < MODULUS
    }

    open spec fn zero_spec() -> Self {
        IntMod { value: 0 }
    }

    open spec fn one_spec() -> Self {
        IntMod { value: if MODULUS <= 1 { 0 } else { 1 } }
    }

    open spec fn add_spec(self, other: Self) -> Self {
        self.add_mod(other)
    }

    open spec fn sub_spec(self, other: Self) -> Self {
        self.sub_mod(other)
    }

    open spec fn mul_spec(self, other: Self) -> Self {
        self.mul_mod(other)
    }

    proof fn lemma_closed(a: Self, b: Self) {
        let m = MODULUS as int;
        lemma_mod_bound(a.value + b.value, m);
        lemma_mod_bound(m + a.value - b.value, m);
        lemma_mod_bound(a.value * b.value, m);
    }

    proof fn lemma_add_laws(a: Self, b: Self, c: Self) {
        let m = MODULUS as int;
        lemma_add_mod_noop(a.value + b.value, c.value as int, m);
        lemma_add_mod_noop(a.value as int, b.value + c.value, m);
        lemma_small_mod(c.value as nat, m as nat);
        lemma_small_mod(a.value as nat, m as nat);
        lemma_mod_twice(a.value + b.value, m);
        lemma_mod_twice(b.value + c.value, m);
        lemma_mod_bound(a.value + b.value, m);
        lemma_mod_bound(b.value + c.value, m);
        assert((a.value + b.value) % m + c.value == ((a.value + b.value) % m) + ((c.value as int) % m));
        assert(a.value + (b.value + c.value) % m == ((a.value as int) % m) + ((b.value + c.value) % m));
        lemma_mod_add_multiples_vanish(a.value as int, m);
    }

    fn zero() -> (r: Self) {
        IntMod { value: 0 }
    }

    fn one() -> (r: Self) {
        IntMod { value: if MODULUS <= 1 { 0 } else { 1 } }
    }

    fn is_zero(&self) -> (r: bool) {
        self.value == 0
    }

    fn add(&self, other: &Self) -> (r: Self) {
        let s: u64 = (self.value as u64 + other.value as u64) % (MODULUS as u64);
        IntMod { value: s as u32 }
    }

    fn sub(&self, other: &Self) -> (r: Self) {
        let d: u64 = (MODULUS as u64 + self.value as u64 - other.value as u64) % (MODULUS as u64);
        IntMod { value: d as u32 }
    }

    fn mul(&self, other: &Self) -> (r: Self) {
        proof {
            lemma_mul_upper_bound(self.value as int, MODULUS as int, other.value as int, MODULUS as int);
            lemma_mul_strict_inequality(MODULUS as int, 0x1_0000_0000, MODULUS as int);
        }
        let p: u64 = (self.value as u64 * other.value as u64) % (MODULUS as u64);
        IntMod { value: p as u32 }
    }

    fn same(&self, other: &Self) -> (r: bool) {
        self.value == other.value
    }

    fn duplicate(&self) -> (r: Self) {
        *self
    }
}

impl<const MODULUS: u32> Field for IntMod<MODULUS> {
    open spec fn is_unit(self) -> bool {
        invertible(self.value as nat, MODULUS as nat)
    }

    /// `self` times the inverse of `other`.
    open spec fn div_spec(self, other: Self) -> Self {
        self.mul_mod(IntMod { value: inverse_of(other.value as nat, MODULUS as nat) as u32 })
    }

    proof fn lemma_div_closed(a: Self, b: Self) {
        let m = MODULUS as int;
        lemma_mod_bound(a.value * (inverse_of(b.value as nat, m as nat) as u32), m);
    }

    fn div(&self, other: &Self) -> (r: Self) {
        let inv = other.inverse().unwrap();
        proof {
            let c = inverse_of(other.value as nat, MODULUS as nat);
            lemma_inverse_unique(other.value as nat, inv.value as nat, c, MODULUS as nat);
        }
        self.mul(&inv)
    }
}

} // verus!
