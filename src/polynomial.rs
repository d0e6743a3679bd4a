use vstd::prelude::*;
use crate::ring::{Field, Ring};

verus! {

/// A dense polynomial, coefficients from the constant term upwards.
/// Its canonical form has no trailing zero; the zero polynomial is empty.
#[derive(Clone, Debug, PartialEq, Eq)]
pub struct Polynomial<T> {
    pub coefficients: Vec<T>,
}

/// The coefficient of `x^i`, zero beyond the stored ones.
pub open spec fn coeff<T: Ring>(s: Seq<T>, i: int) -> T {
    if 0 <= i < s.len() {
        s[i]
    } else {
        T::zero_spec()
    }
}

/// `s` without its trailing zeros.
pub open spec fn trim<T: Ring>(s: Seq<T>) -> Seq<T>
    decreases s.len(),
{
    if s.len() > 0 && s.last() == T::zero_spec() {
        trim(s.drop_last())
    } else {
        s
    }
}

/// No trailing zero.
pub open spec fn canonical<T: Ring>(s: Seq<T>) -> bool {
    s.len() == 0 || s.last() != T::zero_spec()
}

/// Every coefficient is well formed.
pub open spec fn all_wf<T: Ring>(s: Seq<T>) -> bool {
    forall|i: int| 0 <= i < s.len() ==> (#[trigger] s[i]).wf()
}

/// A canonical polynomial of well-formed coefficients.
pub open spec fn poly_wf<T: Ring>(s: Seq<T>) -> bool {
    canonical(s) && all_wf(s)
}

/// Every coefficient is zero.
pub open spec fn all_zero<T: Ring>(s: Seq<T>) -> bool {
    forall|i: int| 0 <= i < s.len() ==> #[trigger] s[i] == T::zero_spec()
}

pub open spec fn max_len(a: int, b: int) -> int {
    if a < b {
        b
    } else {
        a
    }
}

pub open spec fn poly_add<T: Ring>(a: Seq<T>, b: Seq<T>) -> Seq<T> {
    trim(Seq::new(max_len(a.len() as int, b.len() as int) as nat, |i: int| coeff(a, i).add_spec(coeff(b, i))))
}

pub open spec fn poly_sub<T: Ring>(a: Seq<T>, b: Seq<T>) -> Seq<T> {
    trim(Seq::new(max_len(a.len() as int, b.len() as int) as nat, |i: int| coeff(a, i).sub_spec(coeff(b, i))))
}

/// Every coefficient times `c`.
pub open spec fn poly_scale<T: Ring>(a: Seq<T>, c: T) -> Seq<T> {
    trim(Seq::new(a.len(), |i: int| a[i].mul_spec(c)))
}

/// `a` times `x^k`.
pub open spec fn poly_shift<T: Ring>(a: Seq<T>, k: nat) -> Seq<T> {
    Seq::new(k, |i: int| T::zero_spec()) + a
}

/// The sum of `a * b[j] * x^j` over the first `n` coefficients of `b`.
pub open spec fn mul_partial<T: Ring>(a: Seq<T>, b: Seq<T>, n: nat) -> Seq<T>
    decreases n,
{
    if n <= 1 {
        poly_scale(a, b[0])
    } else {
        poly_add(mul_partial(a, b, (n - 1) as nat), poly_shift(poly_scale(a, b[n - 1]), (n - 1) as nat))
    }
}

pub open spec fn poly_mul<T: Ring>(a: Seq<T>, b: Seq<T>) -> Seq<T> {
    if all_zero(a) || all_zero(b) {
        Seq::empty()
    } else {
        trim(mul_partial(a, b, b.len()))
    }
}

/// Horner's rule from coefficient `i` upwards.
pub open spec fn eval_from<T: Ring>(s: Seq<T>, x: T, i: int) -> T
    decreases s.len() - i,
{
    if i < 0 || i >= s.len() {
        T::zero_spec()
    } else {
        eval_from(s, x, i + 1).mul_spec(x).add_spec(s[i])
    }
}

pub open spec fn poly_eval<T: Ring>(s: Seq<T>, x: T) -> T {
    eval_from(s, x, 0)
}

/// One step of long division: cancel the leading term of `r` with
/// `c * x^power * b`, `c` the ratio of the leading coefficients.
pub open spec fn division_step<T: Field>(r: Seq<T>, b: Seq<T>) -> Seq<T> {
    let power = r.len() - b.len();
    let c = r.last().div_spec(b.last());
    trim(
        Seq::new(
            (r.len() - 1) as nat,
            |i: int|
                if i >= power {
                    r[i].sub_spec(c.mul_spec(b[i - power]))
                } else {
                    r[i]
                },
        ),
    )
}

/// Long division of `r` by `b`, the quotient's terms written into `q`.
pub open spec fn long_division<T: Field>(q: Seq<T>, r: Seq<T>, b: Seq<T>) -> (Seq<T>, Seq<T>)
    decreases r.len(),
{
    if b.len() == 0 || r.len() < b.len() {
        (q, r)
    } else {
        let power = r.len() - b.len();
        let c = r.last().div_spec(b.last());
        let next = division_step(r, b);
        if next.len() < r.len() {
            long_division(q.update(power, c), next, b)
        } else {
            (q, r)
        }
    }
}

/// Quotient and remainder of `a` by `b`.
pub open spec fn poly_divide<T: Field>(a: Seq<T>, b: Seq<T>) -> (Seq<T>, Seq<T>) {
    if all_zero(a) || a.len() < b.len() {
        (Seq::empty(), if all_zero(a) { Seq::empty() } else { a })
    } else {
        let res = long_division(Seq::new((a.len() - b.len() + 1) as nat, |i: int| T::zero_spec()), a, b);
        (trim(res.0), res.1)
    }
}

pub proof fn lemma_trim_props<T: Ring>(s: Seq<T>)
    ensures
        canonical(trim(s)),
        trim(s).len() <= s.len(),
        forall|i: int| 0 <= i < trim(s).len() ==> trim(s)[i] == s[i],
        forall|i: int| trim(s).len() <= i < s.len() ==> s[i] == T::zero_spec(),
    decreases s.len(),
{
    if s.len() > 0 && s.last() == T::zero_spec() {
        let d = s.drop_last();
        lemma_trim_props(d);
        assert forall|i: int| 0 <= i < trim(s).len() implies trim(s)[i] == s[i] by {
            assert(d[i] == s[i]);
        }
        assert forall|i: int| trim(s).len() <= i < s.len() implies s[i] == T::zero_spec() by {
            if i < d.len() {
                assert(d[i] == s[i]);
            }
        }
    }
}

pub proof fn lemma_division_step_shorter<T: Field>(r: Seq<T>, b: Seq<T>)
    requires
        b.len() > 0,
        r.len() >= b.len(),
    ensures
        division_step(r, b).len() < r.len(),
        all_wf(r) && all_wf(b) && b.last().is_unit() ==> poly_wf(division_step(r, b)),
{
    let power = r.len() - b.len();
    let c = r.last().div_spec(b.last());
    let s = Seq::new(
        (r.len() - 1) as nat,
        |i: int|
            if i >= power {
                r[i].sub_spec(c.mul_spec(b[i - power]))
            } else {
                r[i]
            },
    );
    lemma_trim_props(s);
    if all_wf(r) && all_wf(b) && b.last().is_unit() {
        T::lemma_div_closed(r.last(), b.last());
        assert forall|i: int| 0 <= i < s.len() implies (#[trigger] s[i]).wf() by {
            if i >= power {
                T::lemma_closed(c, b[i - power]);
                T::lemma_closed(r[i], c.mul_spec(b[i - power]));
            }
        }
        lemma_trim_wf(s);
    }
}

pub proof fn lemma_trim_wf<T: Ring>(s: Seq<T>)
    requires
        all_wf(s),
    ensures
        poly_wf(trim(s)),
{
    lemma_trim_props(s);
    assert forall|i: int| 0 <= i < trim(s).len() implies (#[trigger] trim(s)[i]).wf() by {
        assert(trim(s)[i] == s[i]);
    }
}

pub proof fn lemma_trim_canonical<T: Ring>(s: Seq<T>)
    requires
        canonical(s),
    ensures
        trim(s) == s,
{
}

proof fn lemma_coeff_wf<T: Ring>(a: Seq<T>, b: Seq<T>, k: int)
    requires
        all_wf(a),
        all_wf(b),
        0 <= k < max_len(a.len() as int, b.len() as int),
    ensures
        coeff(a, k).wf(),
        coeff(b, k).wf(),
        T::zero_spec().wf(),
{
    if k < a.len() {
        T::lemma_closed(a[k], a[k]);
    } else {
        T::lemma_closed(b[k], b[k]);
    }
}

/// Trimming keeps every coefficient.
pub proof fn lemma_trim_coeff<T: Ring>(s: Seq<T>)
    ensures
        forall|i: int| #[trigger] coeff(trim(s), i) == coeff(s, i),
{
    lemma_trim_props(s);
    assert forall|i: int| #[trigger] coeff(trim(s), i) == coeff(s, i) by {
        if 0 <= i < trim(s).len() {
        } else if trim(s).len() <= i < s.len() {
        }
    }
}

/// Two sequences with the same coefficients trim to the same polynomial.
proof fn lemma_trim_same<T: Ring>(s: Seq<T>, t: Seq<T>)
    requires
        forall|i: int| #[trigger] coeff(s, i) == coeff(t, i),
    ensures
        trim(s) == trim(t),
    decreases s.len() + t.len(),
{
    if s.len() > t.len() {
        assert(coeff(s, s.len() - 1) == coeff(t, s.len() - 1));
        let d = s.drop_last();
        assert forall|i: int| #[trigger] coeff(d, i) == coeff(t, i) by {
            assert(coeff(s, i) == coeff(t, i));
        }
        lemma_trim_same(d, t);
    } else if t.len() > s.len() {
        assert(coeff(s, t.len() - 1) == coeff(t, t.len() - 1));
        let d = t.drop_last();
        assert forall|i: int| #[trigger] coeff(s, i) == coeff(d, i) by {
            assert(coeff(s, i) == coeff(t, i));
        }
        lemma_trim_same(s, d);
    } else {
        assert forall|i: int| 0 <= i < s.len() implies s[i] == t[i] by {
            assert(coeff(s, i) == coeff(t, i));
        }
        assert(s =~= t);
    }
}

/// The coefficients of a sum, at every power.
proof fn lemma_add_coeff<T: Ring>(a: Seq<T>, b: Seq<T>)
    requires
        all_wf(a),
        all_wf(b),
        a.len() > 0 || b.len() > 0,
    ensures
        forall|i: int| #[trigger] coeff(poly_add(a, b), i) == coeff(a, i).add_spec(coeff(b, i)),
{
    let n = max_len(a.len() as int, b.len() as int);
    let s = Seq::new(n as nat, |i: int| coeff(a, i).add_spec(coeff(b, i)));
    lemma_trim_coeff(s);
    lemma_coeff_wf(a, b, 0);
    T::lemma_add_laws(T::zero_spec(), T::zero_spec(), T::zero_spec());
}

/// Addition of polynomials is commutative.
pub proof fn lemma_add_commutative<T: Ring>(a: Seq<T>, b: Seq<T>)
    requires
        all_wf(a),
        all_wf(b),
    ensures
        poly_add(a, b) == poly_add(b, a),
{
    let n = max_len(a.len() as int, b.len() as int);
    assert forall|i: int| 0 <= i < n implies #[trigger] coeff(a, i).add_spec(coeff(b, i)) == coeff(b, i).add_spec(coeff(a, i)) by {
        lemma_coeff_wf(a, b, i);
        T::lemma_add_laws(coeff(a, i), coeff(b, i), coeff(b, i));
    }
    assert(Seq::new(n as nat, |i: int| coeff(a, i).add_spec(coeff(b, i))) =~= Seq::new(
        max_len(b.len() as int, a.len() as int) as nat,
        |i: int| coeff(b, i).add_spec(coeff(a, i)),
    ));
}

/// Addition of polynomials is associative.
pub proof fn lemma_add_associative<T: Ring>(a: Seq<T>, b: Seq<T>, c: Seq<T>)
    requires
        all_wf(a),
        all_wf(b),
        all_wf(c),
    ensures
        poly_add(poly_add(a, b), c) == poly_add(a, poly_add(b, c)),
{
    if a.len() == 0 && b.len() == 0 && c.len() == 0 {
        assert(poly_add(a, b) =~= Seq::<T>::empty());
        assert(poly_add(b, c) =~= Seq::<T>::empty());
        assert(poly_add(poly_add(a, b), c) =~= Seq::<T>::empty());
        assert(poly_add(a, poly_add(b, c)) =~= Seq::<T>::empty());
    } else {
        let w = if a.len() > 0 { a[0] } else if b.len() > 0 { b[0] } else { c[0] };
        T::lemma_closed(w, w);
        let ab = poly_add(a, b);
        let bc = poly_add(b, c);
        assert(all_wf(Seq::new(max_len(a.len() as int, b.len() as int) as nat, |i: int| coeff(a, i).add_spec(coeff(b, i))))) by {
            assert forall|i: int| 0 <= i < max_len(a.len() as int, b.len() as int) implies (#[trigger] coeff(a, i).add_spec(coeff(b, i))).wf() by {
                lemma_coeff_wf(a, b, i);
                T::lemma_closed(coeff(a, i), coeff(b, i));
            }
        }
        assert(all_wf(Seq::new(max_len(b.len() as int, c.len() as int) as nat, |i: int| coeff(b, i).add_spec(coeff(c, i))))) by {
            assert forall|i: int| 0 <= i < max_len(b.len() as int, c.len() as int) implies (#[trigger] coeff(b, i).add_spec(coeff(c, i))).wf() by {
                lemma_coeff_wf(b, c, i);
                T::lemma_closed(coeff(b, i), coeff(c, i));
            }
        }
        let left = Seq::new(max_len(ab.len() as int, c.len() as int) as nat, |i: int| coeff(ab, i).add_spec(coeff(c, i)));
        let right = Seq::new(max_len(a.len() as int, bc.len() as int) as nat, |i: int| coeff(a, i).add_spec(coeff(bc, i)));
        if a.len() > 0 || b.len() > 0 {
            lemma_add_coeff(a, b);
        } else {
            assert(ab =~= Seq::<T>::empty());
        }
        if b.len() > 0 || c.len() > 0 {
            lemma_add_coeff(b, c);
        } else {
            assert(bc =~= Seq::<T>::empty());
        }
        assert forall|i: int| #[trigger] coeff(left, i) == coeff(right, i) by {
            let (x, y, z) = (coeff(a, i), coeff(b, i), coeff(c, i));
            assert(x.wf() && y.wf() && z.wf());
            T::lemma_add_laws(x, y, z);
            T::lemma_add_laws(T::zero_spec(), T::zero_spec(), T::zero_spec());
            T::lemma_closed(x, y);
            T::lemma_closed(y, z);
            if a.len() > 0 || b.len() > 0 {
                assert(coeff(ab, i) == x.add_spec(y));
            } else {
                assert(coeff(ab, i) == T::zero_spec());
                assert(x == T::zero_spec() && y == T::zero_spec());
            }
            if b.len() > 0 || c.len() > 0 {
                assert(coeff(bc, i) == y.add_spec(z));
            } else {
                assert(coeff(bc, i) == T::zero_spec());
                assert(y == T::zero_spec() && z == T::zero_spec());
            }
        }
        lemma_trim_same(left, right);
    }
}

/// Subtracting the zero polynomial changes nothing.
pub proof fn lemma_sub_zero<T: Ring>(a: Seq<T>)
    requires
        poly_wf(a),
    ensures
        poly_sub(a, Seq::empty()) == a,
{
    let s = Seq::new(a.len(), |i: int| coeff(a, i).sub_spec(coeff(Seq::<T>::empty(), i)));
    assert forall|i: int| 0 <= i < a.len() implies s[i] == a[i] by {
        T::lemma_add_laws(a[i], a[i], a[i]);
    }
    assert(s =~= a);
}

/// The coefficients of a difference, at every power.
pub proof fn lemma_sub_coeff<T: Ring>(a: Seq<T>, b: Seq<T>)
    requires
        all_wf(a),
        all_wf(b),
        a.len() > 0 || b.len() > 0,
    ensures
        forall|i: int| #[trigger] coeff(poly_sub(a, b), i) == coeff(a, i).sub_spec(coeff(b, i)),
{
    let n = max_len(a.len() as int, b.len() as int);
    let s = Seq::new(n as nat, |i: int| coeff(a, i).sub_spec(coeff(b, i)));
    lemma_trim_coeff(s);
    lemma_coeff_wf(a, b, 0);
    T::lemma_add_laws(T::zero_spec(), T::zero_spec(), T::zero_spec());
}

/// The zero polynomial is an identity for addition, on either side.
pub proof fn lemma_add_zero_identity<T: Ring>(a: Seq<T>)
    requires
        poly_wf(a),
    ensures
        poly_add(a, Seq::empty()) == a,
        poly_add(Seq::empty(), a) == a,
{
    let s = Seq::new(a.len(), |i: int| coeff(a, i).add_spec(coeff(Seq::<T>::empty(), i)));
    assert forall|i: int| 0 <= i < a.len() implies s[i] == a[i] by {
        T::lemma_add_laws(a[i], a[i], a[i]);
    }
    assert(s =~= a);
    lemma_add_commutative(a, Seq::<T>::empty());
}

/// Long division leaves a remainder shorter than the divisor.
pub proof fn lemma_long_division_remainder<T: Field>(q: Seq<T>, r: Seq<T>, b: Seq<T>)
    requires
        b.len() > 0,
    ensures
        long_division(q, r, b).1.len() < b.len(),
    decreases r.len(),
{
    if r.len() >= b.len() {
        lemma_division_step_shorter(r, b);
        let power = r.len() - b.len();
        let c = r.last().div_spec(b.last());
        lemma_long_division_remainder(q.update(power, c), division_step(r, b), b);
    }
}

/// For a non-zero divisor, the remainder has a lower degree than the divisor.
pub proof fn lemma_remainder_degree<T: Field>(a: Seq<T>, b: Seq<T>)
    requires
        b.len() > 0,
    ensures
        poly_divide(a, b).1.len() < b.len(),
{
    if !all_zero(a) && a.len() >= b.len() {
        lemma_long_division_remainder(Seq::new((a.len() - b.len() + 1) as nat, |i: int| T::zero_spec()), a, b);
    }
}

/// Sums and differences of well-formed polynomials are canonical and no
/// longer than the longer operand.
pub proof fn lemma_add_sub_wf<T: Ring>(a: Seq<T>, b: Seq<T>)
    requires
        all_wf(a),
        all_wf(b),
    ensures
        poly_wf(poly_add(a, b)),
        poly_wf(poly_sub(a, b)),
        poly_add(a, b).len() <= max_len(a.len() as int, b.len() as int),
        poly_sub(a, b).len() <= max_len(a.len() as int, b.len() as int),
{
    let n = max_len(a.len() as int, b.len() as int) as nat;
    let s1 = Seq::new(n, |i: int| coeff(a, i).add_spec(coeff(b, i)));
    let s2 = Seq::new(n, |i: int| coeff(a, i).sub_spec(coeff(b, i)));
    assert forall|i: int| 0 <= i < n implies (#[trigger] s1[i]).wf() by {
        lemma_coeff_wf(a, b, i);
        T::lemma_closed(coeff(a, i), coeff(b, i));
    }
    assert forall|i: int| 0 <= i < n implies (#[trigger] s2[i]).wf() by {
        lemma_coeff_wf(a, b, i);
        T::lemma_closed(coeff(a, i), coeff(b, i));
    }
    lemma_trim_wf(s1);
    lemma_trim_wf(s2);
    lemma_trim_props(s1);
    lemma_trim_props(s2);
}

proof fn lemma_scale_shift_wf<T: Ring>(a: Seq<T>, c: T, k: nat)
    requires
        all_wf(a),
        c.wf(),
    ensures
        poly_wf(poly_scale(a, c)),
        T::zero_spec().wf() ==> all_wf(poly_shift(poly_scale(a, c), k)),
{
    let s = Seq::new(a.len(), |i: int| a[i].mul_spec(c));
    assert forall|i: int| 0 <= i < a.len() implies (#[trigger] s[i]).wf() by {
        T::lemma_closed(a[i], c);
    }
    lemma_trim_wf(s);
    let sh = poly_shift(poly_scale(a, c), k);
    if T::zero_spec().wf() {
        assert forall|i: int| 0 <= i < sh.len() implies (#[trigger] sh[i]).wf() by {
            if i >= k {
                assert(sh[i] == poly_scale(a, c)[i - k]);
            }
        }
    }
}

proof fn lemma_mul_partial_wf<T: Ring>(a: Seq<T>, b: Seq<T>, n: nat)
    requires
        all_wf(a),
        all_wf(b),
        1 <= n <= b.len(),
    ensures
        poly_wf(mul_partial(a, b, n)),
    decreases n,
{
    T::lemma_closed(b[0], b[0]);
    if n <= 1 {
        lemma_scale_shift_wf(a, b[0], 0);
    } else {
        lemma_mul_partial_wf(a, b, (n - 1) as nat);
        lemma_scale_shift_wf(a, b[n - 1], (n - 1) as nat);
        lemma_add_sub_wf(mul_partial(a, b, (n - 1) as nat), poly_shift(poly_scale(a, b[n - 1]), (n - 1) as nat));
    }
}

/// Scaling a well-formed polynomial keeps it canonical and no longer.
pub proof fn lemma_scale_wf<T: Ring>(a: Seq<T>, c: T)
    requires
        all_wf(a),
        c.wf(),
    ensures
        poly_wf(poly_scale(a, c)),
        poly_scale(a, c).len() <= a.len(),
{
    lemma_scale_shift_wf(a, c, 0);
    lemma_trim_props(Seq::new(a.len(), |i: int| a[i].mul_spec(c)));
}

/// Products of well-formed polynomials are canonical.
pub proof fn lemma_mul_wf<T: Ring>(a: Seq<T>, b: Seq<T>)
    requires
        all_wf(a),
        all_wf(b),
    ensures
        poly_wf(poly_mul(a, b)),
{
    if !(all_zero(a) || all_zero(b)) {
        lemma_mul_partial_wf(a, b, b.len());
        lemma_trim_canonical(mul_partial(a, b, b.len()));
    }
}

proof fn lemma_long_division_wf<T: Field>(q: Seq<T>, r: Seq<T>, b: Seq<T>)
    requires
        poly_wf(r),
        poly_wf(b),
        b.len() > 0,
        b.last().is_unit(),
    ensures
        poly_wf(long_division(q, r, b).1),
    decreases r.len(),
{
    if r.len() >= b.len() {
        lemma_division_step_shorter(r, b);
        let power = r.len() - b.len();
        let c = r.last().div_spec(b.last());
        lemma_long_division_wf(q.update(power, c), division_step(r, b), b);
    }
}

/// The remainder of a well-formed division is canonical and well formed.
pub proof fn lemma_divide_wf<T: Field>(a: Seq<T>, b: Seq<T>)
    requires
        poly_wf(a),
        poly_wf(b),
        b.len() > 0,
        b.last().is_unit(),
    ensures
        poly_wf(poly_divide(a, b).1),
        poly_divide(a, b).1.len() < b.len(),
{
    lemma_remainder_degree(a, b);
    if !all_zero(a) && a.len() >= b.len() {
        lemma_long_division_wf(Seq::new((a.len() - b.len() + 1) as nat, |i: int| T::zero_spec()), a, b);
    }
}

impl<T: Ring> Polynomial<T> {
    pub open spec fn view(&self) -> Seq<T> {
        self.coefficients@
    }

    /// The number of stored coefficients.
    pub fn degree(&self) -> (r: usize)
        ensures
            r == self.coefficients@.len(),
    {
        self.coefficients.len()
    }

    /// Removes trailing zero coefficients.
    pub fn reduce(&mut self)
        requires
            all_wf(old(self).coefficients@),
        ensures
            final(self).coefficients@ == trim(old(self).coefficients@),
            poly_wf(final(self).coefficients@),
    {
        proof {
            lemma_trim_props(self.coefficients@);
        }
        while self.coefficients.len() > 0 && self.coefficients[self.coefficients.len() - 1].is_zero()
            invariant
                all_wf(self.coefficients@),
                trim(self.coefficients@) == trim(old(self).coefficients@),
            decreases self.coefficients.len(),
        {
            self.coefficients.pop();
        }
        proof {
            lemma_trim_wf(self.coefficients@);
        }
    }

    /// The polynomial with the given coefficients, as they stand.
    pub fn from(coefficients: Vec<T>) -> (r: Self)
        ensures
            r@ == coefficients@,
    {
        Polynomial { coefficients }
    }

    /// The zero polynomial.
    pub fn zero() -> (r: Self)
        ensures
            r@ == Seq::<T>::empty(),
    {
        Polynomial { coefficients: Vec::new() }
    }

    /// The constant one.
    pub fn one() -> (r: Self)
        ensures
            r@ == seq![T::one_spec()],
    {
        let mut coefficients: Vec<T> = Vec::new();
        coefficients.push(T::one());
        Polynomial { coefficients }
    }

    /// Whether every coefficient is zero.
    pub fn is_zero(&self) -> (r: bool)
        requires
            all_wf(self@),
        ensures
            r == all_zero(self@),
    {
        let mut i: usize = 0;
        while i < self.coefficients.len()
            invariant
                all_wf(self@),
                i <= self@.len(),
                forall|k: int| 0 <= k < i ==> #[trigger] self@[k] == T::zero_spec(),
            decreases self@.len() - i,
        {
            if !self.coefficients[i].is_zero() {
                return false;
            }
            i += 1;
        }
        true
    }

    /// Whether this is the constant one, as stored.
    pub fn is_one(&self) -> (r: bool)
        requires
            all_wf(self@),
        ensures
            r == (self@ == seq![T::one_spec()]),
    {
        if self.coefficients.len() != 1 {
            proof {
                if self@ == seq![T::one_spec()] {
                    assert(self@.len() == 1);
                }
            }
            return false;
        }
        let one = T::one();
        proof {
            assert(self@ == seq![T::one_spec()] <==> self@[0] == T::one_spec()) by {
                if self@[0] == T::one_spec() {
                    assert(self@ =~= seq![T::one_spec()]);
                }
            }
        }
        self.coefficients[0].same(&one)
    }

    /// Becomes the zero polynomial.
    pub fn set_zero(&mut self)
        ensures
            final(self)@ == Seq::<T>::empty(),
    {
        self.coefficients.clear();
    }

    /// Becomes the constant one.
    pub fn set_one(&mut self)
        ensures
            final(self)@ == seq![T::one_spec()],
    {
        self.coefficients.clear();
        self.coefficients.push(T::one());
        proof {
            assert(self.coefficients@ =~= seq![T::one_spec()]);
        }
    }

    /// A copy with the same coefficients.
    pub fn duplicate(&self) -> (r: Self)
        ensures
            r@ == self@,
    {
        let mut coefficients: Vec<T> = Vec::new();
        let mut i: usize = 0;
        while i < self.coefficients.len()
            invariant
                i <= self@.len(),
                coefficients@ =~= self@.take(i as int),
            decreases self@.len() - i,
        {
            coefficients.push(self.coefficients[i].duplicate());
            i += 1;
        }
        proof {
            assert(self@.take(self@.len() as int) =~= self@);
        }
        Polynomial { coefficients }
    }

    /// The coefficient of `x^i`.
    pub fn coefficient(&self, i: usize) -> (r: T)
        ensures
            r == coeff(self@, i as int),
    {
        if i < self.coefficients.len() {
            self.coefficients[i].duplicate()
        } else {
            T::zero()
        }
    }

    fn combine(&self, other: &Self, subtract: bool) -> (r: Self)
        requires
            all_wf(self@),
            all_wf(other@),
        ensures
            r@ == if subtract { poly_sub(self@, other@) } else { poly_add(self@, other@) },
            poly_wf(r@),
    {
        let n: usize = if self.coefficients.len() < other.coefficients.len() {
            other.coefficients.len()
        } else {
            self.coefficients.len()
        };
        let mut coefficients: Vec<T> = Vec::new();
        let mut i: usize = 0;
        while i < n
            invariant
                all_wf(self@),
                all_wf(other@),
                n == max_len(self@.len() as int, other@.len() as int),
                i <= n,
                coefficients@.len() == i,
                forall|k: int|
                    0 <= k < i ==> #[trigger] coefficients@[k] == (if subtract {
                        coeff(self@, k).sub_spec(coeff(other@, k))
                    } else {
                        coeff(self@, k).add_spec(coeff(other@, k))
                    }),
                all_wf(coefficients@),
            decreases n - i,
        {
            let x = self.coefficient(i);
            let y = other.coefficient(i);
            proof {
                lemma_coeff_wf(self@, other@, i as int);
                T::lemma_closed(x, y);
            }
            let z = if subtract { x.sub(&y) } else { x.add(&y) };
            coefficients.push(z);
            i += 1;
        }
        let mut r = Polynomial { coefficients };
        proof {
            if subtract {
                assert(r@ =~= Seq::new(n as nat, |k: int| coeff(self@, k).sub_spec(coeff(other@, k))));
            } else {
                assert(r@ =~= Seq::new(n as nat, |k: int| coeff(self@, k).add_spec(coeff(other@, k))));
            }
        }
        r.reduce();
        r
    }

    /// The sum, trimmed.
    pub fn add(&self, other: &Self) -> (r: Self)
        requires
            all_wf(self@),
            all_wf(other@),
        ensures
            r@ == poly_add(self@, other@),
            poly_wf(r@),
    {
        self.combine(other, false)
    }

    /// The difference, trimmed.
    pub fn sub(&self, other: &Self) -> (r: Self)
        requires
            all_wf(self@),
            all_wf(other@),
        ensures
            r@ == poly_sub(self@, other@),
            poly_wf(r@),
    {
        self.combine(other, true)
    }

    /// Every coefficient times `c`, trimmed.
    pub fn scale(&self, c: &T) -> (r: Self)
        requires
            all_wf(self@),
            c.wf(),
        ensures
            r@ == poly_scale(self@, *c),
            poly_wf(r@),
    {
        let mut coefficients: Vec<T> = Vec::new();
        let mut i: usize = 0;
        while i < self.coefficients.len()
            invariant
                all_wf(self@),
                c.wf(),
                i <= self@.len(),
                coefficients@.len() == i,
                forall|k: int| 0 <= k < i ==> #[trigger] coefficients@[k] == self@[k].mul_spec(*c),
                all_wf(coefficients@),
            decreases self@.len() - i,
        {
            proof {
                T::lemma_closed(self@[i as int], *c);
            }
            coefficients.push(self.coefficients[i].mul(c));
            i += 1;
        }
        let mut r = Polynomial { coefficients };
        proof {
            assert(r@ =~= Seq::new(self@.len(), |k: int| self@[k].mul_spec(*c)));
        }
        r.reduce();
        r
    }

    /// Times `x^k`.
    pub fn shift(&self, k: usize) -> (r: Self)
        requires
            all_wf(self@),
            T::zero_spec().wf(),
        ensures
            r@ == poly_shift(self@, k as nat),
            all_wf(r@),
    {
        let mut coefficients: Vec<T> = Vec::new();
        let mut i: usize = 0;
        while i < k
            invariant
                i <= k,
                T::zero_spec().wf(),
                coefficients@ =~= Seq::new(i as nat, |j: int| T::zero_spec()),
            decreases k - i,
        {
            coefficients.push(T::zero());
            i += 1;
        }
        let mut j: usize = 0;
        while j < self.coefficients.len()
            invariant
                j <= self@.len(),
                coefficients@ =~= Seq::new(k as nat, |j: int| T::zero_spec()) + self@.take(j as int),
            decreases self@.len() - j,
        {
            coefficients.push(self.coefficients[j].duplicate());
            j += 1;
        }
        proof {
            assert(self@.take(self@.len() as int) =~= self@);
        }
        Polynomial { coefficients }
    }

    /// The product: the sum of the shifted copies of `self` scaled by each
    /// coefficient of `other`, trimmed.
    pub fn mul(&self, other: &Self) -> (r: Self)
        requires
            all_wf(self@),
            all_wf(other@),
        ensures
            r@ == poly_mul(self@, other@),
            poly_wf(r@),
    {
        if self.is_zero() || other.is_zero() {
            return Polynomial::zero();
        }
        proof {
            T::lemma_closed(other@[0], other@[0]);
        }
        let mut acc = self.scale(&other.coefficients[0]);
        let mut j: usize = 1;
        while j < other.coefficients.len()
            invariant
                all_wf(self@),
                all_wf(other@),
                T::zero_spec().wf(),
                1 <= j <= other@.len(),
                acc@ == mul_partial(self@, other@, j as nat),
                poly_wf(acc@),
            decreases other@.len() - j,
        {
            let s = self.scale(&other.coefficients[j]);
            let shifted = s.shift(j);
            acc = acc.add(&shifted);
            j += 1;
        }
        proof {
            lemma_trim_canonical(acc@);
        }
        acc
    }

    /// The value at `x`, by Horner's rule.
    pub fn evaluate(&self, x: &T) -> (r: T)
        requires
            all_wf(self@),
            x.wf(),
        ensures
            r == poly_eval(self@, *x),
            T::zero_spec().wf() ==> r.wf(),
    {
        let mut r = T::zero();
        let mut i: usize = self.coefficients.len();
        while i > 0
            invariant
                all_wf(self@),
                x.wf(),
                i <= self@.len(),
                r == eval_from(self@, *x, i as int),
                T::zero_spec().wf() || (i < self@.len()) ==> r.wf(),
            decreases i,
        {
            i -= 1;
            proof {
                T::lemma_closed(self@[i as int], *x);
                if i + 1 < self@.len() {
                    T::lemma_closed(r, *x);
                    T::lemma_closed(r.mul_spec(*x), self@[i as int]);
                } else {
                    T::lemma_closed(r, *x);
                    T::lemma_closed(r.mul_spec(*x), self@[i as int]);
                }
            }
            r = r.mul(x).add(&self.coefficients[i]);
        }
        r
    }
}

impl<T: Field> Polynomial<T> {
    /// Quotient and remainder by long division.
    pub fn full_divide(&self, other: &Self) -> (r: (Self, Self))
        requires
            poly_wf(self@),
            poly_wf(other@),
            other@.len() > 0,
            other@.last().is_unit(),
        ensures
            (r.0@, r.1@) == poly_divide(self@, other@),
            poly_wf(r.0@),
            poly_wf(r.1@),
            r.1@.len() < other@.len(),
    {
        if self.is_zero() {
            return (Polynomial::zero(), Polynomial::zero());
        }
        let n = self.coefficients.len();
        let m = other.coefficients.len();
        if n < m {
            return (Polynomial::zero(), self.duplicate());
        }
        proof {
            T::lemma_closed(self@[0], self@[0]);
        }
        let qlen = n - m + 1;
        let mut quotient: Vec<T> = Vec::new();
        let mut i: usize = 0;
        while i < qlen
            invariant
                qlen == n - m + 1,
                i <= qlen,
                T::zero_spec().wf(),
                quotient@ =~= Seq::new(i as nat, |k: int| T::zero_spec()),
            decreases qlen - i,
        {
            quotient.push(T::zero());
            i += 1;
        }
        let ghost q0 = quotient@;
        let lead = &other.coefficients[m - 1];
        let mut remainder = self.duplicate();
        while remainder.coefficients.len() >= m
            invariant
                poly_wf(other@),
                other@.len() == m,
                m > 0,
                other@.last().is_unit(),
                *lead == other@.last(),
                T::zero_spec().wf(),
                poly_wf(remainder@),
                remainder@.len() <= n,
                quotient@.len() == n - m + 1,
                all_wf(quotient@),
                long_division(quotient@, remainder@, other@) == long_division(q0, self@, other@),
            decreases remainder@.len(),
        {
            let len = remainder.coefficients.len();
            let power = len - m;
            let c = remainder.coefficients[len - 1].div(lead);
            proof {
                T::lemma_div_closed(remainder@.last(), *lead);
                lemma_division_step_shorter(remainder@, other@);
            }
            quotient.set(power, c.duplicate());
            let mut next: Vec<T> = Vec::new();
            let mut k: usize = 0;
            let ghost r = remainder@;
            while k < len - 1
                invariant
                    r == remainder@,
                    len == r.len(),
                    power == len - m,
                    poly_wf(other@),
                    other@.len() == m,
                    all_wf(r),
                    c.wf(),
                    k <= len - 1,
                    next@.len() == k,
                    forall|j: int|
                        0 <= j < k ==> #[trigger] next@[j] == (if j >= power {
                            r[j].sub_spec(c.mul_spec(other@[j - power]))
                        } else {
                            r[j]
                        }),
                    all_wf(next@),
                decreases len - 1 - k,
            {
                if k >= power {
                    proof {
                        T::lemma_closed(c, other@[k - power]);
                        T::lemma_closed(r[k as int], c.mul_spec(other@[k - power]));
                    }
                    let t = c.mul(&other.coefficients[k - power]);
                    next.push(remainder.coefficients[k].sub(&t));
                } else {
                    next.push(remainder.coefficients[k].duplicate());
                }
                k += 1;
            }
            let mut stepped = Polynomial { coefficients: next };
            proof {
                let c2 = r.last().div_spec(other@.last());
                assert(c == c2);
                assert(stepped@ =~= Seq::new(
                    (r.len() - 1) as nat,
                    |i: int|
                        if i >= power {
                            r[i].sub_spec(c.mul_spec(other@[i - power]))
                        } else {
                            r[i]
                        },
                ));
            }
            stepped.reduce();
            proof {
                assert(stepped@ == division_step(r, other@));
            }
            remainder = stepped;
        }
        let mut q = Polynomial { coefficients: quotient };
        q.reduce();
        (q, remainder)
    }
}

} // verus!
