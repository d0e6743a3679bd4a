use vstd::prelude::*;
use crate::galois::{
    alpha_power, alpha_spec, canonicalise, field_ok, lemma_alpha_power_wf, lemma_elem_wf, lists_powers, power,
    GaloisField, PolyWithinGF,
};
use crate::int_mod::IntMod;
use crate::polynomial::{
    all_wf, all_zero, coeff, lemma_add_sub_wf, lemma_divide_wf, lemma_mul_wf, lemma_scale_wf, lemma_sub_coeff,
    poly_divide, poly_eval, poly_mul, poly_scale, poly_shift, poly_sub, poly_wf, trim, Polynomial,
};
use crate::ring::{Field, Ring};

verus! {

/// The generator polynomial: the product of `(x - alpha^j)` for `j < k`.
pub open spec fn generator<const P: u32, const M: u32, const PP: u32, const A: u32>(k: nat) -> Seq<PolyWithinGF<P, M, PP, A>>
    decreases k,
{
    if k == 0 {
        seq![PolyWithinGF::<P, M, PP, A>::one_spec()]
    } else {
        let g = generator::<P, M, PP, A>((k - 1) as nat);
        poly_sub(poly_shift(g, 1), poly_scale(g, alpha_power::<P, M, PP, A>((k - 1) as nat)))
    }
}

/// The message codewords as field elements.
pub open spec fn message_elements<const P: u32, const M: u32, const PP: u32, const A: u32>(message: Seq<Polynomial<IntMod<P>>>) -> Seq<PolyWithinGF<P, M, PP, A>> {
    Seq::new(message.len(), |i: int| PolyWithinGF::<P, M, PP, A>::of(canonicalise::<P, PP>(message[i]@)))
}

/// The message as a polynomial whose highest coefficient is the first
/// codeword, times `x^ec`.
pub open spec fn message_poly<const P: u32, const M: u32, const PP: u32, const A: u32>(msg: Seq<PolyWithinGF<P, M, PP, A>>, ec: nat) -> Seq<PolyWithinGF<P, M, PP, A>> {
    let n = msg.len() + ec;
    trim(Seq::new(n, |i: int| if i >= ec { msg[n - 1 - i] } else { PolyWithinGF::<P, M, PP, A>::zero_spec() }))
}

/// The message polynomial minus its remainder by the generator.
pub open spec fn codeword_poly<const P: u32, const M: u32, const PP: u32, const A: u32>(msg: Seq<PolyWithinGF<P, M, PP, A>>, ec: nat) -> Seq<PolyWithinGF<P, M, PP, A>> {
    let m = message_poly(msg, ec);
    poly_sub(m, poly_divide(m, generator::<P, M, PP, A>(ec)).1)
}

/// The systematic encoding: the codeword's coefficients, highest power
/// first, `msg.len() + ec` of them.
pub open spec fn rs_encode<const P: u32, const M: u32, const PP: u32, const A: u32>(msg: Seq<PolyWithinGF<P, M, PP, A>>, ec: nat) -> Seq<PolyWithinGF<P, M, PP, A>> {
    let n = msg.len() + ec;
    Seq::new(n, |i: int| coeff(codeword_poly(msg, ec), n - 1 - i))
}

proof fn lemma_generator<const P: u32, const M: u32, const PP: u32, const A: u32>(k: nat)
    requires
        field_ok::<P, M, PP>(),
    ensures
        poly_wf(generator::<P, M, PP, A>(k)),
        generator::<P, M, PP, A>(k).len() == k + 1,
        generator::<P, M, PP, A>(k).last() == PolyWithinGF::<P, M, PP, A>::one_spec(),
    decreases k,
{
    let z = PolyWithinGF::<P, M, PP, A>::zero_spec();
    let one = PolyWithinGF::<P, M, PP, A>::one_spec();
    crate::galois::lemma_one_wf::<P, M, PP, A>();
    PolyWithinGF::<P, M, PP, A>::lemma_closed(one, one);
    if k > 0 {
        let g = generator::<P, M, PP, A>((k - 1) as nat);
        lemma_generator::<P, M, PP, A>((k - 1) as nat);
        let a = alpha_power::<P, M, PP, A>((k - 1) as nat);
        lemma_alpha_power_wf::<P, M, PP, A>((k - 1) as nat);
        let sh = poly_shift(g, 1);
        let sc = poly_scale(g, a);
        assert(all_wf(sh)) by {
            assert forall|i: int| 0 <= i < sh.len() implies (#[trigger] sh[i]).wf() by {
                if i >= 1 {
                    assert(sh[i] == g[i - 1]);
                }
            }
        }
        crate::polynomial::lemma_scale_wf(g, a);
        lemma_add_sub_wf(sh, sc);
        lemma_sub_coeff(sh, sc);
        assert(coeff(sh, k as int) == one) by {
            assert(sh[k as int] == g[k - 1]);
        }
        assert(coeff(sc, k as int) == z);
        PolyWithinGF::<P, M, PP, A>::lemma_add_laws(one, one, one);
        let d = poly_sub(sh, sc);
        assert(coeff(d, k as int) == one);
        assert(d.len() == k + 1);
    }
}

/// The received vector as a polynomial: the first codeword is the
/// coefficient of `x^(n-1)`.
pub open spec fn received_poly<const P: u32, const M: u32, const PP: u32, const A: u32>(rcvd: Seq<PolyWithinGF<P, M, PP, A>>) -> Seq<PolyWithinGF<P, M, PP, A>> {
    Seq::new(rcvd.len(), |i: int| rcvd[rcvd.len() - 1 - i])
}

/// The syndromes: the received polynomial at `alpha^0 .. alpha^(ec-1)`,
/// the roots of the generator.
pub open spec fn syndromes<const P: u32, const M: u32, const PP: u32, const A: u32>(r: Seq<PolyWithinGF<P, M, PP, A>>, ec: nat) -> Seq<PolyWithinGF<P, M, PP, A>> {
    Seq::new(ec, |j: int| poly_eval(r, alpha_power::<P, M, PP, A>(j as nat)))
}

/// The Euclidean algorithm on `(x^ec, S)`, stopped once the remainder has
/// at most `ec / 2` coefficients: the last cofactor.
pub open spec fn key_equation<const P: u32, const M: u32, const PP: u32, const A: u32>(
    r_prev: Seq<PolyWithinGF<P, M, PP, A>>,
    r_now: Seq<PolyWithinGF<P, M, PP, A>>,
    a_prev: Seq<PolyWithinGF<P, M, PP, A>>,
    a_now: Seq<PolyWithinGF<P, M, PP, A>>,
    ec: nat,
) -> Seq<PolyWithinGF<P, M, PP, A>>
    decreases r_now.len(),
{
    if r_now.len() <= ec / 2 {
        a_now
    } else {
        let d = poly_divide(r_prev, r_now);
        if d.1.len() < r_now.len() {
            key_equation(r_now, d.1, a_now, poly_sub(a_prev, poly_mul(d.0, a_now)), ec)
        } else {
            a_now
        }
    }
}

/// The error locator: the cofactor scaled to a constant term of one.
pub open spec fn locator<const P: u32, const M: u32, const PP: u32, const A: u32>(a: Seq<PolyWithinGF<P, M, PP, A>>) -> Seq<PolyWithinGF<P, M, PP, A>> {
    poly_scale(a, coeff(a, 0).inv_spec())
}

/// The error evaluator: `S * lambda` cut to its first `ec` coefficients.
pub open spec fn evaluator<const P: u32, const M: u32, const PP: u32, const A: u32>(s: Seq<PolyWithinGF<P, M, PP, A>>, lambda: Seq<PolyWithinGF<P, M, PP, A>>, ec: nat) -> Seq<PolyWithinGF<P, M, PP, A>> {
    let prod = poly_mul(s, lambda);
    if prod.len() <= ec {
        prod
    } else {
        prod.take(ec as int)
    }
}

/// The formal derivative: coefficient `k` is `(k + 1) * lambda[k + 1]`.
pub open spec fn derivative<const P: u32, const M: u32, const PP: u32, const A: u32>(lambda: Seq<PolyWithinGF<P, M, PP, A>>) -> Seq<PolyWithinGF<P, M, PP, A>> {
    if lambda.len() == 0 {
        Seq::empty()
    } else {
        Seq::new((lambda.len() - 1) as nat, |k: int| lambda[k + 1].scalar_mul_spec((k + 1) as nat))
    }
}

/// The error position that the `ix`-th power of alpha stands for.
pub open spec fn error_position(ix: nat, order: nat) -> nat {
    if ix == 0 {
        0
    } else {
        (order - 1 - ix) as nat
    }
}

/// The received polynomial after the corrections for the first `count`
/// entries of the enumeration of the non-zero elements: at each root `v` of
/// lambda, subtract the Forney value `alpha^pos * omega(v) / lambda'(v)`.
pub open spec fn corrected<const P: u32, const M: u32, const PP: u32, const A: u32>(
    r: Seq<PolyWithinGF<P, M, PP, A>>,
    elements: Seq<PolyWithinGF<P, M, PP, A>>,
    lambda: Seq<PolyWithinGF<P, M, PP, A>>,
    omega: Seq<PolyWithinGF<P, M, PP, A>>,
    count: nat,
) -> Seq<PolyWithinGF<P, M, PP, A>>
    decreases count,
{
    if count == 0 {
        r
    } else {
        let prev = corrected(r, elements, lambda, omega, (count - 1) as nat);
        let ix = (count - 1) as nat;
        let v = elements[ix as int];
        let pos = error_position(ix, power(P as nat, M as nat));
        if ix < elements.len() && poly_eval(lambda, v) == PolyWithinGF::<P, M, PP, A>::zero_spec() && pos < r.len() && pos < elements.len() {
            let e = elements[pos as int].mul_spec(poly_eval(omega, v).mul_spec(poly_eval(derivative(lambda), v).inv_spec()));
            prev.update(pos as int, prev[pos as int].sub_spec(e))
        } else {
            prev
        }
    }
}

/// Decoding from the received polynomial `r` with `ec` parity codewords:
/// the corrected message, first codeword first.
pub open spec fn decoded_from<const P: u32, const M: u32, const PP: u32, const A: u32>(
    r: Seq<PolyWithinGF<P, M, PP, A>>,
    elements: Seq<PolyWithinGF<P, M, PP, A>>,
    ec: nat,
) -> Seq<PolyWithinGF<P, M, PP, A>> {
    let n = r.len();
    let s = trim(syndromes(r, ec));
    let x_ec = Seq::new(ec, |i: int| PolyWithinGF::<P, M, PP, A>::zero_spec()).push(PolyWithinGF::<P, M, PP, A>::one_spec());
    let a = key_equation(x_ec, s, Seq::empty(), seq![PolyWithinGF::<P, M, PP, A>::one_spec()], ec);
    let lambda = locator(a);
    let omega = evaluator(s, lambda, ec);
    let fixed = corrected(r, elements, lambda, omega, elements.len());
    Seq::new((n - ec) as nat, |i: int| fixed[n - 1 - i])
}

/// The received codewords as field elements.
pub open spec fn received_elements<const P: u32, const M: u32, const PP: u32, const A: u32>(rcvd: Seq<Polynomial<IntMod<P>>>) -> Seq<PolyWithinGF<P, M, PP, A>> {
    message_elements::<P, M, PP, A>(rcvd)
}

/// The decoder's result: the first codewords as received where every
/// syndrome vanishes, else the corrected ones.
pub open spec fn decode_result<const P: u32, const M: u32, const PP: u32, const A: u32>(
    rcvd: Seq<Polynomial<IntMod<P>>>,
    elements: Seq<PolyWithinGF<P, M, PP, A>>,
    ec: nat,
    i: int,
) -> Seq<IntMod<P>> {
    let els = received_elements::<P, M, PP, A>(rcvd);
    if all_zero(syndromes(received_poly(els), ec)) {
        rcvd[i]@
    } else {
        decoded_from(received_poly(els), elements, ec)[i].elem()
    }
}

/// Reed-Solomon coding over GF(P^M) with the primitive element alpha.
pub struct ReedSolomonEncoder<const P: u32, const M: u32, const PP: u32, const A: u32> {}

impl<const P: u32, const M: u32, const PP: u32, const A: u32> ReedSolomonEncoder<P, M, PP, A> {
    pub fn new() -> (r: Self) {
        ReedSolomonEncoder {}
    }

    /// The generator polynomial for `ec` parity symbols.
    fn generator(ec: usize) -> (r: Polynomial<PolyWithinGF<P, M, PP, A>>)
        requires
            field_ok::<P, M, PP>(),
        ensures
            r@ == generator::<P, M, PP, A>(ec as nat),
            poly_wf(r@),
    {
        let mut g: Polynomial<PolyWithinGF<P, M, PP, A>> = Polynomial::one();
        let alpha = GaloisField::<P, M, PP, A>::alpha_poly();
        let mut apow = PolyWithinGF::<P, M, PP, A>::one();
        let mut k: usize = 0;
        proof {
            lemma_generator::<P, M, PP, A>(0);
            crate::galois::lemma_one_wf::<P, M, PP, A>();
        }
        while k < ec
            invariant
                field_ok::<P, M, PP>(),
                k <= ec,
                alpha == alpha_spec::<P, M, PP, A>(),
                alpha.wf(),
                apow == alpha_power::<P, M, PP, A>(k as nat),
                apow.wf(),
                g@ == generator::<P, M, PP, A>(k as nat),
                poly_wf(g@),
                PolyWithinGF::<P, M, PP, A>::zero_spec().wf(),
            decreases ec - k,
        {
            proof {
                lemma_generator::<P, M, PP, A>((k + 1) as nat);
                PolyWithinGF::<P, M, PP, A>::lemma_closed(apow, alpha);
            }
            let sh = g.shift(1);
            let sc = g.scale(&apow);
            g = sh.sub(&sc);
            apow = apow.mul(&alpha);
            k += 1;
        }
        g
    }

    /// Systematic encoding: the message followed by `ec_count` parity
    /// codewords, each codeword a polynomial over F_P of degree below M.
    pub fn encode(&self, message: Vec<Polynomial<IntMod<P>>>, ec_count: usize) -> (r: Vec<Polynomial<IntMod<P>>>)
        requires
            field_ok::<P, M, PP>(),
            forall|i: int| 0 <= i < message@.len() ==> all_wf(#[trigger] message@[i]@),
            message@.len() + ec_count <= usize::MAX,
        ensures
            r@.len() == message@.len() + ec_count,
            forall|i: int|
                0 <= i < r@.len() ==> (#[trigger] r@[i])@ == rs_encode(message_elements::<P, M, PP, A>(message@), ec_count as nat)[i].elem(),
            forall|i: int| 0 <= i < message@.len() ==> (#[trigger] r@[i])@ == canonicalise::<P, PP>(message@[i]@),
            forall|i: int| 0 <= i < r@.len() ==> poly_wf((#[trigger] r@[i])@) && r@[i]@.len() <= M,
    {
        let k = message.len();
        let n = k + ec_count;
        let ghost msg = message_elements::<P, M, PP, A>(message@);
        let mut coefficients: Vec<PolyWithinGF<P, M, PP, A>> = Vec::new();
        let mut i: usize = 0;
        while i < n
            invariant
                field_ok::<P, M, PP>(),
                forall|j: int| 0 <= j < message@.len() ==> all_wf(#[trigger] message@[j]@),
                msg == message_elements::<P, M, PP, A>(message@),
                k == message@.len(),
                n == k + ec_count,
                i <= n,
                coefficients@.len() == i,
                forall|j: int| 0 <= j < i ==> #[trigger] coefficients@[j] == (if j >= ec_count { msg[n - 1 - j] } else { PolyWithinGF::<P, M, PP, A>::zero_spec() }),
                forall|j: int| 0 <= j < i ==> (#[trigger] coefficients@[j]).wf(),
            decreases n - i,
        {
            if i >= ec_count {
                let m = message[n - 1 - i].duplicate();
                let e = GaloisField::<P, M, PP, A>::make_polynomial(m);
                coefficients.push(e);
            } else {
                proof {
                    crate::galois::lemma_one_wf::<P, M, PP, A>();
                }
                coefficients.push(PolyWithinGF::zero());
            }
            i += 1;
        }
        let mut mpoly = Polynomial::from(coefficients);
        proof {
            assert(mpoly@ =~= Seq::new(n as nat, |i: int| if i >= ec_count { msg[n - 1 - i] } else { PolyWithinGF::<P, M, PP, A>::zero_spec() }));
        }
        mpoly.reduce();
        let g = Self::generator(ec_count);
        proof {
            lemma_generator::<P, M, PP, A>(ec_count as nat);
            assert(g@.last().value != 0);
        }
        let (_q, rem) = mpoly.full_divide(&g);
        let codeword = mpoly.sub(&rem);
        proof {
            lemma_divide_wf(mpoly@, g@);
        }
        let mut out: Vec<Polynomial<IntMod<P>>> = Vec::new();
        let mut j: usize = 0;
        let ghost enc = rs_encode(msg, ec_count as nat);
        while j < n
            invariant
                field_ok::<P, M, PP>(),
                n == k + ec_count,
                k == message@.len(),
                j <= n,
                poly_wf(codeword@),
                poly_wf(mpoly@),
                poly_wf(rem@),
                rem@.len() <= ec_count,
                msg == message_elements::<P, M, PP, A>(message@),
                mpoly@ == message_poly(msg, ec_count as nat),
                codeword@ == codeword_poly(msg, ec_count as nat),
                enc == rs_encode(msg, ec_count as nat),
                out@.len() == j,
                forall|t: int| 0 <= t < j ==> (#[trigger] out@[t])@ == enc[t].elem(),
                forall|t: int| 0 <= t < j ==> poly_wf((#[trigger] out@[t])@) && out@[t]@.len() <= M,
            decreases n - j,
        {
            let c = codeword.coefficient(n - 1 - j);
            proof {
                crate::galois::lemma_one_wf::<P, M, PP, A>();
                lemma_elem_wf(c);
            }
            out.push(c.poly());
            j += 1;
        }
        proof {
            assert forall|i: int| 0 <= i < message@.len() implies (#[trigger] out@[i])@ == canonicalise::<P, PP>(message@[i]@) by {
                let p = n - 1 - i;
                if mpoly@.len() > 0 || rem@.len() > 0 {
                    lemma_sub_coeff(mpoly@, rem@);
                } else {
                    assert(codeword@ =~= Seq::<PolyWithinGF<P, M, PP, A>>::empty());
                }
                assert(coeff(rem@, p) == PolyWithinGF::<P, M, PP, A>::zero_spec());
                crate::polynomial::lemma_trim_coeff(Seq::new(n as nat, |i: int| if i >= ec_count { msg[n - 1 - i] } else { PolyWithinGF::<P, M, PP, A>::zero_spec() }));
                assert(coeff(mpoly@, p) == msg[i]);
                crate::galois::lemma_elem_of_canonical::<P, M, PP, A>(message@[i]@);
                PolyWithinGF::<P, M, PP, A>::lemma_add_laws(msg[i], msg[i], msg[i]);
            }
        }
        out
    }

    /// The received codewords as field elements, reduced.
    fn to_elements(rcvd: &Vec<Polynomial<IntMod<P>>>) -> (r: Vec<PolyWithinGF<P, M, PP, A>>)
        requires
            field_ok::<P, M, PP>(),
            forall|i: int| 0 <= i < rcvd@.len() ==> all_wf(#[trigger] rcvd@[i]@),
        ensures
            r@ == received_elements::<P, M, PP, A>(rcvd@),
            forall|i: int| 0 <= i < r@.len() ==> (#[trigger] r@[i]).wf(),
    {
        let mut out: Vec<PolyWithinGF<P, M, PP, A>> = Vec::new();
        let mut i: usize = 0;
        while i < rcvd.len()
            invariant
                field_ok::<P, M, PP>(),
                forall|j: int| 0 <= j < rcvd@.len() ==> all_wf(#[trigger] rcvd@[j]@),
                i <= rcvd@.len(),
                out@.len() == i,
                forall|j: int| 0 <= j < i ==> #[trigger] out@[j] == received_elements::<P, M, PP, A>(rcvd@)[j],
                forall|j: int| 0 <= j < i ==> (#[trigger] out@[j]).wf(),
            decreases rcvd@.len() - i,
        {
            out.push(GaloisField::<P, M, PP, A>::make_polynomial(rcvd[i].duplicate()));
            i += 1;
        }
        proof {
            assert(out@ =~= received_elements::<P, M, PP, A>(rcvd@));
        }
        out
    }

    /// The syndromes of the received polynomial.
    fn syndromes(r: &Polynomial<PolyWithinGF<P, M, PP, A>>, ec: usize) -> (s: Vec<PolyWithinGF<P, M, PP, A>>)
        requires
            field_ok::<P, M, PP>(),
            all_wf(r@),
        ensures
            s@ == syndromes::<P, M, PP, A>(r@, ec as nat),
            all_wf(s@),
    {
        let alpha = GaloisField::<P, M, PP, A>::alpha_poly();
        let mut apow = PolyWithinGF::<P, M, PP, A>::one();
        let mut out: Vec<PolyWithinGF<P, M, PP, A>> = Vec::new();
        let mut j: usize = 0;
        proof {
            crate::galois::lemma_one_wf::<P, M, PP, A>();
            lemma_alpha_power_wf::<P, M, PP, A>(0);
        }
        while j < ec
            invariant
                field_ok::<P, M, PP>(),
                all_wf(r@),
                alpha == alpha_spec::<P, M, PP, A>(),
                alpha.wf(),
                PolyWithinGF::<P, M, PP, A>::zero_spec().wf(),
                j <= ec,
                apow == alpha_power::<P, M, PP, A>(j as nat),
                apow.wf(),
                out@.len() == j,
                forall|t: int| 0 <= t < j ==> #[trigger] out@[t] == poly_eval(r@, alpha_power::<P, M, PP, A>(t as nat)),
                all_wf(out@),
            decreases ec - j,
        {
            out.push(r.evaluate(&apow));
            proof {
                PolyWithinGF::<P, M, PP, A>::lemma_closed(apow, alpha);
            }
            apow = apow.mul(&alpha);
            j += 1;
        }
        proof {
            assert(out@ =~= syndromes::<P, M, PP, A>(r@, ec as nat));
        }
        out
    }

    /// The Euclidean algorithm on `(x^ec, s)` until the remainder has at
    /// most `ec / 2` coefficients: the last cofactor.
    fn solve_key_equation(s: &Polynomial<PolyWithinGF<P, M, PP, A>>, ec: usize) -> (a: Polynomial<PolyWithinGF<P, M, PP, A>>)
        requires
            field_ok::<P, M, PP>(),
            poly_wf(s@),
        ensures
            a@ == key_equation(
                Seq::new(ec as nat, |i: int| PolyWithinGF::<P, M, PP, A>::zero_spec()).push(PolyWithinGF::<P, M, PP, A>::one_spec()),
                s@,
                Seq::empty(),
                seq![PolyWithinGF::<P, M, PP, A>::one_spec()],
                ec as nat,
            ),
            poly_wf(a@),
    {
        proof {
            crate::galois::lemma_one_wf::<P, M, PP, A>();
        }
        let mut x_ec: Vec<PolyWithinGF<P, M, PP, A>> = Vec::new();
        let mut i: usize = 0;
        while i < ec
            invariant
                i <= ec,
                x_ec@ =~= Seq::new(i as nat, |k: int| PolyWithinGF::<P, M, PP, A>::zero_spec()),
            decreases ec - i,
        {
            x_ec.push(PolyWithinGF::zero());
            i += 1;
        }
        x_ec.push(PolyWithinGF::one());
        let mut r_prev = Polynomial::from(x_ec);
        let mut r_now = s.duplicate();
        let mut a_prev: Polynomial<PolyWithinGF<P, M, PP, A>> = Polynomial::zero();
        let mut a_now: Polynomial<PolyWithinGF<P, M, PP, A>> = Polynomial::one();
        let ghost x_ec_spec = Seq::new(ec as nat, |i: int| PolyWithinGF::<P, M, PP, A>::zero_spec()).push(PolyWithinGF::<P, M, PP, A>::one_spec());
        proof {
            assert(r_prev@ =~= x_ec_spec);
            assert(r_prev@.last() == PolyWithinGF::<P, M, PP, A>::one_spec());
            assert(a_prev@ =~= Seq::<PolyWithinGF<P, M, PP, A>>::empty());
            assert(poly_wf(r_prev@)) by {
                assert forall|k: int| 0 <= k < r_prev@.len() implies (#[trigger] r_prev@[k]).wf() by {
                }
            }
        }
        while r_now.degree() > ec / 2
            invariant
                field_ok::<P, M, PP>(),
                poly_wf(r_prev@),
                poly_wf(r_now@),
                poly_wf(a_prev@),
                poly_wf(a_now@),
                key_equation(r_prev@, r_now@, a_prev@, a_now@, ec as nat) == key_equation(
                    x_ec_spec,
                    s@,
                    Seq::empty(),
                    seq![PolyWithinGF::<P, M, PP, A>::one_spec()],
                    ec as nat,
                ),
            decreases r_now@.len(),
        {
            proof {
                assert(r_now@[r_now@.len() - 1] == r_now@.last());
            }
            let (q, r_next) = r_prev.full_divide(&r_now);
            let prod = q.mul(&a_now);
            let a_next = a_prev.sub(&prod);
            proof {
                lemma_add_sub_wf(a_prev@, prod@);
            }
            r_prev = r_now;
            r_now = r_next;
            a_prev = a_now;
            a_now = a_next;
        }
        a_now
    }

    /// The formal derivative of `lambda`.
    fn derivative(lambda: &Polynomial<PolyWithinGF<P, M, PP, A>>) -> (d: Polynomial<PolyWithinGF<P, M, PP, A>>)
        requires
            field_ok::<P, M, PP>(),
            all_wf(lambda@),
        ensures
            d@ == derivative(lambda@),
            all_wf(d@),
    {
        let mut out: Vec<PolyWithinGF<P, M, PP, A>> = Vec::new();
        let n = lambda.coefficients.len();
        if n == 0 {
            proof {
                assert(out@ =~= derivative(lambda@));
            }
            return Polynomial::from(out);
        }
        let mut k: usize = 0;
        while k < n - 1
            invariant
                field_ok::<P, M, PP>(),
                all_wf(lambda@),
                n == lambda@.len(),
                n > 0,
                k <= n - 1,
                out@.len() == k,
                forall|t: int| 0 <= t < k ==> #[trigger] out@[t] == lambda@[t + 1].scalar_mul_spec((t + 1) as nat),
                all_wf(out@),
            decreases n - 1 - k,
        {
            let m: u32 = ((k + 1) % (P as usize)) as u32;
            let c = lambda.coefficients[k + 1].scalar_mul(m);
            proof {
                vstd::arithmetic::div_mod::lemma_mod_twice((k + 1) as int, P as int);
            }
            out.push(c);
            k += 1;
        }
        proof {
            assert(out@ =~= derivative(lambda@));
        }
        Polynomial::from(out)
    }

    /// Subtracts the Forney value at each root of lambda among the
    /// enumerated elements.
    fn correct(
        rp: &mut Polynomial<PolyWithinGF<P, M, PP, A>>,
        elements: &Vec<PolyWithinGF<P, M, PP, A>>,
        lambda: &Polynomial<PolyWithinGF<P, M, PP, A>>,
        omega: &Polynomial<PolyWithinGF<P, M, PP, A>>,
        dl: &Polynomial<PolyWithinGF<P, M, PP, A>>,
    )
        requires
            field_ok::<P, M, PP>(),
            forall|t: int| 0 <= t < elements@.len() ==> (#[trigger] elements@[t]).wf(),
            all_wf(lambda@),
            all_wf(omega@),
            dl@ == derivative(lambda@),
            all_wf(dl@),
            all_wf(old(rp)@),
            elements@.len() <= power(P as nat, M as nat) - 1,
        ensures
            final(rp)@ == corrected(old(rp)@, elements@, lambda@, omega@, elements@.len()),
            final(rp)@.len() == old(rp)@.len(),
            all_wf(final(rp)@),
    {
        let n = rp.coefficients.len();
        let order = GaloisField::<P, M, PP, A>::order();
        let ghost r0 = rp@;
        let mut ix: usize = 0;
        proof {
            crate::galois::lemma_one_wf::<P, M, PP, A>();
        }
        while ix < elements.len()
            invariant
                field_ok::<P, M, PP>(),
                PolyWithinGF::<P, M, PP, A>::zero_spec().wf(),
                order == power(P as nat, M as nat),
                elements@.len() <= power(P as nat, M as nat) - 1,
                forall|t: int| 0 <= t < elements@.len() ==> (#[trigger] elements@[t]).wf(),
                all_wf(lambda@),
                all_wf(omega@),
                all_wf(dl@),
                dl@ == derivative(lambda@),
                ix <= elements@.len(),
                rp@.len() == n,
                r0.len() == n,
                all_wf(rp@),
                rp@ == corrected(r0, elements@, lambda@, omega@, ix as nat),
            decreases elements@.len() - ix,
        {
            let v = elements[ix];
            let lv = lambda.evaluate(&v);
            let pos: usize = if ix == 0 { 0 } else { order - 1 - ix };
            if lv.is_zero() && pos < n && pos < elements.len() {
                let om = omega.evaluate(&v);
                let dv = dl.evaluate(&v);
                let dinv = dv.inv();
                proof {
                    PolyWithinGF::<P, M, PP, A>::lemma_closed(om, dinv);
                }
                let quotient = om.mul(&dinv);
                proof {
                    PolyWithinGF::<P, M, PP, A>::lemma_closed(elements@[pos as int], quotient);
                }
                let e = elements[pos].mul(&quotient);
                proof {
                    PolyWithinGF::<P, M, PP, A>::lemma_closed(rp@[pos as int], e);
                }
                let fixed = rp.coefficients[pos].sub(&e);
                rp.coefficients.set(pos, fixed);
                proof {
                    assert forall|t: int| 0 <= t < rp@.len() implies (#[trigger] rp@[t]).wf() by {
                    }
                }
            }
            ix += 1;
        }
    }

    /// Euclidean decoding: the first `rcvd.len() - ec_count` codewords,
    /// corrected. Where every syndrome vanishes they come back as received.
    #[verifier::rlimit(40)]
    pub fn decode(&self, rcvd: Vec<Polynomial<IntMod<P>>>, ec_count: usize) -> (r: Vec<Polynomial<IntMod<P>>>)
        requires
            field_ok::<P, M, PP>(),
            forall|i: int| 0 <= i < rcvd@.len() ==> all_wf(#[trigger] rcvd@[i]@),
            ec_count <= rcvd@.len(),
        ensures
            r@.len() == rcvd@.len() - ec_count,
            forall|elements: Seq<PolyWithinGF<P, M, PP, A>>|
                lists_powers(elements) ==> forall|i: int|
                    0 <= i < r@.len() ==> (#[trigger] r@[i])@ == decode_result(rcvd@, elements, ec_count as nat, i),
    {
        let n = rcvd.len();
        let k = n - ec_count;
        let els = Self::to_elements(&rcvd);
        let mut rv: Vec<PolyWithinGF<P, M, PP, A>> = Vec::new();
        let mut i: usize = 0;
        while i < n
            invariant
                n == els@.len(),
                i <= n,
                rv@.len() == i,
                forall|t: int| 0 <= t < i ==> #[trigger] rv@[t] == els@[n - 1 - t],
                forall|t: int| 0 <= t < n ==> (#[trigger] els@[t]).wf(),
                all_wf(rv@),
            decreases n - i,
        {
            rv.push(els[n - 1 - i]);
            i += 1;
        }
        let mut rp = Polynomial::from(rv);
        proof {
            assert(rp@ =~= received_poly(els@));
        }
        let synd = Self::syndromes(&rp, ec_count);
        let mut all_zero_synd = true;
        let mut j: usize = 0;
        while j < synd.len()
            invariant
                j <= synd@.len(),
                all_wf(synd@),
                all_zero_synd == (forall|t: int| 0 <= t < j ==> #[trigger] synd@[t] == PolyWithinGF::<P, M, PP, A>::zero_spec()),
            decreases synd@.len() - j,
        {
            if !synd[j].is_zero() {
                all_zero_synd = false;
            }
            j += 1;
        }
        if all_zero_synd {
            let mut out: Vec<Polynomial<IntMod<P>>> = Vec::new();
            let mut t: usize = 0;
            while t < k
                invariant
                    k <= rcvd@.len(),
                    t <= k,
                    out@.len() == t,
                    forall|u: int| 0 <= u < t ==> (#[trigger] out@[u])@ == rcvd@[u]@,
                decreases k - t,
            {
                out.push(rcvd[t].duplicate());
                t += 1;
            }
            return out;
        }
        let out = Self::decode_errors(&rp, synd, ec_count);
        proof {
            assert(rp@ == received_poly(received_elements::<P, M, PP, A>(rcvd@)));
        }
        out
    }

    /// The error-correcting path of the decoder, from the received
    /// polynomial and its syndromes.
    #[verifier::rlimit(40)]
    fn decode_errors(r: &Polynomial<PolyWithinGF<P, M, PP, A>>, synd: Vec<PolyWithinGF<P, M, PP, A>>, ec_count: usize) -> (out: Vec<Polynomial<IntMod<P>>>)
        requires
            field_ok::<P, M, PP>(),
            all_wf(r@),
            synd@ == syndromes::<P, M, PP, A>(r@, ec_count as nat),
            all_wf(synd@),
            ec_count <= r@.len(),
        ensures
            out@.len() == r@.len() - ec_count,
            forall|elements: Seq<PolyWithinGF<P, M, PP, A>>|
                lists_powers(elements) ==> forall|i: int|
                    0 <= i < out@.len() ==> (#[trigger] out@[i])@ == decoded_from(r@, elements, ec_count as nat)[i].elem(),
    {
        let n = r.coefficients.len();
        let k = n - ec_count;
        let mut rp = r.duplicate();
        let mut s = Polynomial::from(synd);
        s.reduce();
        let a = Self::solve_key_equation(&s, ec_count);
        let a0 = a.coefficient(0);
        proof {
            crate::galois::lemma_one_wf::<P, M, PP, A>();
            if a@.len() > 0 {
                assert(a0 == a@[0]);
            }
        }
        let lambda = a.scale(&a0.inv());
        let mut omega = s.mul(&lambda);
        proof {
            lemma_mul_wf(s@, lambda@);
        }
        omega.coefficients.truncate(ec_count);
        proof {
            let prod = poly_mul(s@, lambda@);
            if prod.len() <= ec_count {
                assert(omega@ =~= prod);
            } else {
                assert(omega@ =~= prod.take(ec_count as int));
            }
            assert(all_wf(omega@)) by {
                assert forall|t: int| 0 <= t < omega@.len() implies (#[trigger] omega@[t]).wf() by {
                    assert(omega@[t] == prod[t]);
                }
            }
        }
        let dl = Self::derivative(&lambda);
        let elements = GaloisField::<P, M, PP, A>::enumerate_nonzero();
        Self::correct(&mut rp, &elements, &lambda, &omega, &dl);
        let mut out: Vec<Polynomial<IntMod<P>>> = Vec::new();
        let mut t: usize = 0;
        while t < k
            invariant
                field_ok::<P, M, PP>(),
                k == n - ec_count,
                t <= k,
                rp@.len() == n,
                all_wf(rp@),
                out@.len() == t,
                forall|u: int| 0 <= u < t ==> (#[trigger] out@[u])@ == rp@[n - 1 - u].elem(),
            decreases k - t,
        {
            out.push(rp.coefficients[n - 1 - t].poly());
            t += 1;
        }
        proof {
            assert forall|other: Seq<PolyWithinGF<P, M, PP, A>>| lists_powers(other) implies forall|i: int|
                0 <= i < out@.len() ==> (#[trigger] out@[i])@ == decoded_from(r@, other, ec_count as nat)[i].elem() by {
                crate::galois::lemma_powers_unique(other, elements@);
            }
        }
        out
    }
}

} // verus!
