//! Polynomials over a ring form a ring themselves.
use crate::poly_laws::{
    law_add_associative, law_add_commutative, law_add_inverse, law_add_zero, law_distributive,
    law_mul_associative, law_mul_commutative, law_mul_one, lemma_add_coef, lemma_mul_coef,
    lemma_neg_coef,
};
use crate::poly_laws::{lemma_mul_len, lemma_pdiv};
use crate::polynomial::{
    add_raw, add_seq, canonical, lemma_trim, lemma_trim_valid, mul_fits, mul_seq, neg_seq, pdiv,
    trim, Poly,
};
use crate::ring::{
    lemma_add_cancel, lemma_distrib_right, lemma_neg_mul, lemma_neg_unique, CommutativeRing, Field,
    Ring, Val,
};
use vstd::prelude::*;

verus! {

/// The ring `R[x]` of polynomials over the ring `R`.
#[derive(Debug, Clone, Copy)]
pub struct PolynomialRing<R: Ring> {
    ring: R,
}

impl<R: Ring> PolynomialRing<R> {
    /// The ring of polynomials with coefficients in `ring`.
    pub fn new(ring: R) -> (r: Self)
        ensures
            r.coefficients() == ring,
    {
        Self { ring }
    }

    /// The ring of the coefficients.
    pub closed spec fn coefficients(&self) -> R {
        self.ring
    }

    /// The ring of the coefficients.
    pub fn coefficient_ring(&self) -> (r: R)
        ensures
            r == self.coefficients(),
    {
        self.ring
    }
}

impl<R: Ring> Ring for PolynomialRing<R> {
    type Element = Poly<R>;

    open spec fn wf(&self) -> bool {
        self.coefficients().wf()
    }

    open spec fn elem_ok(&self, e: &Poly<R>) -> bool {
        e.wf() && e.ring() == self.coefficients()
    }

    open spec fn valid(&self, v: Seq<Val<R>>) -> bool {
        canonical(self.coefficients(), v)
    }

    open spec fn admits(&self, e: &Poly<R>) -> bool {
        e.wf() && e.ring() == self.coefficients()
    }

    open spec fn zero_v(&self) -> Seq<Val<R>> {
        Seq::empty()
    }

    open spec fn one_v(&self) -> Seq<Val<R>> {
        trim(self.coefficients(), seq![self.coefficients().one_v()])
    }

    open spec fn add_v(&self, a: Seq<Val<R>>, b: Seq<Val<R>>) -> Seq<Val<R>> {
        add_seq(self.coefficients(), a, b)
    }

    open spec fn neg_v(&self, a: Seq<Val<R>>) -> Seq<Val<R>> {
        neg_seq(self.coefficients(), a)
    }

    open spec fn mul_v(&self, a: Seq<Val<R>>, b: Seq<Val<R>>) -> Seq<Val<R>> {
        mul_seq(self.coefficients(), a, b)
    }

    open spec fn mul_ok(&self, a: Seq<Val<R>>, b: Seq<Val<R>>) -> bool {
        mul_fits(self.coefficients(), a, b)
    }

    open spec fn id_v(&self, a: Seq<Val<R>>) -> Seq<Val<R>> {
        a
    }

    proof fn lemma_elem_valid(&self, e: &Poly<R>) {
    }

    fn zero(&self) -> (r: Poly<R>) {
        Poly::zero(self.ring)
    }

    fn one(&self) -> (r: Poly<R>) {
        let one = self.ring.one();
        proof {
            self.ring.lemma_elem_valid(&one);
        }
        Poly::constant(self.ring, one)
    }

    fn add(&self, lhs: Poly<R>, rhs: Poly<R>) -> (r: Poly<R>) {
        lhs.add(rhs)
    }

    fn neg(&self, elem: Poly<R>) -> (r: Poly<R>) {
        elem.neg()
    }

    fn mul(&self, lhs: Poly<R>, rhs: Poly<R>) -> (r: Poly<R>) {
        lhs.mul(rhs)
    }

    fn can_mul(&self, lhs: &Poly<R>, rhs: &Poly<R>) -> (r: bool) {
        lhs.can_mul(rhs)
    }

    fn id(&self, elem: &Poly<R>) -> (r: Poly<R>) {
        elem.clone()
    }

    fn equal(&self, lhs: &Poly<R>, rhs: &Poly<R>) -> (r: bool) {
        lhs.eq(rhs)
    }

    fn copy_elem(&self, elem: &Poly<R>) -> (r: Poly<R>) {
        elem.clone()
    }
}

impl<R: CommutativeRing> CommutativeRing for PolynomialRing<R> {
    proof fn lemma_identities_valid(&self) {
        let r = self.coefficients();
        r.lemma_identities_valid();
        lemma_trim_valid(r, seq![r.one_v()]);
    }

    proof fn lemma_closed(&self, a: Seq<Val<R>>, b: Seq<Val<R>>) {
        let r = self.coefficients();
        self.lemma_identities_valid();
        lemma_add_coef(r, a, b);
        lemma_neg_coef(r, a);
        lemma_mul_coef(r, a, b);
    }

    proof fn lemma_add_assoc(&self, a: Seq<Val<R>>, b: Seq<Val<R>>, c: Seq<Val<R>>) {
        law_add_associative(self.coefficients(), a, b, c);
    }

    proof fn lemma_add_comm(&self, a: Seq<Val<R>>, b: Seq<Val<R>>) {
        law_add_commutative(self.coefficients(), a, b);
    }

    proof fn lemma_add_zero(&self, a: Seq<Val<R>>) {
        law_add_zero(self.coefficients(), a);
    }

    proof fn lemma_add_neg(&self, a: Seq<Val<R>>) {
        law_add_inverse(self.coefficients(), a);
    }

    proof fn lemma_mul_assoc(&self, a: Seq<Val<R>>, b: Seq<Val<R>>, c: Seq<Val<R>>) {
        law_mul_associative(self.coefficients(), a, b, c);
    }

    proof fn lemma_mul_comm(&self, a: Seq<Val<R>>, b: Seq<Val<R>>) {
        law_mul_commutative(self.coefficients(), a, b);
    }

    proof fn lemma_mul_one(&self, a: Seq<Val<R>>) {
        law_mul_one(self.coefficients(), a);
    }

    proof fn lemma_distrib(&self, a: Seq<Val<R>>, b: Seq<Val<R>>, c: Seq<Val<R>>) {
        law_distributive(self.coefficients(), a, b, c);
    }
}

/// Division with remainder over a field is unique: from `q1 * d + r1 ==
/// q2 * d + r2` with both remainders of lower degree than `d`, the quotients
/// and the remainders agree.
pub proof fn lemma_division_unique<F: Field>(
    f: F,
    d: Seq<Val<F>>,
    q1: Seq<Val<F>>,
    r1: Seq<Val<F>>,
    q2: Seq<Val<F>>,
    r2: Seq<Val<F>>,
)
    requires
        f.wf(),
        canonical(f, d),
        canonical(f, q1),
        canonical(f, r1),
        canonical(f, q2),
        canonical(f, r2),
        d.len() > 0,
        r1.len() < d.len(),
        r2.len() < d.len(),
        add_seq(f, mul_seq(f, q1, d), r1) == add_seq(f, mul_seq(f, q2, d), r2),
    ensures
        q1 == q2,
        r1 == r2,
{
    let pr = PolynomialRing { ring: f };
    let z = Seq::<Val<F>>::empty();
    pr.lemma_identities_valid();
    let a = mul_seq(f, q1, d);
    let b = mul_seq(f, q2, d);
    let nq2 = neg_seq(f, q2);
    let nb = neg_seq(f, b);
    let nr1 = neg_seq(f, r1);
    pr.lemma_closed(q1, d);
    pr.lemma_closed(q2, d);
    pr.lemma_closed(b, b);
    pr.lemma_closed(r1, r1);
    pr.lemma_closed(q2, q2);
    pr.lemma_closed(q1, nq2);
    pr.lemma_closed(a, nb);
    pr.lemma_closed(r2, nr1);
    pr.lemma_closed(nb, r1);
    pr.lemma_closed(a, r1);
    pr.lemma_closed(b, r2);
    pr.lemma_closed(r2, b);
    let e = add_seq(f, q1, nq2);
    // e * d == a + (-b)
    lemma_distrib_right(pr, d, q1, nq2);
    lemma_neg_mul(pr, q2, d);
    // (a + (-b)) + r1 == r2
    pr.lemma_add_assoc(a, nb, r1);
    pr.lemma_add_comm(nb, r1);
    pr.lemma_add_assoc(a, r1, nb);
    pr.lemma_add_comm(b, r2);
    pr.lemma_add_assoc(r2, b, nb);
    pr.lemma_add_neg(b);
    pr.lemma_add_zero(r2);
    // (r2 + (-r1)) + r1 == r2
    pr.lemma_add_assoc(r2, nr1, r1);
    pr.lemma_add_comm(nr1, r1);
    pr.lemma_add_neg(r1);
    let lhs = add_seq(f, a, nb);
    let rhs = add_seq(f, r2, nr1);
    pr.lemma_closed(lhs, r1);
    pr.lemma_add_comm(lhs, r1);
    pr.lemma_add_comm(rhs, r1);
    lemma_add_cancel(pr, r1, lhs, rhs);
    // the right side is of lower degree than d
    lemma_trim(f, r1.map_values(|v: Val<F>| f.neg_v(v)));
    lemma_trim(f, add_raw(f, r2, nr1));
    if e.len() > 0 {
        pr.lemma_closed(e, d);
        lemma_mul_len(f, e, d);
        assert(false);
    }
    assert(e =~= z);
    // q1 + (-q2) == 0, so q2 == -(-q2) == -(-q1)... == q1
    lemma_neg_unique(pr, q1, nq2);
    pr.lemma_closed(nq2, q2);
    pr.lemma_add_comm(nq2, q2);
    pr.lemma_add_neg(q2);
    lemma_neg_unique(pr, nq2, q2);
    let nq1 = neg_seq(f, q1);
    pr.lemma_closed(q1, q1);
    pr.lemma_add_comm(nq1, q1);
    pr.lemma_add_neg(q1);
    pr.lemma_closed(nq1, q1);
    lemma_neg_unique(pr, nq1, q1);
    assert(q1 == q2);
    lemma_add_cancel(pr, a, r1, r2);
}

/// The values of `lemma_pdiv` from a zero quotient.
proof fn lemma_pdiv_from_zero<F: Field>(f: F, x: Seq<Val<F>>, d: Seq<Val<F>>)
    requires
        f.wf(),
        canonical(f, x),
        canonical(f, d),
        d.len() > 0,
    ensures
        canonical(f, pdiv(f, Seq::empty(), x, d).0),
        canonical(f, pdiv(f, Seq::empty(), x, d).1),
        pdiv(f, Seq::empty(), x, d).1.len() < d.len(),
        add_seq(f, mul_seq(f, pdiv(f, Seq::empty(), x, d).0, d), pdiv(f, Seq::empty(), x, d).1)
            == x,
{
    let pr = PolynomialRing { ring: f };
    pr.lemma_identities_valid();
    lemma_pdiv(f, Seq::empty(), x, d);
    assert(mul_seq(f, Seq::empty(), d) == Seq::<Val<F>>::empty());
    pr.lemma_add_comm(Seq::empty(), x);
    pr.lemma_add_zero(x);
}

/// A nonzero polynomial divides itself with remainder zero.
pub proof fn lemma_rem_self<F: Field>(f: F, y: Seq<Val<F>>)
    requires
        f.wf(),
        canonical(f, y),
        y.len() > 0,
    ensures
        pdiv(f, Seq::empty(), y, y).1 == Seq::<Val<F>>::empty(),
{
    let pr = PolynomialRing { ring: f };
    let o = pr.one_v();
    pr.lemma_identities_valid();
    lemma_pdiv_from_zero(f, y, y);
    pr.lemma_mul_comm(o, y);
    pr.lemma_mul_one(y);
    pr.lemma_closed(o, y);
    pr.lemma_add_zero(y);
    let (q, r) = pdiv(f, Seq::empty(), y, y);
    lemma_division_unique(f, y, q, r, o, Seq::empty());
}

/// If `d` divides `y` and the remainder of `x` by `y`, it divides `x`.
pub proof fn lemma_rem_chain<F: Field>(f: F, x: Seq<Val<F>>, y: Seq<Val<F>>, d: Seq<Val<F>>)
    requires
        f.wf(),
        canonical(f, x),
        canonical(f, y),
        canonical(f, d),
        y.len() > 0,
        d.len() > 0,
        pdiv(f, Seq::empty(), y, d).1 == Seq::<Val<F>>::empty(),
        pdiv(f, Seq::empty(), pdiv(f, Seq::empty(), x, y).1, d).1 == Seq::<Val<F>>::empty(),
    ensures
        pdiv(f, Seq::empty(), x, d).1 == Seq::<Val<F>>::empty(),
{
    let pr = PolynomialRing { ring: f };
    let z = Seq::<Val<F>>::empty();
    pr.lemma_identities_valid();
    let (q, r) = pdiv(f, z, x, y);
    lemma_pdiv_from_zero(f, x, y);
    let (qy, ry) = pdiv(f, z, y, d);
    lemma_pdiv_from_zero(f, y, d);
    let (qr, rr) = pdiv(f, z, r, d);
    lemma_pdiv_from_zero(f, r, d);
    pr.lemma_closed(qy, d);
    pr.lemma_closed(qr, d);
    pr.lemma_add_zero(mul_seq(f, qy, d));
    pr.lemma_add_zero(mul_seq(f, qr, d));
    // x == q * (qy * d) + qr * d == (q * qy + qr) * d
    pr.lemma_mul_assoc(q, qy, d);
    pr.lemma_closed(q, qy);
    let big = add_seq(f, mul_seq(f, q, qy), qr);
    lemma_distrib_right(pr, d, mul_seq(f, q, qy), qr);
    pr.lemma_closed(mul_seq(f, q, qy), qr);
    pr.lemma_closed(big, d);
    pr.lemma_add_zero(mul_seq(f, big, d));
    let (qx, rx) = pdiv(f, z, x, d);
    lemma_pdiv_from_zero(f, x, d);
    lemma_division_unique(f, d, qx, rx, big, z);
}

} // verus!
