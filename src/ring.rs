//! The algebraic interfaces: rings, their laws, and fields.
use vstd::prelude::*;

verus! {

/// The mathematical value of an element of the ring `R`.
pub type Val<R> = <<R as Ring>::Element as View>::V;

/// A ring: a value that says how to compute with elements of a type.
///
/// Each operation is described by a spec function over the values of the
/// elements; the exec operations compute exactly those. Elements that an
/// operation accepts are the canonical ones: `elem_ok` holds of them.
pub trait Ring: Sized + Copy {
    type Element: View;

    /// The ring value is usable (for instance: its modulus is positive).
    spec fn wf(&self) -> bool;

    /// `e` is an element of this ring in canonical form.
    spec fn elem_ok(&self, e: &Self::Element) -> bool;

    /// `v` is the value of a canonical element.
    spec fn valid(&self, v: Val<Self>) -> bool;

    /// `e` can be brought into canonical form by `id`.
    spec fn admits(&self, e: &Self::Element) -> bool;

    spec fn zero_v(&self) -> Val<Self>;

    spec fn one_v(&self) -> Val<Self>;

    spec fn add_v(&self, a: Val<Self>, b: Val<Self>) -> Val<Self>;

    spec fn neg_v(&self, a: Val<Self>) -> Val<Self>;

    spec fn mul_v(&self, a: Val<Self>, b: Val<Self>) -> Val<Self>;

    /// The product of `a` and `b` can be held in memory: always, but for
    /// polynomials whose product would have more than `usize::MAX` coefficients.
    spec fn mul_ok(&self, a: Val<Self>, b: Val<Self>) -> bool;

    spec fn id_v(&self, a: Val<Self>) -> Val<Self>;

    /// A canonical element has a valid value, and `id` accepts it.
    proof fn lemma_elem_valid(&self, e: &Self::Element)
        requires
            self.wf(),
            self.elem_ok(e),
        ensures
            self.valid(e@),
            self.admits(e),
    ;

    fn zero(&self) -> (r: Self::Element)
        requires
            self.wf(),
        ensures
            self.elem_ok(&r),
            r@ == self.zero_v(),
    ;

    fn one(&self) -> (r: Self::Element)
        requires
            self.wf(),
        ensures
            self.elem_ok(&r),
            r@ == self.one_v(),
    ;

    fn add(&self, lhs: Self::Element, rhs: Self::Element) -> (r: Self::Element)
        requires
            self.wf(),
            self.elem_ok(&lhs),
            self.elem_ok(&rhs),
        ensures
            self.elem_ok(&r),
            r@ == self.add_v(lhs@, rhs@),
    ;

    fn neg(&self, elem: Self::Element) -> (r: Self::Element)
        requires
            self.wf(),
            self.elem_ok(&elem),
        ensures
            self.elem_ok(&r),
            r@ == self.neg_v(elem@),
    ;

    fn mul(&self, lhs: Self::Element, rhs: Self::Element) -> (r: Self::Element)
        requires
            self.wf(),
            self.elem_ok(&lhs),
            self.elem_ok(&rhs),
            self.mul_ok(lhs@, rhs@),
        ensures
            self.elem_ok(&r),
            r@ == self.mul_v(lhs@, rhs@),
    ;

    /// Whether the product of `lhs` and `rhs` can be held in memory.
    fn can_mul(&self, lhs: &Self::Element, rhs: &Self::Element) -> (r: bool)
        requires
            self.wf(),
            self.elem_ok(lhs),
            self.elem_ok(rhs),
        ensures
            r == self.mul_ok(lhs@, rhs@),
    ;

    /// `lhs - rhs`, that is `lhs + (-rhs)`.
    fn sub(&self, lhs: Self::Element, rhs: Self::Element) -> (r: Self::Element)
        requires
            self.wf(),
            self.elem_ok(&lhs),
            self.elem_ok(&rhs),
        ensures
            self.elem_ok(&r),
            r@ == self.add_v(lhs@, self.neg_v(rhs@)),
    {
        let n = self.neg(rhs);
        self.add(lhs, n)
    }

    /// Canonical form of an element; a canonical element is left as it is.
    fn id(&self, elem: &Self::Element) -> (r: Self::Element)
        requires
            self.wf(),
            self.admits(elem),
        ensures
            self.elem_ok(&r),
            r@ == self.id_v(elem@),
            self.elem_ok(elem) ==> r@ == elem@,
    ;

    /// Whether two canonical elements are equal.
    fn equal(&self, lhs: &Self::Element, rhs: &Self::Element) -> (r: bool)
        requires
            self.wf(),
            self.elem_ok(lhs),
            self.elem_ok(rhs),
        ensures
            r == (lhs@ == rhs@),
    ;

    /// A copy of a canonical element.
    fn copy_elem(&self, elem: &Self::Element) -> (r: Self::Element)
        requires
            self.wf(),
            self.elem_ok(elem),
        ensures
            self.elem_ok(&r),
            r@ == elem@,
    ;
}

/// A commutative ring with identity: the laws that the operations of a
/// `Ring` obey on valid values.
pub trait CommutativeRing: Ring {
    proof fn lemma_identities_valid(&self)
        requires
            self.wf(),
        ensures
            self.valid(self.zero_v()),
            self.valid(self.one_v()),
    ;

    proof fn lemma_closed(&self, a: Val<Self>, b: Val<Self>)
        requires
            self.wf(),
            self.valid(a),
            self.valid(b),
        ensures
            self.valid(self.zero_v()),
            self.valid(self.one_v()),
            self.valid(self.add_v(a, b)),
            self.valid(self.neg_v(a)),
            self.valid(self.mul_v(a, b)),
    ;

    proof fn lemma_add_assoc(&self, a: Val<Self>, b: Val<Self>, c: Val<Self>)
        requires
            self.wf(),
            self.valid(a),
            self.valid(b),
            self.valid(c),
        ensures
            self.add_v(self.add_v(a, b), c) == self.add_v(a, self.add_v(b, c)),
    ;

    proof fn lemma_add_comm(&self, a: Val<Self>, b: Val<Self>)
        requires
            self.wf(),
            self.valid(a),
            self.valid(b),
        ensures
            self.add_v(a, b) == self.add_v(b, a),
    ;

    proof fn lemma_add_zero(&self, a: Val<Self>)
        requires
            self.wf(),
            self.valid(a),
        ensures
            self.add_v(a, self.zero_v()) == a,
    ;

    proof fn lemma_add_neg(&self, a: Val<Self>)
        requires
            self.wf(),
            self.valid(a),
        ensures
            self.add_v(a, self.neg_v(a)) == self.zero_v(),
    ;

    proof fn lemma_mul_assoc(&self, a: Val<Self>, b: Val<Self>, c: Val<Self>)
        requires
            self.wf(),
            self.valid(a),
            self.valid(b),
            self.valid(c),
        ensures
            self.mul_v(self.mul_v(a, b), c) == self.mul_v(a, self.mul_v(b, c)),
    ;

    proof fn lemma_mul_comm(&self, a: Val<Self>, b: Val<Self>)
        requires
            self.wf(),
            self.valid(a),
            self.valid(b),
        ensures
            self.mul_v(a, b) == self.mul_v(b, a),
    ;

    proof fn lemma_mul_one(&self, a: Val<Self>)
        requires
            self.wf(),
            self.valid(a),
        ensures
            self.mul_v(a, self.one_v()) == a,
    ;

    proof fn lemma_distrib(&self, a: Val<Self>, b: Val<Self>, c: Val<Self>)
        requires
            self.wf(),
            self.valid(a),
            self.valid(b),
            self.valid(c),
        ensures
            self.mul_v(a, self.add_v(b, c)) == self.add_v(
                self.mul_v(a, b),
                self.mul_v(a, c),
            ),
    ;
}

/// A field: every element but zero has a multiplicative inverse.
pub trait Field: CommutativeRing {
    /// The inverse of a nonzero value.
    spec fn inv_v(&self, a: Val<Self>) -> Val<Self>;

    /// A nonzero value has an inverse.
    proof fn lemma_inv_v(&self, a: Val<Self>)
        requires
            self.wf(),
            self.valid(a),
            a != self.zero_v(),
        ensures
            self.valid(self.inv_v(a)),
            self.mul_v(a, self.inv_v(a)) == self.one_v(),
    ;

    /// Products of field elements always fit.
    proof fn lemma_mul_ok(&self, a: Val<Self>, b: Val<Self>)
        requires
            self.wf(),
        ensures
            self.mul_ok(a, b),
    ;

    /// The inverse of `elem`, or `None` exactly when `elem` is zero.
    fn inv(&self, elem: Self::Element) -> (r: Option<Self::Element>)
        requires
            self.wf(),
            self.elem_ok(&elem),
        ensures
            r is None <==> elem@ == self.zero_v(),
            r matches Some(i) ==> self.elem_ok(&i) && self.mul_v(elem@, i@) == self.one_v()
                && i@ == self.inv_v(elem@),
    ;

    /// `lhs / rhs`, that is `lhs * rhs⁻¹`; `None` exactly when `rhs` is zero.
    fn div(&self, lhs: Self::Element, rhs: Self::Element) -> (r: Option<Self::Element>)
        requires
            self.wf(),
            self.elem_ok(&lhs),
            self.elem_ok(&rhs),
        ensures
            r is None <==> rhs@ == self.zero_v(),
            r matches Some(q) ==> self.elem_ok(&q) && self.mul_v(q@, rhs@) == lhs@ && q@
                == self.mul_v(lhs@, self.inv_v(rhs@)),
    {
        match self.inv(rhs) {
            None => None,
            Some(i) => {
                proof {
                    self.lemma_mul_ok(lhs@, i@);
                }
                let q = self.mul(lhs, i);
                proof {
                    self.lemma_elem_valid(&lhs);
                    self.lemma_elem_valid(&rhs);
                    self.lemma_elem_valid(&i);
                    self.lemma_mul_assoc(lhs@, i@, rhs@);
                    self.lemma_mul_comm(i@, rhs@);
                    self.lemma_mul_one(lhs@);
                }
                Some(q)
            },
        }
    }
}

/// Addition cancels: `x + y == x + z` implies `y == z`.
pub proof fn lemma_add_cancel<R: CommutativeRing>(r: R, x: Val<R>, y: Val<R>, z: Val<R>)
    requires
        r.wf(),
        r.valid(x),
        r.valid(y),
        r.valid(z),
        r.add_v(x, y) == r.add_v(x, z),
    ensures
        y == z,
{
    let n = r.neg_v(x);
    r.lemma_closed(x, y);
    r.lemma_add_neg(x);
    r.lemma_add_comm(x, n);
    // y == (n + x) + y == n + (x + y)
    r.lemma_add_assoc(n, x, y);
    r.lemma_add_assoc(n, x, z);
    r.lemma_add_comm(r.zero_v(), y);
    r.lemma_add_comm(r.zero_v(), z);
    r.lemma_add_zero(y);
    r.lemma_add_zero(z);
}

/// Multiplying by zero gives zero.
pub proof fn lemma_mul_zero<R: CommutativeRing>(r: R, a: Val<R>)
    requires
        r.wf(),
        r.valid(a),
    ensures
        r.mul_v(a, r.zero_v()) == r.zero_v(),
{
    let z = r.zero_v();
    r.lemma_closed(a, a);
    r.lemma_add_zero(z);
    r.lemma_distrib(a, z, z);
    let m = r.mul_v(a, z);
    r.lemma_closed(a, z);
    r.lemma_add_zero(m);
    lemma_add_cancel(r, m, m, z);
}

/// Multiplication distributes over addition from the right.
pub proof fn lemma_distrib_right<R: CommutativeRing>(r: R, a: Val<R>, b: Val<R>, c: Val<R>)
    requires
        r.wf(),
        r.valid(a),
        r.valid(b),
        r.valid(c),
    ensures
        r.mul_v(r.add_v(b, c), a) == r.add_v(r.mul_v(b, a), r.mul_v(c, a)),
{
    r.lemma_closed(b, c);
    r.lemma_mul_comm(r.add_v(b, c), a);
    r.lemma_distrib(a, b, c);
    r.lemma_mul_comm(a, b);
    r.lemma_mul_comm(a, c);
}

/// A value that adds to zero with `u` is the negation of `u`.
pub proof fn lemma_neg_unique<R: CommutativeRing>(r: R, u: Val<R>, w: Val<R>)
    requires
        r.wf(),
        r.valid(u),
        r.valid(w),
        r.add_v(u, w) == r.zero_v(),
    ensures
        w == r.neg_v(u),
{
    let n = r.neg_v(u);
    r.lemma_closed(u, w);
    r.lemma_identities_valid();
    r.lemma_add_zero(w);
    r.lemma_add_neg(u);
    r.lemma_add_assoc(w, u, n);
    r.lemma_add_comm(w, u);
    r.lemma_add_comm(r.zero_v(), n);
    r.lemma_add_zero(n);
}

/// `(-u) * a == -(u * a)`.
pub proof fn lemma_neg_mul<R: CommutativeRing>(r: R, u: Val<R>, a: Val<R>)
    requires
        r.wf(),
        r.valid(u),
        r.valid(a),
    ensures
        r.mul_v(r.neg_v(u), a) == r.neg_v(r.mul_v(u, a)),
{
    let n = r.neg_v(u);
    r.lemma_closed(u, a);
    r.lemma_closed(n, a);
    r.lemma_identities_valid();
    lemma_distrib_right(r, a, u, n);
    r.lemma_add_neg(u);
    r.lemma_mul_comm(r.zero_v(), a);
    lemma_mul_zero(r, a);
    lemma_neg_unique(r, r.mul_v(u, a), r.mul_v(n, a));
}

/// `(a + b) + (c + d) == (a + c) + (b + d)`.
pub proof fn lemma_add_swap<R: CommutativeRing>(r: R, a: Val<R>, b: Val<R>, c: Val<R>, d: Val<R>)
    requires
        r.wf(),
        r.valid(a),
        r.valid(b),
        r.valid(c),
        r.valid(d),
    ensures
        r.add_v(r.add_v(a, b), r.add_v(c, d)) == r.add_v(r.add_v(a, c), r.add_v(b, d)),
{
    r.lemma_closed(a, b);
    r.lemma_closed(c, d);
    r.lemma_closed(b, c);
    r.lemma_closed(c, b);
    r.lemma_closed(b, d);
    r.lemma_closed(a, c);
    // (a + b) + (c + d) == a + (b + (c + d)) == a + ((b + c) + d)
    r.lemma_add_assoc(a, b, r.add_v(c, d));
    r.lemma_add_assoc(b, c, d);
    // b + c == c + b
    r.lemma_add_comm(b, c);
    // a + ((c + b) + d) == a + (c + (b + d)) == (a + c) + (b + d)
    r.lemma_add_assoc(c, b, d);
    r.lemma_closed(c, r.add_v(b, d));
    r.lemma_add_assoc(a, c, r.add_v(b, d));
}

/// `(-u) + (-v) == -(u + v)`.
pub proof fn lemma_neg_add<R: CommutativeRing>(r: R, u: Val<R>, v: Val<R>)
    requires
        r.wf(),
        r.valid(u),
        r.valid(v),
    ensures
        r.add_v(r.neg_v(u), r.neg_v(v)) == r.neg_v(r.add_v(u, v)),
{
    let nu = r.neg_v(u);
    let nv = r.neg_v(v);
    r.lemma_closed(u, v);
    r.lemma_closed(v, u);
    r.lemma_closed(nu, nv);
    r.lemma_identities_valid();
    lemma_add_swap(r, u, v, nu, nv);
    r.lemma_add_neg(u);
    r.lemma_add_neg(v);
    r.lemma_add_zero(r.zero_v());
    lemma_neg_unique(r, r.add_v(u, v), r.add_v(nu, nv));
}

/// One step of the extended Euclidean algorithm keeps Bézout's identity:
/// if `s1 * a + t1 * b == x`, `s2 * a + t2 * b == y` and `q * y + rem == x`,
/// then `(s1 - q * s2) * a + (t1 - q * t2) * b == rem`.
pub proof fn lemma_bezout_step<R: CommutativeRing>(
    r: R,
    a: Val<R>,
    b: Val<R>,
    s1: Val<R>,
    t1: Val<R>,
    s2: Val<R>,
    t2: Val<R>,
    q: Val<R>,
    x: Val<R>,
    y: Val<R>,
    rem: Val<R>,
)
    requires
        r.wf(),
        r.valid(a),
        r.valid(b),
        r.valid(s1),
        r.valid(t1),
        r.valid(s2),
        r.valid(t2),
        r.valid(q),
        r.valid(rem),
        r.add_v(r.mul_v(s1, a), r.mul_v(t1, b)) == x,
        r.add_v(r.mul_v(s2, a), r.mul_v(t2, b)) == y,
        r.add_v(r.mul_v(q, y), rem) == x,
    ensures
        r.add_v(
            r.mul_v(r.add_v(s1, r.neg_v(r.mul_v(q, s2))), a),
            r.mul_v(r.add_v(t1, r.neg_v(r.mul_v(q, t2))), b),
        ) == rem,
{
    let qs2 = r.mul_v(q, s2);
    let qt2 = r.mul_v(q, t2);
    let s2a = r.mul_v(s2, a);
    let t2b = r.mul_v(t2, b);
    let s1a = r.mul_v(s1, a);
    let t1b = r.mul_v(t1, b);
    r.lemma_closed(q, s2);
    r.lemma_closed(q, t2);
    r.lemma_closed(s2, a);
    r.lemma_closed(t2, b);
    r.lemma_closed(s1, a);
    r.lemma_closed(t1, b);
    r.lemma_closed(qs2, a);
    r.lemma_closed(qt2, b);
    r.lemma_closed(s1a, t1b);
    r.lemma_closed(s2a, t2b);
    r.lemma_closed(q, s2a);
    r.lemma_closed(q, t2b);
    let n1 = r.neg_v(r.mul_v(q, s2a));
    let n2 = r.neg_v(r.mul_v(q, t2b));
    r.lemma_closed(r.mul_v(q, s2a), r.mul_v(q, t2b));
    r.lemma_closed(r.mul_v(q, t2b), r.mul_v(q, s2a));
    r.lemma_closed(q, y);
    // (s1 - q s2) a == s1 a - q (s2 a)
    lemma_distrib_right(r, a, s1, r.neg_v(qs2));
    lemma_neg_mul(r, qs2, a);
    r.lemma_mul_assoc(q, s2, a);
    lemma_distrib_right(r, b, t1, r.neg_v(qt2));
    lemma_neg_mul(r, qt2, b);
    r.lemma_mul_assoc(q, t2, b);
    // regroup: (s1a + n1) + (t1b + n2) == (s1a + t1b) + (n1 + n2)
    lemma_add_swap(r, s1a, n1, t1b, n2);
    lemma_neg_add(r, r.mul_v(q, s2a), r.mul_v(q, t2b));
    r.lemma_distrib(q, s2a, t2b);
    // x + -(q y) == (q y + rem) + -(q y) == rem
    let qy = r.mul_v(q, y);
    r.lemma_closed(qy, rem);
    r.lemma_add_comm(qy, rem);
    r.lemma_add_assoc(rem, qy, r.neg_v(qy));
    r.lemma_add_neg(qy);
    r.lemma_add_zero(rem);
}

/// A value has at most one inverse.
pub proof fn lemma_inverse_unique<R: CommutativeRing>(r: R, a: Val<R>, s1: Val<R>, s2: Val<R>)
    requires
        r.wf(),
        r.valid(a),
        r.valid(s1),
        r.valid(s2),
        r.mul_v(a, s1) == r.one_v(),
        r.mul_v(a, s2) == r.one_v(),
    ensures
        s1 == s2,
{
    r.lemma_identities_valid();
    // s1 == s1 * (a * s2) == (s1 * a) * s2 == s2
    r.lemma_mul_one(s1);
    r.lemma_mul_assoc(s1, a, s2);
    r.lemma_mul_comm(s1, a);
    r.lemma_mul_comm(r.one_v(), s2);
    r.lemma_mul_one(s2);
}

/// A field has no zero divisors: `x * y == 0` with `x != 0` forces `y == 0`.
pub proof fn lemma_no_zero_divisors<F: Field>(f: F, x: Val<F>, y: Val<F>)
    requires
        f.wf(),
        f.valid(x),
        f.valid(y),
        x != f.zero_v(),
        f.mul_v(x, y) == f.zero_v(),
    ensures
        y == f.zero_v(),
{
    let i = f.inv_v(x);
    f.lemma_inv_v(x);
    f.lemma_identities_valid();
    // y == y * (x * i) == (y * x) * i == 0 * i == 0
    f.lemma_mul_one(y);
    f.lemma_mul_assoc(y, x, i);
    f.lemma_mul_comm(y, x);
    f.lemma_mul_comm(f.zero_v(), i);
    lemma_mul_zero(f, i);
}

} // verus!
