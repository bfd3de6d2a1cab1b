//! Euclidean division and the extended Euclidean algorithm.
use crate::arith::{
    lemma_cong_add, lemma_multiple_mod, lemma_word, lemma_wrap_cong, lemma_wrap_eq,
    lemma_wrap_range, word, wrap,
};
use crate::integers::Integers;
use crate::poly_ring::{self, PolynomialRing};
use crate::polynomial::{pdiv, Poly};
use crate::ring::{lemma_bezout_step, lemma_mul_zero, CommutativeRing, Field, Ring, Val};
use vstd::arithmetic::div_mod::*;
use vstd::arithmetic::mul::*;
use vstd::prelude::*;

verus! {

/// A commutative ring with a division with remainder whose remainder is
/// smaller than the divisor.
pub trait EuclideanRing: CommutativeRing {
    /// The measure that division lowers.
    spec fn size(&self, a: Val<Self>) -> nat;

    /// The quotient and remainder that division of `a` by a nonzero `b` gives.
    spec fn div_v(&self, a: Val<Self>, b: Val<Self>) -> (Val<Self>, Val<Self>);

    /// Zero leaves remainder zero.
    proof fn lemma_rem_zero(&self, d: Val<Self>)
        requires
            self.wf(),
            self.valid(d),
            d != self.zero_v(),
        ensures
            self.div_v(self.zero_v(), d).1 == self.zero_v(),
    ;

    /// A nonzero value divides itself with remainder zero.
    proof fn lemma_rem_self(&self, y: Val<Self>)
        requires
            self.wf(),
            self.valid(y),
            y != self.zero_v(),
        ensures
            self.div_v(y, y).1 == self.zero_v(),
    ;

    /// Where `d` leaves remainder zero on `y` and on the remainder of `x` by
    /// `y`, it leaves remainder zero on `x`.
    proof fn lemma_rem_chain(&self, x: Val<Self>, y: Val<Self>, d: Val<Self>)
        requires
            self.wf(),
            self.valid(x),
            self.valid(y),
            self.valid(d),
            y != self.zero_v(),
            d != self.zero_v(),
            self.div_v(y, d).1 == self.zero_v(),
            self.div_v(self.div_v(x, y).1, d).1 == self.zero_v(),
        ensures
            self.div_v(x, d).1 == self.zero_v(),
    ;

    /// The value of the Euclidean function on `a`.
    spec fn euclid_fn(&self, a: Val<Self>) -> Option<usize>;

    /// The Euclidean function: the absolute value of an integer, the degree
    /// of a polynomial.
    fn euclidean_function(&self, elem: &Self::Element) -> (r: Option<usize>)
        requires
            self.wf(),
            self.elem_ok(elem),
        ensures
            r == self.euclid_fn(elem@),
    ;

    /// `Some((q, r))` with `a == q * b + r` and `r` zero or smaller than `b`;
    /// `None` exactly when `b` is zero.
    fn euclidean_division(&self, a: Self::Element, b: Self::Element) -> (r: Option<
        (Self::Element, Self::Element),
    >)
        requires
            self.wf(),
            self.elem_ok(&a),
            self.elem_ok(&b),
        ensures
            r is None <==> b@ == self.zero_v(),
            r matches Some((q, rem)) ==> {
                &&& (q@, rem@) == self.div_v(a@, b@)
                &&& self.elem_ok(&q)
                &&& self.elem_ok(&rem)
                &&& self.add_v(self.mul_v(q@, b@), rem@) == a@
                &&& (rem@ == self.zero_v() || self.size(rem@) < self.size(b@))
            },
    ;
}

/// The iteration of the extended Euclidean algorithm from the remainders
/// `x`, `y` and the coefficients `(s1, t1)`, `(s2, t2)` of `x` and `y`: the
/// last nonzero remainder with its coefficients.
pub open spec fn eea_loop<E: EuclideanRing>(
    ring: E,
    x: Val<E>,
    y: Val<E>,
    s1: Val<E>,
    s2: Val<E>,
    t1: Val<E>,
    t2: Val<E>,
) -> (Val<E>, Val<E>, Val<E>)
    decreases ring.size(y),
{
    let (q, r) = ring.div_v(x, y);
    if r == ring.zero_v() || !(ring.size(r) < ring.size(y)) {
        (y, s2, t2)
    } else {
        eea_loop(
            ring,
            y,
            r,
            s2,
            ring.add_v(s1, ring.neg_v(ring.mul_v(q, s2))),
            t2,
            ring.add_v(t1, ring.neg_v(ring.mul_v(q, t2))),
        )
    }
}

/// What the extended Euclidean algorithm computes: `None` when both inputs
/// are zero; `(a, 1, 0)` when `b` is zero; `(b, 0, 1)` when `b` divides `a`
/// with remainder zero; otherwise the iteration from `(a, b)`.
pub open spec fn eea_v<E: EuclideanRing>(ring: E, a: Val<E>, b: Val<E>) -> Option<
    (Val<E>, Val<E>, Val<E>),
> {
    if a == ring.zero_v() && b == ring.zero_v() {
        None
    } else if b == ring.zero_v() {
        Some((a, ring.one_v(), ring.zero_v()))
    } else if ring.div_v(a, b).1 == ring.zero_v() {
        Some((b, ring.zero_v(), ring.one_v()))
    } else {
        Some(
            eea_loop(ring, a, b, ring.one_v(), ring.zero_v(), ring.zero_v(), ring.one_v()),
        )
    }
}

/// The absolute value of `x`.
pub open spec fn abs(x: int) -> nat {
    if x < 0 {
        (-x) as nat
    } else {
        x as nat
    }
}

/// `|x|`, which always fits in `usize`.
pub fn magnitude(x: isize) -> (r: usize)
    ensures
        r as int == abs(x as int),
{
    if x >= 0 {
        x as usize
    } else if x == isize::MIN {
        proof {
            lemma_word();
        }
        (isize::MAX as usize) + 1
    } else {
        (-x) as usize
    }
}

impl EuclideanRing for Integers {
    /// `div_euclid` and `rem_euclid`; the quotient `isize::MIN / -1` wraps.
    open spec fn div_v(&self, a: isize, b: isize) -> (isize, isize) {
        (
            if a == isize::MIN && b == -1 {
                isize::MIN
            } else {
                ((a as int) / (b as int)) as isize
            },
            ((a as int) % (b as int)) as isize,
        )
    }

    open spec fn size(&self, a: isize) -> nat {
        abs(a as int)
    }

    open spec fn euclid_fn(&self, a: isize) -> Option<usize> {
        Some(abs(a as int) as usize)
    }

    proof fn lemma_rem_zero(&self, d: isize) {
        lemma_multiple_mod(d as int, 0);
    }

    proof fn lemma_rem_self(&self, y: isize) {
        lemma_multiple_mod(y as int, 1);
    }

    proof fn lemma_rem_chain(&self, x: isize, y: isize, d: isize) {
        let (xi, yi, di) = (x as int, y as int, d as int);
        let r = xi % yi;
        lemma_fundamental_div_mod(xi, yi);
        lemma_fundamental_div_mod(yi, di);
        lemma_fundamental_div_mod(r, di);
        assert(r == self.div_v(x, y).1);
        let k = (yi / di) * (xi / yi) + r / di;
        assert(xi == di * k) by (nonlinear_arith)
            requires
                xi == yi * (xi / yi) + r,
                yi == di * (yi / di),
                r == di * (r / di),
                k == (yi / di) * (xi / yi) + r / di,
        ;
        lemma_multiple_mod(di, k);
    }

    fn euclidean_function(&self, elem: &isize) -> (r: Option<usize>) {
        Some(magnitude(*elem))
    }

    fn euclidean_division(&self, a: isize, b: isize) -> (r: Option<(isize, isize)>) {
        if b == 0 {
            None
        } else {
            let (q, rem) = div_rem_euclid(a, b);
            proof {
                assert(q == self.div_v(a, b).0);
                assert(rem == self.div_v(a, b).1);
                assert((q@, rem@) == self.div_v(a@, b@));
            }
            Some((q, rem))
        }
    }
}

/// Euclidean division of machine integers: the quotient and the remainder
/// `0 <= r < |b|` with `a == q * b + r`, as `div_euclid` and `rem_euclid`
/// give them. The one quotient that does not fit, `isize::MIN / -1`, wraps
/// around to `isize::MIN` (its remainder is 0).
pub fn div_rem_euclid(a: isize, b: isize) -> (r: (isize, isize))
    requires
        b != 0,
    ensures
        r.1 as int == (a as int) % (b as int),
        0 <= r.1 < abs(b as int),
        !(a == isize::MIN && b == -1) ==> r.0 as int == (a as int) / (b as int) && a as int
            == r.0 * b + r.1,
        a == isize::MIN && b == -1 ==> r.0 == isize::MIN && r.1 == 0,
        wrap(r.0 * b + r.1) == a,
{
    let rem: isize = match a.checked_rem_euclid(b) {
        Some(m) => m,
        None => 0,
    };
    let q: isize = match a.checked_div_euclid(b) {
        Some(d) => d,
        None => isize::MIN,
    };
    proof {
        lemma_word();
        lemma_fundamental_div_mod(a as int, b as int);
        let qi = (a as int) / (b as int);
        let ri = (a as int) % (b as int);
        assert(0 <= ri < abs(b as int));
        if a == isize::MIN && b == -1 {
            assert(rem == 0);
            assert(ri == 0);
            assert((b as int) * qi == -qi);
            assert(qi == -(a as int));
            assert(q == isize::MIN);
            assert(q * b == (isize::MIN as int) * -1);
            lemma_wrap_cong(q * b);
            assert(q * b == -(isize::MIN as int));
            assert(-(isize::MIN as int) == a + word());
            lemma_mod_multiples_vanish(1, a as int, word());
            lemma_wrap_eq(q * b, a as int);
        } else {
            assert(rem == ri);
            let lo = isize::MIN as int;
            let hi = isize::MAX as int;
            let ai = a as int;
            let bi = b as int;
            assert(lo <= qi <= hi) by {
                if bi > 0 {
                    assert(lo <= qi <= hi) by (nonlinear_arith)
                        requires
                            ai == bi * qi + ri,
                            0 <= ri < bi,
                            lo <= ai <= hi,
                            lo == -hi - 1,
                            hi > 0,
                    ;
                } else if bi == -1 {
                    assert(ri == 0);
                    assert(bi * qi == -qi);
                    assert(qi == -ai);
                } else {
                    assert(lo <= qi <= hi) by (nonlinear_arith)
                        requires
                            ai == bi * qi + ri,
                            0 <= ri < -bi,
                            bi <= -2,
                            lo <= ai <= hi,
                            lo == -hi - 1,
                            hi > 0,
                    ;
                }
            }
            assert(q == qi);
            lemma_mul_is_commutative(qi, b as int);
        }
        lemma_wrap_cong(q * b);
        lemma_wrap_range(q * b);
        lemma_cong_add(wrap(q * b), q * b, rem as int, rem as int, word());
        lemma_wrap_eq(wrap(q * b) + rem, q * b + rem);
        assert(wrap(q * b + rem) == a) by {
            lemma_wrap_eq(q * b + rem, a as int);
            crate::arith::lemma_wrap_id(a as int);
        }
    }
    (q, rem)
}

impl<F: Field> EuclideanRing for PolynomialRing<F> {
    proof fn lemma_rem_zero(&self, d: Seq<Val<F>>) {
    }

    proof fn lemma_rem_self(&self, y: Seq<Val<F>>) {
        if y.len() == 0 {
            assert(y =~= Seq::<Val<F>>::empty());
        }
        poly_ring::lemma_rem_self(self.coefficients(), y);
    }

    proof fn lemma_rem_chain(&self, x: Seq<Val<F>>, y: Seq<Val<F>>, d: Seq<Val<F>>) {
        if y.len() == 0 {
            assert(y =~= Seq::<Val<F>>::empty());
        }
        if d.len() == 0 {
            assert(d =~= Seq::<Val<F>>::empty());
        }
        poly_ring::lemma_rem_chain(self.coefficients(), x, y, d);
    }

    open spec fn div_v(&self, a: Seq<Val<F>>, b: Seq<Val<F>>) -> (Seq<Val<F>>, Seq<Val<F>>) {
        pdiv(self.coefficients(), Seq::empty(), a, b)
    }

    open spec fn size(&self, a: Seq<Val<F>>) -> nat {
        a.len()
    }

    open spec fn euclid_fn(&self, a: Seq<Val<F>>) -> Option<usize> {
        if a.len() == 0 {
            None
        } else {
            Some((a.len() - 1) as usize)
        }
    }

    fn euclidean_function(&self, elem: &Poly<F>) -> (r: Option<usize>) {
        elem.deg()
    }

    fn euclidean_division(&self, a: Poly<F>, b: Poly<F>) -> (r: Option<(Poly<F>, Poly<F>)>) {
        proof {
            if b@.len() == 0 {
                assert(b@ =~= Seq::<Val<F>>::empty());
            }
        }
        a.polynomial_division(b)
    }
}

/// The extended Euclidean algorithm: `Some((g, s, t))` with `s * a + t * b == g`,
/// where `g` is the last nonzero remainder of iterated Euclidean division
/// (`eea_v` states the steps), so that `a` and `b` both leave remainder zero
/// on division by `g`.
///
/// The result is `None` when `a` and `b` are both zero. It is also `None` when
/// a product on the way could not be held in memory, which never happens in
/// a ring whose products always fit (all but polynomial rings).
pub fn extended_euclidean<E: EuclideanRing>(ring: E, a: E::Element, b: E::Element) -> (r: Option<
    (E::Element, E::Element, E::Element),
>)
    requires
        ring.wf(),
        ring.elem_ok(&a),
        ring.elem_ok(&b),
    ensures
        a@ == ring.zero_v() && b@ == ring.zero_v() ==> r is None,
        a@ != ring.zero_v() && b@ == ring.zero_v() ==> (r matches Some((g, s, t)) && g@ == a@ && s@
            == ring.one_v() && t@ == ring.zero_v()),
        b@ != ring.zero_v() && ring.div_v(a@, b@).1 == ring.zero_v() ==> (r matches Some((g, s, t))
            && g@ == b@ && s@ == ring.zero_v() && t@ == ring.one_v()),
        r matches Some((g, s, t)) ==> eea_v(ring, a@, b@) == Some((g@, s@, t@)),
        (forall|x: Val<E>, y: Val<E>| ring.mul_ok(x, y)) && !(a@ == ring.zero_v() && b@
            == ring.zero_v()) ==> r is Some,
        r matches Some((g, s, t)) ==> {
            &&& ring.elem_ok(&g)
            &&& ring.elem_ok(&s)
            &&& ring.elem_ok(&t)
            &&& ring.add_v(ring.mul_v(s@, a@), ring.mul_v(t@, b@)) == g@
            &&& g@ != ring.zero_v()
            &&& ring.div_v(a@, g@).1 == ring.zero_v()
            &&& ring.div_v(b@, g@).1 == ring.zero_v()
        },
{
    let zero = ring.zero();
    let one = ring.one();
    let ghost av = a@;
    let ghost bv = b@;
    proof {
        ring.lemma_identities_valid();
        ring.lemma_elem_valid(&a);
        ring.lemma_elem_valid(&b);
        ring.lemma_closed(av, bv);
        ring.lemma_mul_comm(ring.one_v(), av);
        ring.lemma_mul_one(av);
        ring.lemma_mul_comm(ring.one_v(), bv);
        ring.lemma_mul_one(bv);
        ring.lemma_mul_comm(ring.zero_v(), av);
        lemma_mul_zero(ring, av);
        ring.lemma_mul_comm(ring.zero_v(), bv);
        lemma_mul_zero(ring, bv);
        ring.lemma_add_zero(av);
        ring.lemma_add_comm(ring.zero_v(), bv);
        ring.lemma_add_zero(bv);
    }
    let a_zero = ring.equal(&a, &zero);
    let b_zero = ring.equal(&b, &zero);
    if a_zero && b_zero {
        return None;
    }
    if b_zero {
        proof {
            ring.lemma_rem_self(av);
            ring.lemma_rem_zero(av);
        }
        return Some((a, one, zero));
    }
    let first = ring.euclidean_division(ring.copy_elem(&a), ring.copy_elem(&b));
    match first {
        None => {
            return None;
        },
        Some((q0, rem)) => {
            if ring.equal(&rem, &zero) {
                let z = ring.zero();
                let o = ring.one();
                proof {
                    ring.lemma_rem_self(bv);
                }
                return Some((b, z, o));
            }
        },
    }
    let mut x = a;
    let mut y = b;
    let mut s1 = ring.one();
    let mut s2 = ring.zero();
    let mut t1 = ring.zero();
    let mut t2 = ring.one();
    loop
        invariant
            ring.wf(),
            av == a@,
            bv == b@,
            !(av == ring.zero_v() && bv == ring.zero_v()),
            bv != ring.zero_v(),
            ring.valid(av),
            ring.valid(bv),
            ring.elem_ok(&zero),
            zero@ == ring.zero_v(),
            ring.elem_ok(&x),
            ring.elem_ok(&y),
            ring.elem_ok(&s1),
            ring.elem_ok(&s2),
            ring.elem_ok(&t1),
            ring.elem_ok(&t2),
            y@ != ring.zero_v(),
            ring.add_v(ring.mul_v(s1@, av), ring.mul_v(t1@, bv)) == x@,
            ring.add_v(ring.mul_v(s2@, av), ring.mul_v(t2@, bv)) == y@,
            forall|d: Val<E>|
                ring.valid(d) && d != ring.zero_v() && #[trigger] ring.div_v(x@, d).1
                    == ring.zero_v() && ring.div_v(y@, d).1 == ring.zero_v() ==> ring.div_v(av, d).1
                    == ring.zero_v() && ring.div_v(bv, d).1 == ring.zero_v(),
            eea_v(ring, av, bv) == Some(eea_loop(ring, x@, y@, s1@, s2@, t1@, t2@)),
            ring.div_v(av, bv).1 != ring.zero_v(),
        decreases ring.size(y@),
    {
        let (q, r) = match ring.euclidean_division(ring.copy_elem(&x), ring.copy_elem(&y)) {
            Some(qr) => qr,
            None => {
                return None;
            },
        };
        proof {
            ring.lemma_elem_valid(&q);
            ring.lemma_elem_valid(&r);
            ring.lemma_elem_valid(&x);
            ring.lemma_elem_valid(&y);
        }
        if ring.equal(&r, &zero) {
            proof {
                ring.lemma_rem_self(y@);
                assert(ring.div_v(x@, y@).1 == ring.zero_v());
            }
            return Some((y, s2, t2));
        }
        if !ring.can_mul(&q, &s2) || !ring.can_mul(&q, &t2) {
            return None;
        }
        proof {
            ring.lemma_elem_valid(&q);
            ring.lemma_elem_valid(&r);
            ring.lemma_elem_valid(&s1);
            ring.lemma_elem_valid(&s2);
            ring.lemma_elem_valid(&t1);
            ring.lemma_elem_valid(&t2);
            lemma_bezout_step(ring, av, bv, s1@, t1@, s2@, t2@, q@, x@, y@, r@);
        }
        let qs = ring.mul(ring.copy_elem(&q), ring.copy_elem(&s2));
        let s = ring.sub(s1, qs);
        let qt = ring.mul(q, ring.copy_elem(&t2));
        let t = ring.sub(t1, qt);
        s1 = s2;
        s2 = s;
        t1 = t2;
        t2 = t;
        proof {
            assert forall|d: Val<E>|
                ring.valid(d) && d != ring.zero_v() && #[trigger] ring.div_v(y@, d).1
                    == ring.zero_v() && ring.div_v(r@, d).1 == ring.zero_v() implies ring.div_v(
                av,
                d,
            ).1 == ring.zero_v() && ring.div_v(bv, d).1 == ring.zero_v() by {
                ring.lemma_rem_chain(x@, y@, d);
            }
        }
        x = y;
        y = r;
    }
}

/// Every positive common divisor of `x` and `y` divides `a` and `b`, and
/// the other way round.
pub open spec fn same_divisors(x: int, y: int, a: int, b: int) -> bool {
    forall|d: int| d > 0 ==> #[trigger] common_divisor(d, x, y) == common_divisor(d, a, b)
}

/// `d` divides both `x` and `y`.
pub open spec fn common_divisor(d: int, x: int, y: int) -> bool {
    x % d == 0 && y % d == 0
}

/// The extended Euclidean algorithm on machine integers, step for step as
/// `extended_euclidean` runs it over `Integers`: the last nonzero remainder
/// `y` of iterated Euclidean division, and `s`, `t` with `s * a + t * b == y`
/// in two's complement arithmetic. The remainders are exact integers.
fn eea_steps(a: isize, b: isize) -> (r: (isize, isize, isize))
    requires
        !(a == 0 && b == 0),
    ensures
        r.0 != 0,
        same_divisors(r.0 as int, r.0 as int, a as int, b as int),
        Integers.add_v(Integers.mul_v(r.1, a), Integers.mul_v(r.2, b)) == r.0,
        eea_v(Integers, a, b) == Some(r),
{
    let ring = Integers;
    proof {
        lemma_word();
        crate::arith::lemma_wrap_id(a as int);
        crate::arith::lemma_wrap_id(b as int);
        crate::arith::lemma_wrap_id(0);
        assert(ring.mul_v(1, a) == a);
        assert(ring.mul_v(0, b) == 0);
        assert(ring.mul_v(0, a) == 0);
        assert(ring.mul_v(1, b) == b);
    }
    if b == 0 {
        proof {
            assert forall|d: int| d > 0 implies #[trigger] common_divisor(d, a as int, a as int)
                == common_divisor(d, a as int, b as int) by {
                vstd::arithmetic::div_mod::lemma_mod_self_0(d);
                vstd::arithmetic::div_mod::lemma_small_mod(0, d as nat);
            }
            assert(ring.add_v(ring.mul_v(1, a), ring.mul_v(0, b)) == a);
        }
        return (a, 1, 0);
    }
    let (q0, r0) = div_rem_euclid(a, b);
    proof {
        assert(r0 == ring.div_v(a, b).1);
    }
    if r0 == 0 {
        proof {
            assert forall|d: int| d > 0 implies #[trigger] common_divisor(d, b as int, b as int)
                == common_divisor(d, a as int, b as int) by {
                if (b as int) % d == 0 {
                    lemma_fundamental_div_mod(a as int, b as int);
                    crate::modular::lemma_divides_combination(d, (a as int) / (b as int), b as int, 0);
                    lemma_mul_is_commutative((a as int) / (b as int), b as int);
                }
            }
            assert(ring.add_v(ring.mul_v(0, a), ring.mul_v(1, b)) == b);
        }
        return (b, 0, 1);
    }
    let mut x: isize = a;
    let mut y: isize = b;
    let mut s1: isize = 1;
    let mut s2: isize = 0;
    let mut t1: isize = 0;
    let mut t2: isize = 1;
    proof {
        assert(ring.add_v(ring.mul_v(s1, a), ring.mul_v(t1, b)) == x);
        assert(ring.add_v(ring.mul_v(s2, a), ring.mul_v(t2, b)) == y);
    }
    loop
        invariant
            !(a == 0 && b == 0),
            y != 0,
            same_divisors(x as int, y as int, a as int, b as int),
            ring.add_v(ring.mul_v(s1, a), ring.mul_v(t1, b)) == x,
            ring.add_v(ring.mul_v(s2, a), ring.mul_v(t2, b)) == y,
            ring.div_v(a, b).1 != 0,
            b != 0,
            eea_v(ring, a, b) == Some(eea_loop(ring, x, y, s1, s2, t1, t2)),
        decreases abs(y as int),
    {
        let (q, r) = div_rem_euclid(x, y);
        proof {
            assert(q == ring.div_v(x, y).0);
            assert(r == ring.div_v(x, y).1);
        }
        if r == 0 {
            proof {
                assert forall|d: int| d > 0 implies #[trigger] common_divisor(d, y as int, y as int)
                    == common_divisor(d, a as int, b as int) by {
                    if (y as int) % d == 0 {
                        lemma_fundamental_div_mod(x as int, y as int);
                        crate::modular::lemma_divides_combination(
                            d,
                            (x as int) / (y as int),
                            y as int,
                            0,
                        );
                        lemma_mul_is_commutative((x as int) / (y as int), y as int);
                        assert((x as int) % d == 0);
                    }
                    assert(common_divisor(d, x as int, y as int) == common_divisor(
                        d,
                        a as int,
                        b as int,
                    ));
                }
            }
            return (y, s2, t2);
        }
        proof {
            // x == q * y + r exactly: the one inexact quotient leaves no remainder
            assert(x as int == q * y + r);
            assert forall|d: int| d > 0 implies #[trigger] common_divisor(d, y as int, r as int)
                == common_divisor(d, a as int, b as int) by {
                if (y as int) % d == 0 && (r as int) % d == 0 {
                    crate::modular::lemma_divides_combination(d, q as int, y as int, r as int);
                }
                if (x as int) % d == 0 && (y as int) % d == 0 {
                    crate::modular::lemma_divides_combination(d, -q, y as int, x as int);
                    assert(-q * y + x == r as int) by (nonlinear_arith)
                        requires
                            x == q * y + r,
                    ;
                }
                assert(common_divisor(d, x as int, y as int) == common_divisor(
                    d,
                    a as int,
                    b as int,
                ));
            }
            lemma_wrap_cong(q * y);
            lemma_wrap_range(q * y);
            lemma_cong_add(wrap(q * y), q * y, r as int, r as int, word());
            lemma_wrap_eq(wrap(q * y) + r, q * y + r);
            assert(ring.add_v(ring.mul_v(q, y), r) == x);
            lemma_bezout_step(ring, a, b, s1, t1, s2, t2, q, x, y, r);
        }
        let qs = ring.mul(q, s2);
        let s = ring.sub(s1, qs);
        let qt = ring.mul(q, t2);
        let t = ring.sub(t1, qt);
        s1 = s2;
        s2 = s;
        t1 = t2;
        t2 = t;
        x = y;
        y = r;
    }
}

/// The result over `Integers` with the gcd made non-negative: `|g|`, and `s`
/// and `t` negated where `g` is negative.
pub open spec fn normalized(v: (isize, isize, isize)) -> (usize, isize, isize) {
    if v.0 < 0 {
        (abs(v.0 as int) as usize, Integers.neg_v(v.1), Integers.neg_v(v.2))
    } else {
        (v.0 as usize, v.1, v.2)
    }
}

/// The extended Euclidean algorithm on machine integers, with the gcd made
/// positive: `Some((g, s, t))` where `g` is the greatest common divisor of
/// `a` and `b` and `s * a + t * b == g` in two's complement arithmetic (the
/// identity of the integers whenever no product on the way overflows);
/// `None` exactly when `a` and `b` are both zero. It takes the same steps
/// as `extended_euclidean` over `Integers` and negates `s` and `t` where the
/// last remainder is negative.
pub fn extended_euclidean_int(a: isize, b: isize) -> (r: Option<(usize, isize, isize)>)
    ensures
        r is None <==> a == 0 && b == 0,
        r matches Some((g, s, t)) ==> {
            &&& g > 0
            &&& (a as int) % (g as int) == 0
            &&& (b as int) % (g as int) == 0
            &&& forall|d: int|
                d > 0 && (a as int) % d == 0 && (b as int) % d == 0 ==> #[trigger] ((g as int)
                    % d) == 0
            &&& wrap(s * a + t * b) == wrap(g as int)
        },
        r == match eea_v(Integers, a, b) {
            Some(v) => Some(normalized(v)),
            None => None,
        },
{
    if a == 0 && b == 0 {
        return None;
    }
    let ring = Integers;
    let (g, s, t) = eea_steps(a, b);
    let m = magnitude(g);
    proof {
        let gi = g as int;
        let mi = m as int;
        // |g| divides g, so it divides a and b; a common divisor of a and b divides g, so |g|
        assert(gi % mi == 0) by {
            if gi < 0 {
                lemma_mod_multiples_basic(-1, mi);
                assert(mi * -1 == gi);
                lemma_mul_is_commutative(mi, -1);
            } else {
                lemma_mod_self_0(mi);
            }
        }
        assert(same_divisors(gi, gi, a as int, b as int));
        assert(common_divisor(mi, gi, gi) == common_divisor(mi, a as int, b as int));
        assert forall|d: int| d > 0 && (a as int) % d == 0 && (b as int) % d == 0 implies #[trigger] (
        mi % d) == 0 by {
            assert(common_divisor(d, gi, gi) == common_divisor(d, a as int, b as int));
            if gi < 0 {
                crate::modular::lemma_divides_combination(d, -1, gi, 0);
            }
        }
    }
    proof {
        lemma_word();
        lemma_wrap_cong(s * a);
        lemma_wrap_cong(t * b);
        lemma_wrap_range(s * a);
        lemma_wrap_range(t * b);
        lemma_cong_add(wrap(s * a), s * a, wrap(t * b), t * b, word());
        lemma_wrap_eq(wrap(s * a) + wrap(t * b), s * a + t * b);
        crate::arith::lemma_wrap_id(g as int);
    }
    if g < 0 {
        let ns = ring.neg(s);
        let nt = ring.neg(t);
        proof {
            lemma_wrap_cong(-s);
            lemma_wrap_cong(-t);
            lemma_wrap_range(-s);
            lemma_wrap_range(-t);
            lemma_cong_mul_int(ns as int, -s, a as int);
            lemma_cong_mul_int(nt as int, -t, b as int);
            lemma_cong_add(ns * a, -s * a, nt * b, -t * b, word());
            assert(-s * a + -t * b == -(s * a + t * b)) by (nonlinear_arith);
            lemma_wrap_cong(s * a + t * b);
            crate::arith::lemma_cong_neg(wrap(s * a + t * b), s * a + t * b, word());
            lemma_wrap_eq(ns * a + nt * b, -(s * a + t * b));
            lemma_wrap_eq(-(s * a + t * b), -(g as int));
            
        }
        Some((magnitude(g), ns, nt))
    } else {
        Some((magnitude(g), s, t))
    }
}

proof fn lemma_cong_mul_int(x1: int, x2: int, y: int)
    requires
        x1 % word() == x2 % word(),
    ensures
        (x1 * y) % word() == (x2 * y) % word(),
{
    lemma_word();
    crate::arith::lemma_cong_mul(x1, x2, y, y, word());
}

} // verus!
