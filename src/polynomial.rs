//! Polynomials over a ring, held densely as their coefficients by degree.
use crate::poly_laws::{lemma_division_invariant, lemma_division_step, lemma_mul_coef};
use crate::ring::{Field, Ring, Val};
use vstd::prelude::*;

verus! {

/// The coefficient of degree `k` of the coefficient sequence `s`; zero past its end.
pub open spec fn coef<R: Ring>(r: R, s: Seq<Val<R>>, k: int) -> Val<R> {
    if 0 <= k < s.len() {
        s[k]
    } else {
        r.zero_v()
    }
}

/// `s` without its trailing zero coefficients.
pub open spec fn trim<R: Ring>(r: R, s: Seq<Val<R>>) -> Seq<Val<R>>
    decreases s.len(),
{
    if s.len() > 0 && s.last() == r.zero_v() {
        trim(r, s.drop_last())
    } else {
        s
    }
}

/// Every coefficient of `s` is a valid element of `r`, and the last one is not zero.
pub open spec fn canonical<R: Ring>(r: R, s: Seq<Val<R>>) -> bool {
    &&& forall|i: int| 0 <= i < s.len() ==> r.valid(#[trigger] s[i])
    &&& (s.len() == 0 || s.last() != r.zero_v())
}

/// The coefficients of `s` brought into canonical form, then trimmed.
pub open spec fn canon_seq<R: Ring>(r: R, s: Seq<Val<R>>) -> Seq<Val<R>> {
    trim(r, s.map_values(|e: Val<R>| r.id_v(e)))
}

/// The larger of two lengths.
pub open spec fn max_len(a: nat, b: nat) -> nat {
    if a >= b {
        a
    } else {
        b
    }
}

/// The coefficientwise sum of two coefficient sequences, before trimming.
pub open spec fn add_raw<R: Ring>(r: R, a: Seq<Val<R>>, b: Seq<Val<R>>) -> Seq<Val<R>> {
    Seq::new(max_len(a.len(), b.len()), |k: int| r.add_v(coef(r, a, k), coef(r, b, k)))
}

/// The sum of two coefficient sequences.
pub open spec fn add_seq<R: Ring>(r: R, a: Seq<Val<R>>, b: Seq<Val<R>>) -> Seq<Val<R>> {
    trim(r, add_raw(r, a, b))
}

/// The coefficientwise difference of two coefficient sequences, before trimming.
pub open spec fn sub_raw<R: Ring>(r: R, a: Seq<Val<R>>, b: Seq<Val<R>>) -> Seq<Val<R>> {
    Seq::new(max_len(a.len(), b.len()), |k: int| r.add_v(coef(r, a, k), r.neg_v(coef(r, b, k))))
}

/// The difference of two coefficient sequences.
pub open spec fn sub_seq<R: Ring>(r: R, a: Seq<Val<R>>, b: Seq<Val<R>>) -> Seq<Val<R>> {
    trim(r, sub_raw(r, a, b))
}

/// The negation of a coefficient sequence.
pub open spec fn neg_seq<R: Ring>(r: R, a: Seq<Val<R>>) -> Seq<Val<R>> {
    trim(r, a.map_values(|e: Val<R>| r.neg_v(e)))
}

/// The coefficient of degree `k` of `a * b`, summed over the first `n`
/// coefficients of `a`: `a[0] * b[k] + a[1] * b[k - 1] + ...`, leaving out
/// the terms where `b` has no coefficient.
pub open spec fn conv<R: Ring>(r: R, a: Seq<Val<R>>, b: Seq<Val<R>>, k: int, n: int) -> Val<R>
    decreases n,
{
    if n <= 0 {
        r.zero_v()
    } else {
        let prev = conv(r, a, b, k, n - 1);
        let i = n - 1;
        if i <= k && k - i < b.len() {
            r.add_v(prev, r.mul_v(a[i], b[k - i]))
        } else {
            prev
        }
    }
}

/// The coefficients of the product of two nonzero coefficient sequences, before trimming.
pub open spec fn mul_raw<R: Ring>(r: R, a: Seq<Val<R>>, b: Seq<Val<R>>) -> Seq<Val<R>> {
    Seq::new((a.len() + b.len() - 1) as nat, |k: int| conv(r, a, b, k, a.len() as int))
}

/// `conv(r, a, b, k, i + 1)` for degrees `i <= k < i + j`, `conv(r, a, b, k, i)`
/// elsewhere: the coefficients of a product while row `i` is being added in.
pub open spec fn conv_progress<R: Ring>(
    r: R,
    a: Seq<Val<R>>,
    b: Seq<Val<R>>,
    k: int,
    i: int,
    j: int,
) -> Val<R> {
    if i <= k < i + j {
        conv(r, a, b, k, i + 1)
    } else {
        conv(r, a, b, k, i)
    }
}

/// The product of two coefficient sequences.
pub open spec fn mul_seq<R: Ring>(r: R, a: Seq<Val<R>>, b: Seq<Val<R>>) -> Seq<Val<R>> {
    if a.len() == 0 || b.len() == 0 {
        Seq::empty()
    } else {
        trim(r, mul_raw(r, a, b))
    }
}

/// The coefficients of `c * x^d`, before trimming.
pub open spec fn single_raw<R: Ring>(r: R, c: Val<R>, d: int) -> Seq<Val<R>> {
    Seq::new(
        (d + 1) as nat,
        |k: int|
            if k == d {
                c
            } else {
                r.zero_v()
            },
    )
}

/// The polynomial `c * x^d`.
pub open spec fn single_seq<R: Ring>(r: R, c: Val<R>, d: int) -> Seq<Val<R>> {
    trim(r, single_raw(r, c, d))
}

/// `s` with `c` added to its coefficient of degree `d`, before trimming.
pub open spec fn add_elem_raw<R: Ring>(r: R, s: Seq<Val<R>>, c: Val<R>, d: int) -> Seq<Val<R>> {
    Seq::new(
        max_len(s.len(), (d + 1) as nat),
        |k: int|
            if k == d {
                r.add_v(coef(r, s, k), c)
            } else {
                coef(r, s, k)
            },
    )
}

/// `s` with `c` added to its coefficient of degree `d`.
pub open spec fn add_elem_seq<R: Ring>(r: R, s: Seq<Val<R>>, c: Val<R>, d: int) -> Seq<Val<R>> {
    trim(r, add_elem_raw(r, s, c, d))
}

/// The values of a sequence of stored elements.
pub open spec fn vals<R: Ring>(v: Seq<R::Element>) -> Seq<Val<R>> {
    v.map_values(|e: R::Element| e@)
}

/// The product of `a` and `b` can be held in memory: its length
/// `a.len() + b.len() - 1` fits in `usize`, and so do the products of their
/// coefficients.
pub open spec fn mul_fits<R: Ring>(r: R, a: Seq<Val<R>>, b: Seq<Val<R>>) -> bool {
    &&& a.len() + b.len() <= usize::MAX + 1
    &&& forall|i: int, j: int|
        0 <= i < a.len() && 0 <= j < b.len() ==> r.mul_ok(#[trigger] a[i], #[trigger] b[j])
}

/// What trimming keeps and drops.
pub proof fn lemma_trim<R: Ring>(r: R, s: Seq<Val<R>>)
    ensures
        trim(r, s).len() <= s.len(),
        trim(r, s) == s.subrange(0, trim(r, s).len() as int),
        trim(r, s).len() == 0 || trim(r, s).last() != r.zero_v(),
        forall|k: int| trim(r, s).len() <= k < s.len() ==> s[k] == r.zero_v(),
        forall|k: int| #[trigger] coef(r, trim(r, s), k) == coef(r, s, k),
    decreases s.len(),
{
    if s.len() > 0 && s.last() == r.zero_v() {
        lemma_trim(r, s.drop_last());
        assert(trim(r, s) == trim(r, s.drop_last()));
        let t = trim(r, s);
        assert forall|k: int| t.len() <= k < s.len() implies s[k] == r.zero_v() by {
            if k < s.len() - 1 {
                assert(s.drop_last()[k] == s[k]);
            }
        }
        assert(t == s.subrange(0, t.len() as int)) by {
            assert(s.drop_last().subrange(0, t.len() as int) =~= s.subrange(0, t.len() as int));
        }
    } else {
        assert(s == s.subrange(0, s.len() as int));
    }
}

/// A canonical sequence is its own trim.
pub proof fn lemma_trim_canonical<R: Ring>(r: R, s: Seq<Val<R>>)
    requires
        s.len() == 0 || s.last() != r.zero_v(),
    ensures
        trim(r, s) == s,
{
}

/// Trimming a sequence of valid values gives a canonical sequence.
pub proof fn lemma_trim_valid<R: Ring>(r: R, s: Seq<Val<R>>)
    requires
        forall|i: int| 0 <= i < s.len() ==> r.valid(#[trigger] s[i]),
    ensures
        canonical(r, trim(r, s)),
{
    lemma_trim(r, s);
    let t = trim(r, s);
    assert forall|i: int| 0 <= i < t.len() implies r.valid(#[trigger] t[i]) by {
        assert(t[i] == s[i]);
    }
}

/// A polynomial over the ring `R`: its coefficients by degree, index 0
/// holding the constant term.
///
/// Its coefficients are canonical elements of the ring and the last one is
/// not zero, so the zero polynomial has no coefficients at all.
pub struct Poly<R: Ring> {
    ring: R,
    elems: Vec<R::Element>,
}

/// The name under which the polynomial type is usually known.
pub type Polynomial<R> = Poly<R>;

impl<R: Ring> View for Poly<R> {
    type V = Seq<Val<R>>;

    closed spec fn view(&self) -> Seq<Val<R>> {
        vals::<R>(self.elems@)
    }
}

/// The vector of `len` zeros of `ring`.
fn zeros<R: Ring>(ring: R, len: usize) -> (v: Vec<R::Element>)
    requires
        ring.wf(),
    ensures
        v.len() == len,
        forall|i: int| 0 <= i < len ==> ring.elem_ok(&#[trigger] v[i]) && v[i]@ == ring.zero_v(),
{
    let mut v: Vec<R::Element> = Vec::with_capacity(len);
    let mut i: usize = 0;
    while i < len
        invariant
            ring.wf(),
            i <= len,
            v.len() == i,
            forall|j: int| 0 <= j < i ==> ring.elem_ok(&#[trigger] v[j]) && v[j]@ == ring.zero_v(),
        decreases len - i,
    {
        v.push(ring.zero());
        i = i + 1;
    }
    v
}

impl<R: Ring> Poly<R> {
    /// The ring of the coefficients.
    pub closed spec fn ring(&self) -> R {
        self.ring
    }

    /// Every stored coefficient is a canonical element of the ring.
    pub closed spec fn elems_ok(&self) -> bool {
        forall|i: int| 0 <= i < self.elems.len() ==> self.ring.elem_ok(&#[trigger] self.elems[i])
    }

    /// The polynomial is in canonical form over a usable ring.
    pub open spec fn wf(&self) -> bool {
        &&& self.ring().wf()
        &&& self.elems_ok()
        &&& canonical(self.ring(), self@)
    }

    proof fn lemma_view(&self)
        ensures
            self@.len() == self.elems.len(),
            forall|i: int| 0 <= i < self.elems.len() ==> #[trigger] self@[i] == self.elems[i]@,
    {
    }

    /// Facts that hold of the stored coefficients of a vector.
    proof fn lemma_valid_elems(ring: R, v: Seq<R::Element>)
        requires
            ring.wf(),
            forall|i: int| 0 <= i < v.len() ==> ring.elem_ok(&#[trigger] v[i]),
        ensures
            forall|i: int| 0 <= i < v.len() ==> ring.valid(#[trigger] vals::<R>(v)[i]),
    {
        assert forall|i: int| 0 <= i < v.len() implies ring.valid(#[trigger] vals::<R>(v)[i]) by {
            ring.lemma_elem_valid(&v[i]);
        }
    }

    /// Builds a polynomial from stored coefficients, trimming trailing zeros.
    fn from_vec(ring: R, elems: Vec<R::Element>) -> (r: Self)
        requires
            ring.wf(),
            forall|i: int| 0 <= i < elems.len() ==> ring.elem_ok(&#[trigger] elems[i]),
        ensures
            r.wf(),
            r.ring() == ring,
            r@ == trim(ring, vals::<R>(elems@)),
    {
        let mut p = Poly { ring, elems };
        proof {
            Self::lemma_valid_elems(ring, p.elems@);
        }
        p.cut_trailing_zeros();
        p
    }

    /// Drops the trailing zero coefficients.
    fn cut_trailing_zeros(&mut self)
        requires
            old(self).ring.wf(),
            old(self).elems_ok(),
            forall|i: int| 0 <= i < old(self)@.len() ==> old(self).ring.valid(#[trigger] old(self)@[i]),
        ensures
            final(self).ring == old(self).ring,
            final(self).wf(),
            final(self)@ == trim(old(self).ring, old(self)@),
    {
        let ghost orig = self@;
        let ghost ring = self.ring;
        proof {
            lemma_trim(ring, orig);
        }
        let zero = self.ring.zero();
        while self.elems.len() > 0
            invariant
                self.ring == ring,
                ring.wf(),
                ring.elem_ok(&zero),
                zero@ == ring.zero_v(),
                self.elems_ok(),
                trim(ring, self@) == trim(ring, orig),
                self@ == orig.subrange(0, self@.len() as int),
                self@.len() <= orig.len(),
                forall|i: int| 0 <= i < orig.len() ==> ring.valid(#[trigger] orig[i]),
            ensures
                self.ring == ring,
                self.elems_ok(),
                trim(ring, self@) == trim(ring, orig),
                self@.len() == 0 || self@.last() != ring.zero_v(),
            decreases self.elems.len(),
        {
            let last = self.elems.len() - 1;
            if self.ring.equal(&self.elems[last], &zero) {
                let ghost before = self@;
                self.elems.pop();
                proof {
                    assert(self@ =~= before.drop_last());
                    assert(self@ =~= orig.subrange(0, self@.len() as int));
                }
            } else {
                break;
            }
        }
        proof {
            lemma_trim_canonical(ring, self@);
            lemma_trim_valid(ring, orig);
        }
    }

    /// The polynomial with the given coefficients, each brought into
    /// canonical form, without its trailing zeros.
    pub fn new(ring: R, elems: Vec<R::Element>) -> (r: Self)
        requires
            ring.wf(),
            forall|i: int| 0 <= i < elems.len() ==> ring.admits(&#[trigger] elems[i]),
        ensures
            r.wf(),
            r.ring() == ring,
            r@ == canon_seq(ring, vals::<R>(elems@)),
    {
        let mut out: Vec<R::Element> = Vec::with_capacity(elems.len());
        let mut i: usize = 0;
        let n = elems.len();
        while i < n
            invariant
                ring.wf(),
                n == elems.len(),
                i <= n,
                out.len() == i,
                forall|j: int| 0 <= j < n ==> ring.admits(&#[trigger] elems[j]),
                forall|j: int| 0 <= j < i ==> ring.elem_ok(&#[trigger] out[j]) && out[j]@ == ring.id_v(elems[j]@),
            decreases n - i,
        {
            let e = ring.id(&elems[i]);
            out.push(e);
            i = i + 1;
        }
        proof {
            assert(vals::<R>(out@) =~= vals::<R>(elems@).map_values(|e: Val<R>| ring.id_v(e)));
        }
        Self::from_vec(ring, out)
    }

    /// The zero polynomial, with room for `capacity` coefficients.
    pub fn with_capacity(ring: R, capacity: usize) -> (r: Self)
        requires
            ring.wf(),
        ensures
            r.wf(),
            r.ring() == ring,
            r@ == Seq::<Val<R>>::empty(),
    {
        let p = Poly { ring, elems: Vec::with_capacity(capacity) };
        proof {
            assert(p@ =~= Seq::<Val<R>>::empty());
        }
        p
    }

    /// The zero polynomial.
    pub fn zero(ring: R) -> (r: Self)
        requires
            ring.wf(),
        ensures
            r.wf(),
            r.ring() == ring,
            r@ == Seq::<Val<R>>::empty(),
    {
        let p = Poly { ring, elems: Vec::new() };
        proof {
            assert(p@ =~= Seq::<Val<R>>::empty());
        }
        p
    }

    /// The constant polynomial `constant`.
    pub fn constant(ring: R, constant: R::Element) -> (r: Self)
        requires
            ring.wf(),
            ring.admits(&constant),
        ensures
            r.wf(),
            r.ring() == ring,
            r@ == trim(ring, seq![ring.id_v(constant@)]),
            ring.elem_ok(&constant) ==> r@ == trim(ring, seq![constant@]),
    {
        let c = ring.id(&constant);
        let mut v: Vec<R::Element> = Vec::new();
        v.push(c);
        proof {
            assert(vals::<R>(v@) =~= seq![ring.id_v(constant@)]);
        }
        Self::from_vec(ring, v)
    }

    /// The polynomial `elem * x^deg`.
    pub fn single(ring: R, elem: R::Element, deg: usize) -> (r: Self)
        requires
            ring.wf(),
            ring.admits(&elem),
            deg < usize::MAX,
        ensures
            r.wf(),
            r.ring() == ring,
            r@ == single_seq(ring, ring.id_v(elem@), deg as int),
            ring.elem_ok(&elem) ==> r@ == single_seq(ring, elem@, deg as int),
    {
        let mut v = zeros(ring, deg + 1);
        let c = ring.id(&elem);
        v.set(deg, c);
        proof {
            assert(vals::<R>(v@) =~= single_raw(ring, ring.id_v(elem@), deg as int));
        }
        Self::from_vec(ring, v)
    }

    /// Adds `elem * x^deg` to the polynomial.
    pub fn add_elem(&mut self, elem: R::Element, deg: usize)
        requires
            old(self).wf(),
            old(self).ring().admits(&elem),
            deg < usize::MAX,
        ensures
            final(self).wf(),
            final(self).ring() == old(self).ring(),
            final(self)@ == add_elem_seq(old(self).ring(), old(self)@, old(self).ring().id_v(elem@), deg as int),
    {
        let ghost s = self@;
        let ghost ring = self.ring;
        self.fill_with_zeros(deg + 1);
        self.add_elem_unsafe(elem, deg);
        proof {
            assert(self@ =~= add_elem_raw(ring, s, ring.id_v(elem@), deg as int));
            Self::lemma_valid_elems(ring, self.elems@);
        }
        self.cut_trailing_zeros();
    }

    /// Adds `elem` to the stored coefficient of degree `deg`, which must exist.
    fn add_elem_unsafe(&mut self, elem: R::Element, deg: usize)
        requires
            old(self).ring.wf(),
            old(self).elems_ok(),
            old(self).ring.admits(&elem),
            deg < old(self).elems.len(),
        ensures
            final(self).ring == old(self).ring,
            final(self).elems_ok(),
            final(self)@ == old(self)@.update(
                deg as int,
                old(self).ring.add_v(old(self)@[deg as int], old(self).ring.id_v(elem@)),
            ),
    {
        let ghost before = self@;
        let c = self.ring.id(&elem);
        let cur = self.ring.copy_elem(&self.elems[deg]);
        let sum = self.ring.add(cur, c);
        self.elems.set(deg, sum);
        proof {
            assert(self@ =~= before.update(deg as int, self.ring.add_v(before[deg as int], self.ring.id_v(elem@))));
        }
    }

    /// Pads the stored coefficients with zeros up to length `new_len`.
    fn fill_with_zeros(&mut self, new_len: usize)
        requires
            old(self).ring.wf(),
            old(self).elems_ok(),
        ensures
            final(self).ring == old(self).ring,
            final(self).elems_ok(),
            final(self)@.len() == if old(self)@.len() >= new_len {
                old(self)@.len()
            } else {
                new_len as nat
            },
            forall|k: int| 0 <= k < final(self)@.len() ==> #[trigger] final(self)@[k] == coef(old(self).ring, old(self)@, k),
    {
        let ghost before = self@;
        let ghost ring = self.ring;
        while self.elems.len() < new_len
            invariant
                self.ring == ring,
                self.ring.wf(),
                self.elems_ok(),
                self@.len() >= before.len(),
                self@.len() <= new_len || self@.len() == before.len(),
                forall|k: int| 0 <= k < self@.len() ==> #[trigger] self@[k] == coef(self.ring, before, k),
            decreases new_len - self.elems.len(),
        {
            let z = self.ring.zero();
            let ghost cur = self@;
            self.elems.push(z);
            proof {
                assert(self@ =~= cur.push(z@));
            }
        }
    }

    /// The degree, `None` for the zero polynomial.
    pub fn deg(&self) -> (r: Option<usize>)
        ensures
            r matches Some(d) ==> d as nat == (self@.len() - 1) as nat,
            r is None <==> self@.len() == 0,
    {
        if self.elems.len() == 0 {
            None
        } else {
            Some(self.elems.len() - 1)
        }
    }

    /// The leading coefficient, zero for the zero polynomial.
    pub fn lc(&self) -> (r: R::Element)
        requires
            self.wf(),
        ensures
            self.ring().elem_ok(&r),
            r@ == coef(self.ring(), self@, self@.len() - 1),
    {
        if self.elems.len() == 0 {
            self.ring.zero()
        } else {
            self.ring.copy_elem(&self.elems[self.elems.len() - 1])
        }
    }

    /// Whether this is the zero polynomial.
    pub fn is_zero(&self) -> (r: bool)
        ensures
            r == (self@.len() == 0),
    {
        self.elems.len() == 0
    }
}

impl<R: Ring> Poly<R> {
    /// The ring of the coefficients.
    pub fn ring_value(&self) -> (r: R)
        ensures
            r == self.ring(),
    {
        self.ring
    }

    /// The number of stored coefficients: the degree plus one, zero for the
    /// zero polynomial.
    pub fn len(&self) -> (r: usize)
        ensures
            r == self@.len(),
    {
        self.elems.len()
    }

    /// A copy of the coefficient of degree `k`, which must be stored.
    pub fn coefficient(&self, k: usize) -> (r: R::Element)
        requires
            self.wf(),
            k < self@.len(),
        ensures
            self.ring().elem_ok(&r),
            r@ == self@[k as int],
    {
        self.ring.copy_elem(&self.elems[k])
    }

    /// A copy of the coefficient of degree `k`, zero past the end.
    fn coeff(&self, k: usize) -> (r: R::Element)
        requires
            self.wf(),
        ensures
            self.ring().elem_ok(&r),
            r@ == coef(self.ring(), self@, k as int),
    {
        if k < self.elems.len() {
            self.ring.copy_elem(&self.elems[k])
        } else {
            self.ring.zero()
        }
    }

    /// The sum, coefficient by coefficient, trimmed.
    fn add_ref(&self, rhs: &Self) -> (r: Self)
        requires
            self.wf(),
            rhs.wf(),
            self.ring() == rhs.ring(),
        ensures
            r.wf(),
            r.ring() == self.ring(),
            r@ == add_seq(self.ring(), self@, rhs@),
    {
        let ring = self.ring;
        let la = self.elems.len();
        let lb = rhs.elems.len();
        let n = if la >= lb {
            la
        } else {
            lb
        };
        let mut out: Vec<R::Element> = Vec::with_capacity(n);
        let mut k: usize = 0;
        while k < n
            invariant
                self.wf(),
                rhs.wf(),
                ring == self.ring(),
                ring == rhs.ring(),
                la == self@.len(),
                lb == rhs@.len(),
                n == max_len(la as nat, lb as nat),
                k <= n,
                out.len() == k,
                forall|j: int|
                    0 <= j < k ==> ring.elem_ok(&#[trigger] out[j]) && out[j]@ == ring.add_v(
                        coef(ring, self@, j),
                        coef(ring, rhs@, j),
                    ),
            decreases n - k,
        {
            let a = self.coeff(k);
            let b = rhs.coeff(k);
            out.push(ring.add(a, b));
            k = k + 1;
        }
        proof {
            assert(vals::<R>(out@) =~= add_raw(ring, self@, rhs@));
        }
        Self::from_vec(ring, out)
    }

    /// The difference, coefficient by coefficient, trimmed.
    fn sub_ref(&self, rhs: &Self) -> (r: Self)
        requires
            self.wf(),
            rhs.wf(),
            self.ring() == rhs.ring(),
        ensures
            r.wf(),
            r.ring() == self.ring(),
            r@ == sub_seq(self.ring(), self@, rhs@),
    {
        let ring = self.ring;
        let la = self.elems.len();
        let lb = rhs.elems.len();
        let n = if la >= lb {
            la
        } else {
            lb
        };
        let mut out: Vec<R::Element> = Vec::with_capacity(n);
        let mut k: usize = 0;
        while k < n
            invariant
                self.wf(),
                rhs.wf(),
                ring == self.ring(),
                ring == rhs.ring(),
                la == self@.len(),
                lb == rhs@.len(),
                n == max_len(la as nat, lb as nat),
                k <= n,
                out.len() == k,
                forall|j: int|
                    0 <= j < k ==> ring.elem_ok(&#[trigger] out[j]) && out[j]@ == ring.add_v(
                        coef(ring, self@, j),
                        ring.neg_v(coef(ring, rhs@, j)),
                    ),
            decreases n - k,
        {
            let a = self.coeff(k);
            let b = rhs.coeff(k);
            let nb = ring.neg(b);
            out.push(ring.add(a, nb));
            k = k + 1;
        }
        proof {
            assert(vals::<R>(out@) =~= sub_raw(ring, self@, rhs@));
        }
        Self::from_vec(ring, out)
    }

    /// The product: each `a[i] * b[j]` is added into degree `i + j`, row by row.
    fn mul_ref(&self, rhs: &Self) -> (r: Self)
        requires
            self.wf(),
            rhs.wf(),
            self.ring() == rhs.ring(),
            mul_fits(self.ring(), self@, rhs@),
        ensures
            r.wf(),
            r.ring() == self.ring(),
            r@ == mul_seq(self.ring(), self@, rhs@),
    {
        let ring = self.ring;
        if self.elems.len() == 0 || rhs.elems.len() == 0 {
            return Self::zero(ring);
        }
        let la = self.elems.len();
        let lb = rhs.elems.len();
        let ghost a = self@;
        let ghost b = rhs@;
        let mut out = zeros(ring, la - 1 + lb);
        let mut i: usize = 0;
        while i < la
            invariant
                self.wf(),
                rhs.wf(),
                ring == self.ring(),
                ring == rhs.ring(),
                a == self@,
                b == rhs@,
                la == a.len(),
                lb == b.len(),
                la > 0,
                lb > 0,
                i <= la,
                mul_fits(ring, a, b),
                out.len() == la + lb - 1,
                forall|k: int| 0 <= k < out.len() ==> ring.elem_ok(&#[trigger] out[k]),
                forall|k: int| 0 <= k < out.len() ==> #[trigger] out[k]@ == conv(ring, a, b, k, i as int),
            decreases la - i,
        {
            let mut j: usize = 0;
            while j < lb
                invariant
                    self.wf(),
                    rhs.wf(),
                    ring == self.ring(),
                    ring == rhs.ring(),
                    a == self@,
                    b == rhs@,
                    la == a.len(),
                    lb == b.len(),
                    i < la,
                    j <= lb,
                    mul_fits(ring, a, b),
                    out.len() == la + lb - 1,
                    forall|k: int| 0 <= k < out.len() ==> ring.elem_ok(&#[trigger] out[k]),
                    forall|k: int|
                        0 <= k < out.len() ==> #[trigger] out[k]@ == conv_progress(
                            ring,
                            a,
                            b,
                            k,
                            i as int,
                            j as int,
                        ),
                decreases lb - j,
            {
                let x = self.coeff(i);
                let y = rhs.coeff(j);
                proof {
                    assert(ring.mul_ok(a[i as int], b[j as int]));
                }
                let prod = ring.mul(x, y);
                let cur = ring.copy_elem(&out[i + j]);
                let sum = ring.add(cur, prod);
                out.set(i + j, sum);
                j = j + 1;
            }
            proof {
                assert forall|k: int| 0 <= k < out.len() implies #[trigger] out[k]@ == conv(
                    ring,
                    a,
                    b,
                    k,
                    i + 1,
                ) by {
                    assert(out[k]@ == conv_progress(ring, a, b, k, i as int, lb as int));
                }
            }
            i = i + 1;
        }
        proof {
            assert(vals::<R>(out@) =~= mul_raw(ring, a, b));
        }
        Self::from_vec(ring, out)
    }

    /// `self + rhs`.
    pub fn add(self, rhs: Self) -> (r: Self)
        requires
            self.wf(),
            rhs.wf(),
            self.ring() == rhs.ring(),
        ensures
            r.wf(),
            r.ring() == self.ring(),
            r@ == add_seq(self.ring(), self@, rhs@),
    {
        self.add_ref(&rhs)
    }

    /// `self += rhs`.
    pub fn add_assign(&mut self, rhs: Self)
        requires
            old(self).wf(),
            rhs.wf(),
            old(self).ring() == rhs.ring(),
        ensures
            final(self).wf(),
            final(self).ring() == old(self).ring(),
            final(self)@ == add_seq(old(self).ring(), old(self)@, rhs@),
    {
        *self = self.add_ref(&rhs);
    }

    /// `-self`.
    pub fn neg(self) -> (r: Self)
        requires
            self.wf(),
        ensures
            r.wf(),
            r.ring() == self.ring(),
            r@ == neg_seq(self.ring(), self@),
    {
        let ring = self.ring;
        let n = self.elems.len();
        let mut out: Vec<R::Element> = Vec::with_capacity(n);
        let mut k: usize = 0;
        while k < n
            invariant
                self.wf(),
                ring == self.ring(),
                n == self@.len(),
                k <= n,
                out.len() == k,
                forall|j: int|
                    0 <= j < k ==> ring.elem_ok(&#[trigger] out[j]) && out[j]@ == ring.neg_v(
                        self@[j],
                    ),
            decreases n - k,
        {
            let a = self.coeff(k);
            out.push(ring.neg(a));
            k = k + 1;
        }
        proof {
            assert(vals::<R>(out@) =~= self@.map_values(|e: Val<R>| ring.neg_v(e)));
        }
        Self::from_vec(ring, out)
    }

    /// `self - rhs`, that is `self + (-rhs)`.
    pub fn sub(self, rhs: Self) -> (r: Self)
        requires
            self.wf(),
            rhs.wf(),
            self.ring() == rhs.ring(),
        ensures
            r.wf(),
            r.ring() == self.ring(),
            r@ == sub_seq(self.ring(), self@, rhs@),
    {
        self.sub_ref(&rhs)
    }

    /// `self -= rhs`.
    pub fn sub_assign(&mut self, rhs: Self)
        requires
            old(self).wf(),
            rhs.wf(),
            old(self).ring() == rhs.ring(),
        ensures
            final(self).wf(),
            final(self).ring() == old(self).ring(),
            final(self)@ == sub_seq(old(self).ring(), old(self)@, rhs@),
    {
        *self = self.sub_ref(&rhs);
    }

    /// `self * rhs`.
    pub fn mul(self, rhs: Self) -> (r: Self)
        requires
            self.wf(),
            rhs.wf(),
            self.ring() == rhs.ring(),
            mul_fits(self.ring(), self@, rhs@),
        ensures
            r.wf(),
            r.ring() == self.ring(),
            r@ == mul_seq(self.ring(), self@, rhs@),
    {
        self.mul_ref(&rhs)
    }

    /// `self *= rhs`.
    pub fn mul_assign(&mut self, rhs: Self)
        requires
            old(self).wf(),
            rhs.wf(),
            old(self).ring() == rhs.ring(),
            mul_fits(old(self).ring(), old(self)@, rhs@),
        ensures
            final(self).wf(),
            final(self).ring() == old(self).ring(),
            final(self)@ == mul_seq(old(self).ring(), old(self)@, rhs@),
    {
        *self = self.mul_ref(&rhs);
    }

    /// Whether the product of the two polynomials can be held in memory.
    pub fn can_mul(&self, rhs: &Self) -> (r: bool)
        requires
            self.wf(),
            rhs.wf(),
            self.ring() == rhs.ring(),
        ensures
            r == mul_fits(self.ring(), self@, rhs@),
    {
        let ring = self.ring;
        let la = self.elems.len();
        let lb = rhs.elems.len();
        if la > 0 && lb > 0 && la - 1 > usize::MAX - lb {
            return false;
        }
        let mut i: usize = 0;
        while i < la
            invariant
                self.wf(),
                rhs.wf(),
                ring == self.ring(),
                ring == rhs.ring(),
                la == self@.len(),
                lb == rhs@.len(),
                i <= la,
                forall|x: int, y: int|
                    0 <= x < i && 0 <= y < lb ==> ring.mul_ok(#[trigger] self@[x], #[trigger] rhs@[y]),
            decreases la - i,
        {
            let mut j: usize = 0;
            while j < lb
                invariant
                    self.wf(),
                    rhs.wf(),
                    ring == self.ring(),
                    ring == rhs.ring(),
                    la == self@.len(),
                    lb == rhs@.len(),
                    i < la,
                    j <= lb,
                    forall|x: int, y: int|
                        0 <= x < i && 0 <= y < lb ==> ring.mul_ok(#[trigger] self@[x], #[trigger] rhs@[y]),
                    forall|y: int| 0 <= y < j ==> ring.mul_ok(self@[i as int], #[trigger] rhs@[y]),
                decreases lb - j,
            {
                let x = self.coeff(i);
                let y = rhs.coeff(j);
                if !ring.can_mul(&x, &y) {
                    return false;
                }
                j = j + 1;
            }
            i = i + 1;
        }
        true
    }

    /// A copy of the polynomial.
    pub fn clone(&self) -> (r: Self)
        requires
            self.wf(),
        ensures
            r.wf(),
            r.ring() == self.ring(),
            r@ == self@,
    {
        let ring = self.ring;
        let n = self.elems.len();
        let mut out: Vec<R::Element> = Vec::with_capacity(n);
        let mut k: usize = 0;
        while k < n
            invariant
                self.wf(),
                ring == self.ring(),
                n == self@.len(),
                k <= n,
                out.len() == k,
                forall|j: int| 0 <= j < k ==> ring.elem_ok(&#[trigger] out[j]),
                forall|j: int| 0 <= j < k ==> #[trigger] out[j]@ == self@[j],
            decreases n - k,
        {
            let c = self.coeff(k);
            proof {
                assert(c@ == self@[k as int]);
            }
            out.push(c);
            k = k + 1;
        }
        let r = Poly { ring, elems: out };
        proof {
            assert(r@ =~= self@);
        }
        r
    }

    /// Whether the two polynomials have the same coefficients.
    pub fn eq(&self, other: &Self) -> (r: bool)
        requires
            self.wf(),
            other.wf(),
            self.ring() == other.ring(),
        ensures
            r == (self@ == other@),
    {
        proof {
            self.lemma_view();
            other.lemma_view();
        }
        if self.elems.len() != other.elems.len() {
            return false;
        }
        let n = self.elems.len();
        let mut k: usize = 0;
        while k < n
            invariant
                self.wf(),
                other.wf(),
                self.ring() == other.ring(),
                n == self@.len(),
                n == other@.len(),
                k <= n,
                forall|j: int| 0 <= j < k ==> self@[j] == other@[j],
                forall|j: int| 0 <= j < n ==> #[trigger] self@[j] == self.elems[j]@,
                forall|j: int| 0 <= j < n ==> #[trigger] other@[j] == other.elems[j]@,
            decreases n - k,
        {
            if !self.ring.equal(&self.elems[k], &other.elems[k]) {
                proof {
                    assert(self@[k as int] != other@[k as int]);
                }
                return false;
            }
            k = k + 1;
        }
        proof {
            assert(self@ =~= other@);
        }
        true
    }
}

/// Long division of `rem` by `d` from the partial quotient `q`: while
/// `rem` is not of lower degree than `d`, the term `c * x^m` with
/// `c = lc(rem) / lc(d)` and `m = deg(rem) - deg(d)` is added to the quotient
/// and `(c * x^m) * d` taken from the remainder.
pub open spec fn pdiv<F: Field>(f: F, q: Seq<Val<F>>, rem: Seq<Val<F>>, d: Seq<Val<F>>) -> (
    Seq<Val<F>>,
    Seq<Val<F>>,
)
    decreases rem.len(),
{
    if d.len() == 0 || rem.len() < d.len() {
        (q, rem)
    } else {
        let t = single_seq(
            f,
            f.mul_v(rem.last(), f.inv_v(d.last())),
            rem.len() - d.len(),
        );
        let rem2 = sub_seq(f, rem, mul_seq(f, t, d));
        if rem2.len() < rem.len() {
            pdiv(f, add_seq(f, q, t), rem2, d)
        } else {
            (q, rem)
        }
    }
}

impl<F: Field> Poly<F> {
    /// Long division: `Some((q, r))` with `self == q * rhs + r` and `r` of
    /// lower degree than `rhs`; `None` exactly when `rhs` is zero.
    pub fn polynomial_division(self, rhs: Poly<F>) -> (res: Option<(Poly<F>, Poly<F>)>)
        requires
            self.wf(),
            rhs.wf(),
            self.ring() == rhs.ring(),
        ensures
            res is None <==> rhs@.len() == 0,
            res matches Some((q, r)) ==> {
                &&& q.wf()
                &&& r.wf()
                &&& q.ring() == self.ring()
                &&& r.ring() == self.ring()
                &&& r@.len() < rhs@.len()
                &&& add_seq(self.ring(), mul_seq(self.ring(), q@, rhs@), r@) == self@
                &&& (q@, r@) == pdiv(self.ring(), Seq::empty(), self@, rhs@)
            },
    {
        if rhs.is_zero() {
            return None;
        }
        let ring = self.ring;
        let ghost p = self@;
        let mut q = Poly::zero(ring);
        let mut r = self;
        let d = rhs.elems.len() - 1;
        let lcd = rhs.lc();
        proof {
            ring.lemma_identities_valid();
            lemma_mul_coef(ring, q@, rhs@);
            crate::poly_laws::law_add_commutative(ring, Seq::empty(), p);
            crate::poly_laws::law_add_zero(ring, p);
        }
        while r.elems.len() > d
            invariant
                ring == rhs.ring(),
                ring.wf(),
                rhs.wf(),
                d + 1 == rhs@.len(),
                ring.elem_ok(&lcd),
                lcd@ == rhs@.last(),
                lcd@ != ring.zero_v(),
                q.wf(),
                q.ring() == ring,
                r.wf(),
                r.ring() == ring,
                r@.len() <= p.len(),
                add_seq(ring, mul_seq(ring, q@, rhs@), r@) == p,
                pdiv(ring, Seq::empty(), p, rhs@) == pdiv(ring, q@, r@, rhs@),
            decreases r@.len(),
        {
            proof {
                r.lemma_view();
            }
            let deg = r.elems.len() - 1 - d;
            let lcr = r.lc();
            let ghost c = ring.mul_v(lcr@, ring.inv_v(lcd@));
            let quotient = match ring.div(lcr, rhs.lc()) {
                Some(c) => c,
                None => {
                    return None;
                },
            };
            proof {
                ring.lemma_elem_valid(&quotient);
            }
            let t = Poly::single(ring, quotient, deg);
            proof {
                lemma_trim(ring, single_raw(ring, quotient@, deg as int));
                assert forall|i: int, j: int| 0 <= i < t@.len() && 0 <= j < rhs@.len() implies ring.mul_ok(
                    #[trigger] t@[i],
                    #[trigger] rhs@[j],
                ) by {
                    ring.lemma_mul_ok(t@[i], rhs@[j]);
                }
            }
            let ghost q0 = q@;
            let ghost r0 = r@;
            q.add_assign(t.clone());
            let td = t.mul(rhs.clone());
            proof {
                lemma_division_invariant(ring, q0, t@, rhs@, r0);
                lemma_division_step(ring, r@, rhs@, quotient@);
                assert(quotient@ == c);
                assert(r0.last() == lcr@);
                assert(pdiv(ring, q0, r0, rhs@) == pdiv(
                    ring,
                    add_seq(ring, q0, t@),
                    sub_seq(ring, r0, mul_seq(ring, t@, rhs@)),
                    rhs@,
                ));
            }
            r.sub_assign(td);
        }
        proof {
            assert(pdiv(ring, q@, r@, rhs@) == (q@, r@));
        }
        Some((q, r))
    }
}

} // verus!
