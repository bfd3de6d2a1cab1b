//! The rings `Z/nZ` of integers modulo `n`, and the prime fields `Z/pZ`.
use crate::arith::{
    is_prime, is_proper_divisor, lemma_cofactor, lemma_cong_add, lemma_cong_mul, lemma_cong_neg,
    lemma_divides_trans, lemma_mod_cong,
};
use crate::ring::{CommutativeRing, Field, Ring};
use vstd::arithmetic::div_mod::*;
use vstd::arithmetic::mul::*;
use vstd::prelude::*;

verus! {

/// A modulus that residues held in `isize` can use.
pub open spec fn modulus_ok(n: int) -> bool {
    0 < n <= isize::MAX
}

/// `v` is a canonical residue modulo `n`.
pub open spec fn residue(n: int, v: isize) -> bool {
    0 <= v < n
}

/// The canonical residue of `x` modulo `n`.
pub open spec fn reduce(n: int, x: int) -> isize {
    (x % n) as isize
}

/// The canonical residue of `x` modulo `n`.
fn reduce_exec(x: i128, n: usize) -> (r: isize)
    requires
        modulus_ok(n as int),
    ensures
        r == reduce(n as int, x as int),
        residue(n as int, r),
{
    proof {
        lemma_mod_cong(x as int, n as int);
    }
    match x.checked_rem_euclid(n as i128) {
        Some(m) => m as isize,
        None => 0,
    }
}

proof fn lemma_reduce(n: int, x: int)
    requires
        modulus_ok(n),
    ensures
        residue(n, reduce(n, x)),
        reduce(n, x) as int == x % n,
        (reduce(n, x) as int) % n == x % n,
{
    lemma_mod_cong(x, n);
}

proof fn lemma_residue_fixed(n: int, v: isize)
    requires
        modulus_ok(n),
        residue(n, v),
    ensures
        reduce(n, v as int) == v,
{
    lemma_small_mod(v as nat, n as nat);
}

fn add_mod(n: usize, lhs: isize, rhs: isize) -> (r: isize)
    requires
        modulus_ok(n as int),
    ensures
        r == reduce(n as int, lhs + rhs),
        residue(n as int, r),
{
    reduce_exec(lhs as i128 + rhs as i128, n)
}

fn neg_mod(n: usize, elem: isize) -> (r: isize)
    requires
        modulus_ok(n as int),
    ensures
        r == reduce(n as int, -elem),
        residue(n as int, r),
{
    reduce_exec(-(elem as i128), n)
}

fn mul_mod(n: usize, lhs: isize, rhs: isize) -> (r: isize)
    requires
        modulus_ok(n as int),
    ensures
        r == reduce(n as int, lhs * rhs),
        residue(n as int, r),
{
    let a = lhs as i128;
    let b = rhs as i128;
    assert(-0x4000_0000_0000_0000_0000_0000_0000_0000 <= a * b <= 0x4000_0000_0000_0000_0000_0000_0000_0000)
        by (nonlinear_arith)
        requires
            -0x8000_0000_0000_0000 <= a <= 0x8000_0000_0000_0000,
            -0x8000_0000_0000_0000 <= b <= 0x8000_0000_0000_0000,
    ;
    reduce_exec(a * b, n)
}

proof fn lemma_add_assoc_mod(n: int, a: isize, b: isize, c: isize)
    requires
        modulus_ok(n),
    ensures
        reduce(n, reduce(n, a + b) + c) == reduce(n, a + reduce(n, b + c)),
{
    lemma_reduce(n, a + b);
    lemma_reduce(n, b + c);
    lemma_cong_add(reduce(n, a + b) as int, a + b, c as int, c as int, n);
    lemma_cong_add(a as int, a as int, reduce(n, b + c) as int, b + c, n);
    assert(a + b + c == a + (b + c));
}

proof fn lemma_add_neg_mod(n: int, a: isize)
    requires
        modulus_ok(n),
        residue(n, a),
    ensures
        reduce(n, a + reduce(n, -a)) == 0,
{
    lemma_reduce(n, -a);
    lemma_cong_add(a as int, a as int, reduce(n, -a) as int, -a, n);
    lemma_small_mod(0, n as nat);
}

proof fn lemma_mul_assoc_mod(n: int, a: isize, b: isize, c: isize)
    requires
        modulus_ok(n),
    ensures
        reduce(n, reduce(n, a * b) * c) == reduce(n, a * reduce(n, b * c)),
{
    lemma_reduce(n, a * b);
    lemma_reduce(n, b * c);
    lemma_cong_mul(reduce(n, a * b) as int, a * b, c as int, c as int, n);
    lemma_cong_mul(a as int, a as int, reduce(n, b * c) as int, b * c, n);
    lemma_mul_is_associative(a as int, b as int, c as int);
}

proof fn lemma_mul_one_mod(n: int, a: isize)
    requires
        modulus_ok(n),
        residue(n, a),
    ensures
        reduce(n, a * reduce(n, 1)) == a,
{
    lemma_reduce(n, 1);
    lemma_cong_mul(a as int, a as int, reduce(n, 1) as int, 1, n);
    lemma_residue_fixed(n, a);
}

proof fn lemma_distrib_mod(n: int, a: isize, b: isize, c: isize)
    requires
        modulus_ok(n),
    ensures
        reduce(n, a * reduce(n, b + c)) == reduce(n, reduce(n, a * b) + reduce(n, a * c)),
{
    lemma_reduce(n, b + c);
    lemma_reduce(n, a * b);
    lemma_reduce(n, a * c);
    lemma_cong_mul(a as int, a as int, reduce(n, b + c) as int, b + c, n);
    lemma_cong_add(reduce(n, a * b) as int, a * b, reduce(n, a * c) as int, a * c, n);
    lemma_mul_is_distributive_add(a as int, b as int, c as int);
}

/// The ring `Z/nZ` of integers modulo `n`.
#[derive(Debug, Clone, Copy)]
pub struct IntegersModuloN {
    n: usize,
}

impl IntegersModuloN {
    /// The ring of integers modulo `n`; `n` must be positive.
    pub fn new(n: usize) -> (r: Self)
        requires
            modulus_ok(n as int),
        ensures
            r.n() == n,
            r.wf(),
    {
        Self { n }
    }

    pub closed spec fn n(&self) -> usize {
        self.n
    }

    /// The modulus.
    pub fn modulus(&self) -> (r: usize)
        ensures
            r == self.n(),
    {
        self.n
    }
}

/// The field `Z/pZ` of integers modulo a prime `p`.
///
/// It computes as `IntegersModuloN` does; that `p` is prime is what makes
/// every residue but zero invertible.
#[derive(Debug, Clone, Copy)]
pub struct IntegersModuloP {
    p: usize,
}

impl IntegersModuloP {
    /// The field of integers modulo `p`, where `p` must be a prime.
    pub fn new_unchecked(p: usize) -> (r: Self)
        requires
            is_prime(p as int),
            p <= isize::MAX,
        ensures
            r.p() == p,
            r.wf(),
    {
        Self { p }
    }

    /// The field of integers modulo `p`, or `None` where `p` is not a prime.
    ///
    /// A prime above `isize::MAX` is accepted too, but its residues do not
    /// fit in `isize`: such a field cannot be computed in.
    pub fn checked_new(p: usize) -> (r: Option<Self>)
        ensures
            r is Some <==> is_prime(p as int),
            r matches Some(f) ==> f.p() == p && (p <= isize::MAX ==> f.wf()),
    {
        if check_prime(p) {
            Some(Self { p })
        } else {
            None
        }
    }

    /// The field of integers modulo `p`, checking that `p` is prime.
    pub fn new(p: usize) -> (r: Option<Self>)
        ensures
            r is Some <==> is_prime(p as int),
            r matches Some(f) ==> f.p() == p && (p <= isize::MAX ==> f.wf()),
    {
        Self::checked_new(p)
    }

    pub closed spec fn p(&self) -> usize {
        self.p
    }

    /// The modulus.
    pub fn modulus(&self) -> (r: usize)
        ensures
            r == self.p(),
    {
        self.p
    }
}

/// Whether `p` is prime, by trial division: after 2 and 3, only divisors of
/// the form `6k - 1` and `6k + 1` up to the square root of `p` are tried.
pub fn check_prime(p: usize) -> (r: bool)
    ensures
        r == is_prime(p as int),
{
    if p <= 1 {
        return false;
    }
    if p == 2 || p == 3 {
        assert forall|d: int| !#[trigger] is_proper_divisor(d, p as int) by {
            if 1 < d < p as int {
                assert(d == 2);
                assert(p == 3);
            }
        }
        return true;
    }
    if p % 2 == 0 {
        assert(is_proper_divisor(2, p as int));
        return false;
    }
    if p % 3 == 0 {
        assert(is_proper_divisor(3, p as int));
        return false;
    }
    let mut i: usize = 5;
    assert forall|d: int| 1 < d < 5 implies !#[trigger] is_proper_divisor(d, p as int) by {
        if d == 4 && is_proper_divisor(d, p as int) {
            assert(4int % 2 == 0);
            lemma_divides_trans(p as int, 4, 2);
        }
    }
    while i <= p / i
        invariant
            5 <= i,
            i % 6 == 5,
            p >= 5,
            p % 2 != 0,
            p % 3 != 0,
            forall|d: int| 1 < d < i ==> !#[trigger] is_proper_divisor(d, p as int),
        decreases p - i,
    {
        assert(i * i <= p) by {
            let q = p as int / i as int;
            let m = p as int % i as int;
            lemma_fundamental_div_mod(p as int, i as int);
            lemma_mod_bound(p as int, i as int);
            assert(i * i <= p) by (nonlinear_arith)
                requires
                    i <= q,
                    p == i * q + m,
                    0 <= m,
                    i >= 0,
            ;
        }
        assert(i + 2 < p) by (nonlinear_arith)
            requires
                i * i <= p,
                5 <= i,
        ;
        if p % i == 0 {
            assert(is_proper_divisor(i as int, p as int));
            return false;
        }
        if p % (i + 2) == 0 {
            assert(is_proper_divisor(i + 2, p as int));
            return false;
        }
        assert forall|d: int| 1 < d < i + 6 implies !#[trigger] is_proper_divisor(d, p as int) by {
            if i <= d && is_proper_divisor(d, p as int) {
                if d == i + 1 || d == i + 3 || d == i + 5 {
                    assert(d % 2 == 0);
                    lemma_divides_trans(p as int, d, 2);
                } else if d == i + 4 {
                    assert(d % 3 == 0);
                    lemma_divides_trans(p as int, d, 3);
                }
            }
        }
        i = i + 6;
    }
    assert forall|d: int| !#[trigger] is_proper_divisor(d, p as int) by {
        if is_proper_divisor(d, p as int) && d >= i {
            lemma_cofactor(p as int, d);
            let k = p as int / d;
            assert(p < i * i) by {
                let q = p as int / i as int;
                let m = p as int % i as int;
                lemma_fundamental_div_mod(p as int, i as int);
                lemma_mod_bound(p as int, i as int);
                assert(p < i * i) by (nonlinear_arith)
                    requires
                        q + 1 <= i,
                        p == i * q + m,
                        m < i,
                        i > 0,
                ;
            }
            if k >= i {
                lemma_mul_inequality(i as int, d, i as int);
                lemma_mul_inequality(i as int, k, d);
                lemma_mul_is_commutative(i as int, d);
                lemma_mul_is_commutative(k, d);
            }
            if k <= 1 {
                lemma_mul_inequality(k, 1, d);
                lemma_mul_is_commutative(k, d);
            }
            assert(is_proper_divisor(k, p as int));
        }
    }
    true
}

/// If `d` divides `y` and `r`, it divides `q * y + r`.
pub proof fn lemma_divides_combination(d: int, q: int, y: int, r: int)
    requires
        d > 0,
        y % d == 0,
        r % d == 0,
    ensures
        (q * y + r) % d == 0,
{
    lemma_fundamental_div_mod(y, d);
    lemma_fundamental_div_mod(r, d);
    let a = y / d;
    let b = r / d;
    assert(q * y + r == d * (q * a + b)) by (nonlinear_arith)
        requires
            y == d * a,
            r == d * b,
    ;
    lemma_mod_multiples_basic(q * a + b, d);
    lemma_mul_is_commutative(d, q * a + b);
}

/// The inverse of `elem` modulo `n`: a residue `s` with `s * elem ≡ 1`.
///
/// It runs the extended Euclidean algorithm on `n` and `elem`, keeping only
/// the residues of the Bézout coefficients of `elem`. The result is `None`
/// where the gcd is not 1, which for a prime `n` happens only when `elem` is
/// a multiple of `n`.
fn inv_mod_n(elem: isize, n: isize) -> (r: Option<isize>)
    requires
        n > 0,
    ensures
        r matches Some(s) ==> 0 <= s < n && (s * elem) % (n as int) == 1int % (n as int),
        is_prime(n as int) && (elem as int) % (n as int) != 0 ==> r is Some,
{
    let nu = n as usize;
    let e = reduce_exec(elem as i128, nu);
    proof {
        lemma_reduce(n as int, elem as int);
    }
    let mut x: usize = nu;
    let mut y: usize = e as usize;
    let mut s1: isize = 0;
    let mut s2: isize = 1 % n;
    proof {
        lemma_mod_cong(1, n as int);
        lemma_small_mod(0, n as nat);
        lemma_mod_self_0(n as int);
        lemma_cong_mul(1, 1, e as int, elem as int, n as int);
        if n == 1 {
            assert(1int % 1 == 0);
        } else {
            lemma_small_mod(1, n as nat);
        }
    }
    while y != 0
        invariant
            n > 0,
            nu == n,
            0 <= e < n,
            0 < x,
            y <= x,
            y < n || (y == x && x == n),
            x <= n,
            e as int % (n as int) == (elem as int) % (n as int),
            0 <= s1 < n,
            0 <= s2 < n,
            (s1 * elem) % (n as int) == x as int % (n as int),
            (s2 * elem) % (n as int) == y as int % (n as int),
            forall|d: int|
                d > 0 && #[trigger] (x as int % d) == 0 && y as int % d == 0 ==> (n as int) % d
                    == 0 && (e as int) % d == 0,
        decreases y,
    {
        let q = x / y;
        let rem = x % y;
        proof {
            lemma_fundamental_div_mod(x as int, y as int);
            lemma_mod_bound(x as int, y as int);
            assert(q <= x) by {
                lemma_div_is_ordered_by_denominator(x as int, 1, y as int);
            }
            assert(q * s2 < 0x4000_0000_0000_0000_0000_0000_0000_0000) by (nonlinear_arith)
                requires
                    q <= n,
                    s2 < n,
                    n < 0x8000_0000_0000_0000,
                    0 <= s2,
            ;
            assert(0 <= q * s2) by (nonlinear_arith)
                requires
                    0 <= q,
                    0 <= s2,
            ;
        }
        let t = s1 as i128 - (q as i128) * (s2 as i128);
        let s = reduce_exec(t, nu);
        proof {
            let ni = n as int;
            lemma_reduce(ni, t as int);
            // s * elem ≡ (s1 - q * s2) * elem == s1 * elem - q * (s2 * elem) ≡ x - q * y == rem
            assert((s1 - q * s2) * elem == s1 * elem - q * (s2 * elem)) by (nonlinear_arith);
            lemma_cong_mul(s as int, t as int, elem as int, elem as int, ni);
            lemma_cong_mul(q as int, q as int, s2 * elem, y as int, ni);
            lemma_cong_neg(q * (s2 * elem), q * y, ni);
            lemma_cong_add(s1 * elem, x as int, -(q * (s2 * elem)), -(q * y), ni);
            assert(x as int - q * y == rem);
            assert forall|d: int|
                d > 0 && #[trigger] (y as int % d) == 0 && rem as int % d == 0 implies (n as int) % d
                == 0 && (e as int) % d == 0 by {
                lemma_divides_combination(d, q as int, y as int, rem as int);
            }
        }
        x = y;
        y = rem;
        s1 = s2;
        s2 = s;
    }
    proof {
        lemma_mod_self_0(x as int);
        lemma_small_mod(0, x as nat);
    }
    if x == 1 {
        proof {
            lemma_mul_is_commutative(s1 as int, elem as int);
        }
        Some(s1)
    } else {
        proof {
            if is_prime(n as int) && (elem as int) % (n as int) != 0 {
                // x divides n and the nonzero residue e < n, so x is a proper divisor of n
                assert((n as int) % (x as int) == 0 && (e as int) % (x as int) == 0);
                assert(e != 0);
                assert(x <= e) by {
                    lemma_cofactor(e as int, x as int);
                    lemma_mul_inequality(1, (e as int) / (x as int), x as int);
                }
                assert(is_proper_divisor(x as int, n as int));
            }
        }
        None
    }
}

/// The extended Euclidean algorithm on residues, as a proof: from the pair
/// `(x, y)` whose residues are `s1 * e` and `s2 * e` and whose common divisors
/// divide `n` and `e`, a prime `n` gives `e` an inverse.
proof fn lemma_inverse_steps(n: int, e: int, x: int, y: int, s1: int, s2: int)
    requires
        n > 1,
        0 < e < n,
        0 < x,
        0 <= y <= x,
        y < n || x == n,
        x <= n,
        (s1 * e) % n == x % n,
        (s2 * e) % n == y % n,
        forall|d: int|
            d > 0 && #[trigger] (x % d) == 0 && y % d == 0 ==> n % d == 0 && e % d == 0,
    ensures
        is_prime(n) ==> exists|s: int| 0 <= s < n && #[trigger] ((s * e) % n) == 1,
    decreases y,
{
    if y == 0 {
        lemma_mod_self_0(x);
        lemma_small_mod(0, x as nat);
        if is_prime(n) {
            assert(n % x == 0 && e % x == 0);
            assert(x <= e) by {
                lemma_cofactor(e, x);
                lemma_mul_inequality(1, e / x, x);
            }
            if x != 1 {
                assert(is_proper_divisor(x, n));
            }
            let s = s1 % n;
            lemma_mod_cong(s1, n);
            lemma_cong_mul(s, s1, e, e, n);
            lemma_small_mod(1, n as nat);
            assert(0 <= s < n && (s * e) % n == 1);
        }
    } else {
        let q = x / y;
        let r = x % y;
        lemma_fundamental_div_mod(x, y);
        lemma_mod_bound(x, y);
        let s = s1 - q * s2;
        assert((s1 - q * s2) * e == s1 * e - q * (s2 * e)) by (nonlinear_arith);
        lemma_cong_mul(q, q, s2 * e, y, n);
        lemma_cong_neg(q * (s2 * e), q * y, n);
        lemma_cong_add(s1 * e, x, -(q * (s2 * e)), -(q * y), n);
        lemma_mul_is_commutative(q, y);
        assert(x - q * y == r);
        assert forall|d: int| d > 0 && #[trigger] (y % d) == 0 && r % d == 0 implies n % d == 0 && e
            % d == 0 by {
            lemma_divides_combination(d, q, y, r);
            assert(q * y + r == x);
        }
        lemma_inverse_steps(n, e, y, r, s2, s);
    }
}

/// Every nonzero residue modulo a prime has an inverse.
pub proof fn lemma_inverse_exists(p: int, a: int)
    requires
        is_prime(p),
        0 < a < p,
    ensures
        exists|s: int| 0 <= s < p && #[trigger] ((s * a) % p) == 1,
{
    lemma_small_mod(0, p as nat);
    lemma_small_mod(1, p as nat);
    lemma_small_mod(a as nat, p as nat);
    lemma_mod_self_0(p);
    assert((0 * a) % p == p % p);
    assert((1 * a) % p == a % p);
    assert forall|d: int| d > 0 && #[trigger] (p % d) == 0 && a % d == 0 implies p % d == 0 && a % d
        == 0 by {
    }
    lemma_inverse_steps(p, a, p, a, 0, 1);
}

impl Ring for IntegersModuloN {
    type Element = isize;

    open spec fn wf(&self) -> bool {
        modulus_ok(self.n() as int)
    }

    open spec fn elem_ok(&self, e: &isize) -> bool {
        residue(self.n() as int, *e)
    }

    open spec fn valid(&self, v: isize) -> bool {
        residue(self.n() as int, v)
    }

    open spec fn admits(&self, e: &isize) -> bool {
        true
    }

    open spec fn zero_v(&self) -> isize {
        0
    }

    open spec fn one_v(&self) -> isize {
        reduce(self.n() as int, 1)
    }

    open spec fn add_v(&self, a: isize, b: isize) -> isize {
        reduce(self.n() as int, a + b)
    }

    open spec fn neg_v(&self, a: isize) -> isize {
        reduce(self.n() as int, -a)
    }

    open spec fn mul_v(&self, a: isize, b: isize) -> isize {
        reduce(self.n() as int, a * b)
    }

    open spec fn mul_ok(&self, a: isize, b: isize) -> bool {
        true
    }

    open spec fn id_v(&self, a: isize) -> isize {
        reduce(self.n() as int, a as int)
    }

    proof fn lemma_elem_valid(&self, e: &isize) {
    }

    fn zero(&self) -> (r: isize) {
        0
    }

    fn one(&self) -> (r: isize) {
        reduce_exec(1, self.n)
    }

    fn add(&self, lhs: isize, rhs: isize) -> (r: isize) {
        add_mod(self.n, lhs, rhs)
    }

    fn neg(&self, elem: isize) -> (r: isize) {
        neg_mod(self.n, elem)
    }

    fn mul(&self, lhs: isize, rhs: isize) -> (r: isize) {
        mul_mod(self.n, lhs, rhs)
    }

    fn id(&self, elem: &isize) -> (r: isize) {
        proof {
            if residue(self.n() as int, *elem) {
                lemma_residue_fixed(self.n() as int, *elem);
            }
        }
        reduce_exec(*elem as i128, self.n)
    }

    fn can_mul(&self, lhs: &isize, rhs: &isize) -> (r: bool) {
        true
    }

    fn equal(&self, lhs: &isize, rhs: &isize) -> (r: bool) {
        *lhs == *rhs
    }

    fn copy_elem(&self, elem: &isize) -> (r: isize) {
        *elem
    }
}

impl CommutativeRing for IntegersModuloN {
    proof fn lemma_identities_valid(&self) {
        lemma_reduce(self.n() as int, 1);
    }

    proof fn lemma_closed(&self, a: isize, b: isize) {
        let n = self.n() as int;
        lemma_reduce(n, 1);
        lemma_reduce(n, a + b);
        lemma_reduce(n, -a);
        lemma_reduce(n, a * b);
    }

    proof fn lemma_add_assoc(&self, a: isize, b: isize, c: isize) {
        lemma_add_assoc_mod(self.n() as int, a, b, c);
    }

    proof fn lemma_add_comm(&self, a: isize, b: isize) {
        assert(a + b == b + a);
    }

    proof fn lemma_add_zero(&self, a: isize) {
        lemma_residue_fixed(self.n() as int, a);
    }

    proof fn lemma_add_neg(&self, a: isize) {
        lemma_add_neg_mod(self.n() as int, a);
    }

    proof fn lemma_mul_assoc(&self, a: isize, b: isize, c: isize) {
        lemma_mul_assoc_mod(self.n() as int, a, b, c);
    }

    proof fn lemma_mul_comm(&self, a: isize, b: isize) {
        lemma_mul_is_commutative(a as int, b as int);
    }

    proof fn lemma_mul_one(&self, a: isize) {
        lemma_mul_one_mod(self.n() as int, a);
    }

    proof fn lemma_distrib(&self, a: isize, b: isize, c: isize) {
        lemma_distrib_mod(self.n() as int, a, b, c);
    }
}

impl Ring for IntegersModuloP {
    type Element = isize;

    open spec fn wf(&self) -> bool {
        modulus_ok(self.p() as int) && is_prime(self.p() as int)
    }

    open spec fn elem_ok(&self, e: &isize) -> bool {
        residue(self.p() as int, *e)
    }

    open spec fn valid(&self, v: isize) -> bool {
        residue(self.p() as int, v)
    }

    open spec fn admits(&self, e: &isize) -> bool {
        true
    }

    open spec fn zero_v(&self) -> isize {
        0
    }

    open spec fn one_v(&self) -> isize {
        reduce(self.p() as int, 1)
    }

    open spec fn add_v(&self, a: isize, b: isize) -> isize {
        reduce(self.p() as int, a + b)
    }

    open spec fn neg_v(&self, a: isize) -> isize {
        reduce(self.p() as int, -a)
    }

    open spec fn mul_v(&self, a: isize, b: isize) -> isize {
        reduce(self.p() as int, a * b)
    }

    open spec fn mul_ok(&self, a: isize, b: isize) -> bool {
        true
    }

    open spec fn id_v(&self, a: isize) -> isize {
        reduce(self.p() as int, a as int)
    }

    proof fn lemma_elem_valid(&self, e: &isize) {
    }

    fn zero(&self) -> (r: isize) {
        0
    }

    fn one(&self) -> (r: isize) {
        reduce_exec(1, self.p)
    }

    fn add(&self, lhs: isize, rhs: isize) -> (r: isize) {
        add_mod(self.p, lhs, rhs)
    }

    fn neg(&self, elem: isize) -> (r: isize) {
        neg_mod(self.p, elem)
    }

    fn mul(&self, lhs: isize, rhs: isize) -> (r: isize) {
        mul_mod(self.p, lhs, rhs)
    }

    fn id(&self, elem: &isize) -> (r: isize) {
        proof {
            if residue(self.p() as int, *elem) {
                lemma_residue_fixed(self.p() as int, *elem);
            }
        }
        reduce_exec(*elem as i128, self.p)
    }

    fn can_mul(&self, lhs: &isize, rhs: &isize) -> (r: bool) {
        true
    }

    fn equal(&self, lhs: &isize, rhs: &isize) -> (r: bool) {
        *lhs == *rhs
    }

    fn copy_elem(&self, elem: &isize) -> (r: isize) {
        *elem
    }
}

impl CommutativeRing for IntegersModuloP {
    proof fn lemma_identities_valid(&self) {
        lemma_reduce(self.p() as int, 1);
    }

    proof fn lemma_closed(&self, a: isize, b: isize) {
        let n = self.p() as int;
        lemma_reduce(n, 1);
        lemma_reduce(n, a + b);
        lemma_reduce(n, -a);
        lemma_reduce(n, a * b);
    }

    proof fn lemma_add_assoc(&self, a: isize, b: isize, c: isize) {
        lemma_add_assoc_mod(self.p() as int, a, b, c);
    }

    proof fn lemma_add_comm(&self, a: isize, b: isize) {
        assert(a + b == b + a);
    }

    proof fn lemma_add_zero(&self, a: isize) {
        lemma_residue_fixed(self.p() as int, a);
    }

    proof fn lemma_add_neg(&self, a: isize) {
        lemma_add_neg_mod(self.p() as int, a);
    }

    proof fn lemma_mul_assoc(&self, a: isize, b: isize, c: isize) {
        lemma_mul_assoc_mod(self.p() as int, a, b, c);
    }

    proof fn lemma_mul_comm(&self, a: isize, b: isize) {
        lemma_mul_is_commutative(a as int, b as int);
    }

    proof fn lemma_mul_one(&self, a: isize) {
        lemma_mul_one_mod(self.p() as int, a);
    }

    proof fn lemma_distrib(&self, a: isize, b: isize, c: isize) {
        lemma_distrib_mod(self.p() as int, a, b, c);
    }
}

impl Field for IntegersModuloP {
    open spec fn inv_v(&self, a: isize) -> isize {
        choose|s: isize| residue(self.p() as int, s) && self.mul_v(a, s) == self.one_v()
    }

    proof fn lemma_inv_v(&self, a: isize) {
        let p = self.p() as int;
        lemma_inverse_exists(p, a as int);
        let s = choose|s: int| 0 <= s < p && #[trigger] ((s * a) % p) == 1;
        let si = s as isize;
        lemma_small_mod(1, p as nat);
        lemma_mul_is_commutative(s, a as int);
        assert(residue(p, si) && self.mul_v(a, si) == self.one_v());
    }

    proof fn lemma_mul_ok(&self, a: isize, b: isize) {
    }

    fn inv(&self, elem: isize) -> (r: Option<isize>) {
        if elem == 0 {
            assert(elem@ == self.zero_v());
            return None;
        }
        proof {
            lemma_small_mod(elem as nat, self.p() as nat);
            lemma_small_mod(1, self.p() as nat);
        }
        match inv_mod_n(elem, self.p as isize) {
            Some(s) => {
                proof {
                    lemma_mul_is_commutative(s as int, elem as int);
                    assert(self.mul_v(elem, s) == self.one_v());
                    assert(self.mul_v(elem@, s@) == self.one_v());
                    assert(elem@ != self.zero_v());
                    let c = self.inv_v(elem);
                    assert(residue(self.p() as int, s) && self.mul_v(elem, s) == self.one_v());
                    assert(residue(self.p() as int, c) && self.mul_v(elem, c) == self.one_v());
                    self.lemma_identities_valid();
                    crate::ring::lemma_inverse_unique(*self, elem, s, c);
                }
                Some(s)
            },
            None => {
                proof {
                    assert((elem as int) % (self.p() as int) != 0);
                    assert(is_prime(self.p() as int));
                }
                None
            },
        }
    }
}

} // verus!
