//! Laws of polynomial arithmetic over a commutative ring, stated over
//! coefficient sequences.
use crate::polynomial::{
    pdiv,
    add_raw, add_seq, canonical, coef, conv, lemma_trim, lemma_trim_canonical, lemma_trim_valid,
    mul_raw, mul_seq, neg_seq, single_raw, single_seq, sub_raw, sub_seq, trim,
};
use crate::ring::{
    lemma_add_swap, lemma_mul_zero, lemma_no_zero_divisors, CommutativeRing, Field, Ring, Val,
};
use vstd::prelude::*;

verus! {

/// `0 + x == x`.
pub proof fn lemma_zero_add<R: CommutativeRing>(r: R, x: Val<R>)
    requires
        r.wf(),
        r.valid(x),
    ensures
        r.add_v(r.zero_v(), x) == x,
{
    r.lemma_closed(x, x);
    r.lemma_add_comm(r.zero_v(), x);
    r.lemma_add_zero(x);
}

/// `0 * x == 0`.
pub proof fn lemma_zero_mul<R: CommutativeRing>(r: R, x: Val<R>)
    requires
        r.wf(),
        r.valid(x),
    ensures
        r.mul_v(r.zero_v(), x) == r.zero_v(),
{
    r.lemma_closed(x, x);
    r.lemma_mul_comm(r.zero_v(), x);
    lemma_mul_zero(r, x);
}

/// The terms of `conv` before a run of zero coefficients of `a` add nothing.
proof fn lemma_conv_zero_prefix<R: CommutativeRing>(
    r: R,
    a: Seq<Val<R>>,
    b: Seq<Val<R>>,
    k: int,
    n: int,
)
    requires
        r.wf(),
        canonical(r, b),
        0 <= n <= a.len(),
        forall|i: int| 0 <= i < n ==> #[trigger] a[i] == r.zero_v(),
    ensures
        conv(r, a, b, k, n) == r.zero_v(),
    decreases n,
{
    if n > 0 {
        lemma_conv_zero_prefix(r, a, b, k, n - 1);
        let i = n - 1;
        if i <= k && k - i < b.len() {
            r.lemma_identities_valid();
            lemma_zero_mul(r, b[k - i]);
            r.lemma_add_zero(r.zero_v());
        }
    }
}

/// `(c * x^m) * d` shifts `d` up by `m` and scales it by `c`, for `c` not zero.
pub proof fn lemma_single_mul<R: CommutativeRing>(r: R, c: Val<R>, m: int, d: Seq<Val<R>>)
    requires
        r.wf(),
        r.valid(c),
        c != r.zero_v(),
        m >= 0,
        canonical(r, d),
        d.len() > 0,
    ensures
        single_seq(r, c, m) == single_raw(r, c, m),
        mul_raw(r, single_raw(r, c, m), d).len() == m + d.len(),
        forall|k: int|
            0 <= k < m + d.len() ==> #[trigger] mul_raw(r, single_raw(r, c, m), d)[k] == if k < m {
                r.zero_v()
            } else {
                r.mul_v(c, d[k - m])
            },
{
    let a = single_raw(r, c, m);
    lemma_trim_canonical(r, a);
    assert forall|k: int| 0 <= k < m + d.len() implies #[trigger] mul_raw(r, a, d)[k] == if k < m {
        r.zero_v()
    } else {
        r.mul_v(c, d[k - m])
    } by {
        lemma_conv_zero_prefix(r, a, d, k, m);
        if m <= k {
            r.lemma_closed(c, d[k - m]);
            lemma_zero_add(r, r.mul_v(c, d[k - m]));
        }
    }
}

/// One step of long division lowers the degree: subtracting
/// `(c * x^m) * d`, where `c * lc(d) == lc(r)` and `m = deg(r) - deg(d)`,
/// cancels the leading coefficient of `r`.
pub proof fn lemma_division_step<R: CommutativeRing>(
    r: R,
    rem: Seq<Val<R>>,
    d: Seq<Val<R>>,
    c: Val<R>,
)
    requires
        r.wf(),
        canonical(r, rem),
        canonical(r, d),
        d.len() > 0,
        rem.len() >= d.len(),
        r.valid(c),
        r.mul_v(c, d.last()) == rem.last(),
    ensures
        sub_seq(r, rem, mul_seq(r, single_seq(r, c, rem.len() - d.len()), d)).len() < rem.len(),
{
    let m = rem.len() - d.len();
    let len = rem.len() as int;
    r.lemma_identities_valid();
    if c == r.zero_v() {
        lemma_zero_mul(r, d.last());
    }
    lemma_single_mul(r, c, m, d);
    let a = single_raw(r, c, m);
    let raw = mul_raw(r, a, d);
    assert(raw[len - 1] == rem.last());
    lemma_trim_canonical(r, raw);
    assert(mul_seq(r, single_seq(r, c, m), d) == raw);
    let s = sub_raw(r, rem, raw);
    assert(s.len() == len);
    r.lemma_add_neg(rem.last());
    assert(s[len - 1] == r.zero_v());
    lemma_trim(r, s);
    if trim(r, s).len() == len {
        assert(trim(r, s) == s.subrange(0, len));
        assert(trim(r, s).last() == s[len - 1]);
    }
}

/// `f(0) + f(1) + ... + f(n - 1)`, added from the left.
pub open spec fn sum<R: Ring>(r: R, f: spec_fn(int) -> Val<R>, n: int) -> Val<R>
    decreases n,
{
    if n <= 0 {
        r.zero_v()
    } else {
        r.add_v(sum(r, f, n - 1), f(n - 1))
    }
}

/// Every term below `n` is valid.
pub open spec fn terms_valid<R: Ring>(r: R, f: spec_fn(int) -> Val<R>, n: int) -> bool {
    forall|i: int| 0 <= i < n ==> r.valid(#[trigger] f(i))
}

pub proof fn lemma_sum_valid<R: CommutativeRing>(r: R, f: spec_fn(int) -> Val<R>, n: int)
    requires
        r.wf(),
        terms_valid(r, f, n),
    ensures
        r.valid(sum(r, f, n)),
    decreases n,
{
    r.lemma_identities_valid();
    if n > 0 {
        lemma_sum_valid(r, f, n - 1);
        r.lemma_closed(sum(r, f, n - 1), f(n - 1));
    }
}

/// Sums of terms that agree below `n` agree.
pub proof fn lemma_sum_eq<R: CommutativeRing>(
    r: R,
    f: spec_fn(int) -> Val<R>,
    g: spec_fn(int) -> Val<R>,
    n: int,
)
    requires
        forall|i: int| 0 <= i < n ==> #[trigger] f(i) == g(i),
    ensures
        sum(r, f, n) == sum(r, g, n),
    decreases n,
{
    if n > 0 {
        lemma_sum_eq(r, f, g, n - 1);
    }
}

/// A sum of zeros is zero.
pub proof fn lemma_sum_zero<R: CommutativeRing>(r: R, f: spec_fn(int) -> Val<R>, n: int)
    requires
        r.wf(),
        forall|i: int| 0 <= i < n ==> #[trigger] f(i) == r.zero_v(),
    ensures
        sum(r, f, n) == r.zero_v(),
    decreases n,
{
    if n > 0 {
        lemma_sum_zero(r, f, n - 1);
        r.lemma_identities_valid();
        r.lemma_add_zero(r.zero_v());
    }
}

/// Terms from `n` up to `m` that are zero add nothing.
pub proof fn lemma_sum_extend<R: CommutativeRing>(r: R, f: spec_fn(int) -> Val<R>, n: int, m: int)
    requires
        r.wf(),
        0 <= n <= m,
        terms_valid(r, f, n),
        forall|i: int| n <= i < m ==> #[trigger] f(i) == r.zero_v(),
    ensures
        sum(r, f, m) == sum(r, f, n),
    decreases m - n,
{
    if n < m {
        lemma_sum_extend(r, f, n, m - 1);
        lemma_sum_valid(r, f, n);
        r.lemma_add_zero(sum(r, f, n));
    }
}

/// `sum(f + g) == sum(f) + sum(g)`.
pub proof fn lemma_sum_add<R: CommutativeRing>(
    r: R,
    f: spec_fn(int) -> Val<R>,
    g: spec_fn(int) -> Val<R>,
    h: spec_fn(int) -> Val<R>,
    n: int,
)
    requires
        r.wf(),
        terms_valid(r, f, n),
        terms_valid(r, g, n),
        forall|i: int| 0 <= i < n ==> #[trigger] h(i) == r.add_v(f(i), g(i)),
    ensures
        sum(r, h, n) == r.add_v(sum(r, f, n), sum(r, g, n)),
    decreases n,
{
    r.lemma_identities_valid();
    if n <= 0 {
        r.lemma_add_zero(r.zero_v());
    } else {
        lemma_sum_add(r, f, g, h, n - 1);
        lemma_sum_valid(r, f, n - 1);
        lemma_sum_valid(r, g, n - 1);
        lemma_add_swap(r, sum(r, f, n - 1), sum(r, g, n - 1), f(n - 1), g(n - 1));
    }
}

/// `c * sum(f) == sum(c * f)`.
pub proof fn lemma_sum_scale<R: CommutativeRing>(
    r: R,
    c: Val<R>,
    f: spec_fn(int) -> Val<R>,
    h: spec_fn(int) -> Val<R>,
    n: int,
)
    requires
        r.wf(),
        r.valid(c),
        terms_valid(r, f, n),
        forall|i: int| 0 <= i < n ==> #[trigger] h(i) == r.mul_v(c, f(i)),
    ensures
        sum(r, h, n) == r.mul_v(c, sum(r, f, n)),
    decreases n,
{
    r.lemma_identities_valid();
    if n <= 0 {
        lemma_mul_zero(r, c);
    } else {
        lemma_sum_scale(r, c, f, h, n - 1);
        lemma_sum_valid(r, f, n - 1);
        r.lemma_distrib(c, sum(r, f, n - 1), f(n - 1));
    }
}

/// `sum(f) * c == sum(f * c)`.
pub proof fn lemma_sum_scale_right<R: CommutativeRing>(
    r: R,
    c: Val<R>,
    f: spec_fn(int) -> Val<R>,
    h: spec_fn(int) -> Val<R>,
    n: int,
)
    requires
        r.wf(),
        r.valid(c),
        terms_valid(r, f, n),
        forall|i: int| 0 <= i < n ==> #[trigger] h(i) == r.mul_v(f(i), c),
    ensures
        sum(r, h, n) == r.mul_v(sum(r, f, n), c),
{
    assert forall|i: int| 0 <= i < n implies #[trigger] h(i) == r.mul_v(c, f(i)) by {
        r.lemma_mul_comm(f(i), c);
    }
    lemma_sum_scale(r, c, f, h, n);
    lemma_sum_valid(r, f, n);
    r.lemma_mul_comm(sum(r, f, n), c);
}

/// Splitting off the first term: `sum(f, n + 1) == f(0) + sum(f(1 + _), n)`.
pub proof fn lemma_sum_first<R: CommutativeRing>(r: R, f: spec_fn(int) -> Val<R>, n: int)
    requires
        r.wf(),
        n >= 0,
        terms_valid(r, f, n + 1),
    ensures
        sum(r, f, n + 1) == r.add_v(f(0), sum(r, |i: int| f(i + 1), n)),
    decreases n,
{
    r.lemma_identities_valid();
    if n == 0 {
        r.lemma_add_comm(r.zero_v(), f(0));
        r.lemma_add_zero(f(0));
        assert(sum(r, f, 0) == r.zero_v());
        assert(sum(r, f, 1) == r.add_v(r.zero_v(), f(0)));
        assert(sum(r, |i: int| f(i + 1), 0) == r.zero_v());
    } else {
        lemma_sum_first(r, f, n - 1);
        assert(terms_valid(r, |i: int| f(i + 1), n));
        lemma_sum_valid(r, |i: int| f(i + 1), n - 1);
        r.lemma_add_assoc(f(0), sum(r, |i: int| f(i + 1), n - 1), f(n));
        assert(sum(r, |i: int| f(i + 1), n) == r.add_v(
            sum(r, |i: int| f(i + 1), n - 1),
            f(n),
        ));
        assert(sum(r, f, n + 1) == r.add_v(sum(r, f, n), f(n)));
    }
}

/// A sum read backwards: `sum(f, n) == sum(f(n - 1 - _), n)`.
pub proof fn lemma_sum_reverse<R: CommutativeRing>(r: R, f: spec_fn(int) -> Val<R>, n: int)
    requires
        r.wf(),
        n >= 0,
        terms_valid(r, f, n),
    ensures
        sum(r, f, n) == sum(r, |i: int| f(n - 1 - i), n),
    decreases n,
{
    if n > 0 {
        let g = |i: int| f(n - 1 - i);
        let fm = |i: int| f(n - 2 - i);
        lemma_sum_reverse(r, f, n - 1);
        // sum(g, n) == g(0) + sum(g(1 + _), n - 1) and g(1 + i) == f(n - 2 - i)
        assert(terms_valid(r, g, n));
        lemma_sum_first(r, g, n - 1);
        lemma_sum_eq(r, |i: int| g(i + 1), fm, n - 1);
        lemma_sum_valid(r, f, n - 1);
        r.lemma_add_comm(sum(r, f, n - 1), f(n - 1));
    }
}

/// Sums over a rectangle may be taken in either order.
pub proof fn lemma_sum_swap<R: CommutativeRing>(
    r: R,
    f: spec_fn(int, int) -> Val<R>,
    n: int,
    m: int,
)
    requires
        r.wf(),
        n >= 0,
        m >= 0,
        forall|i: int, j: int| 0 <= i < n && 0 <= j < m ==> r.valid(#[trigger] f(i, j)),
    ensures
        sum(r, |i: int| sum(r, |j: int| f(i, j), m), n) == sum(
            r,
            |j: int| sum(r, |i: int| f(i, j), n),
            m,
        ),
    decreases n,
{
    r.lemma_identities_valid();
    if n == 0 {
        lemma_sum_zero(r, |j: int| sum(r, |i: int| f(i, j), 0), m);
    } else {
        lemma_sum_swap(r, f, n - 1, m);
        let cols = |j: int| sum(r, |i: int| f(i, j), n - 1);
        let last = |j: int| f(n - 1, j);
        let both = |j: int| sum(r, |i: int| f(i, j), n);
        assert forall|j: int| 0 <= j < m implies r.valid(#[trigger] cols(j)) by {
            lemma_sum_valid(r, |i: int| f(i, j), n - 1);
        }
        assert(terms_valid(r, last, m));
        assert forall|j: int| 0 <= j < m implies #[trigger] both(j) == r.add_v(cols(j), last(j)) by {
        }
        lemma_sum_add(r, cols, last, both, m);
        lemma_sum_eq(r, |j: int| f(n - 1, j), last, m);
    }
}

/// Canonical sequences with the same coefficients are equal.
pub proof fn lemma_canonical_ext<R: Ring>(r: R, a: Seq<Val<R>>, b: Seq<Val<R>>)
    requires
        canonical(r, a),
        canonical(r, b),
        forall|k: int| 0 <= k ==> #[trigger] coef(r, a, k) == coef(r, b, k),
    ensures
        a == b,
{
    if a.len() < b.len() {
        assert(coef(r, a, b.len() - 1) == coef(r, b, b.len() - 1));
        assert(coef(r, b, b.len() - 1) == b.last());
    } else if b.len() < a.len() {
        assert(coef(r, a, a.len() - 1) == coef(r, b, a.len() - 1));
        assert(coef(r, a, a.len() - 1) == a.last());
    } else {
        assert forall|k: int| 0 <= k < a.len() implies a[k] == b[k] by {
            assert(coef(r, a, k) == coef(r, b, k));
        }
        assert(a =~= b);
    }
}

/// The coefficient of a sequence is valid.
pub proof fn lemma_coef_valid<R: CommutativeRing>(r: R, a: Seq<Val<R>>, k: int)
    requires
        r.wf(),
        canonical(r, a),
    ensures
        r.valid(coef(r, a, k)),
{
    r.lemma_identities_valid();
}

/// The coefficients of a sum are the sums of the coefficients.
pub proof fn lemma_add_coef<R: CommutativeRing>(r: R, a: Seq<Val<R>>, b: Seq<Val<R>>)
    requires
        r.wf(),
        canonical(r, a),
        canonical(r, b),
    ensures
        canonical(r, add_seq(r, a, b)),
        forall|k: int| #[trigger] coef(r, add_seq(r, a, b), k) == r.add_v(coef(r, a, k), coef(r, b, k)),
{
    let raw = add_raw(r, a, b);
    r.lemma_identities_valid();
    r.lemma_add_zero(r.zero_v());
    assert forall|i: int| 0 <= i < raw.len() implies r.valid(#[trigger] raw[i]) by {
        lemma_coef_valid(r, a, i);
        lemma_coef_valid(r, b, i);
        r.lemma_closed(coef(r, a, i), coef(r, b, i));
    }
    lemma_trim_valid(r, raw);
    lemma_trim(r, raw);
}

/// The coefficients of a negation are the negated coefficients.
pub proof fn lemma_neg_coef<R: CommutativeRing>(r: R, a: Seq<Val<R>>)
    requires
        r.wf(),
        canonical(r, a),
    ensures
        canonical(r, neg_seq(r, a)),
        forall|k: int| #[trigger] coef(r, neg_seq(r, a), k) == r.neg_v(coef(r, a, k)),
{
    let raw = a.map_values(|e: Val<R>| r.neg_v(e));
    r.lemma_identities_valid();
    assert(r.neg_v(r.zero_v()) == r.zero_v()) by {
        r.lemma_add_neg(r.zero_v());
        r.lemma_closed(r.zero_v(), r.zero_v());
        crate::poly_laws::lemma_zero_add(r, r.neg_v(r.zero_v()));
    }
    assert forall|i: int| 0 <= i < raw.len() implies r.valid(#[trigger] raw[i]) by {
        r.lemma_closed(a[i], a[i]);
    }
    lemma_trim_valid(r, raw);
    lemma_trim(r, raw);
}

/// The coefficients of a difference.
pub proof fn lemma_sub_coef<R: CommutativeRing>(r: R, a: Seq<Val<R>>, b: Seq<Val<R>>)
    requires
        r.wf(),
        canonical(r, a),
        canonical(r, b),
    ensures
        canonical(r, sub_seq(r, a, b)),
        forall|k: int| #[trigger] coef(r, sub_seq(r, a, b), k) == r.add_v(
            coef(r, a, k),
            r.neg_v(coef(r, b, k)),
        ),
{
    let raw = sub_raw(r, a, b);
    r.lemma_identities_valid();
    assert(r.add_v(r.zero_v(), r.neg_v(r.zero_v())) == r.zero_v()) by {
        r.lemma_add_neg(r.zero_v());
    }
    assert forall|i: int| 0 <= i < raw.len() implies r.valid(#[trigger] raw[i]) by {
        lemma_coef_valid(r, a, i);
        lemma_coef_valid(r, b, i);
        r.lemma_closed(coef(r, b, i), coef(r, b, i));
        r.lemma_closed(coef(r, a, i), r.neg_v(coef(r, b, i)));
    }
    lemma_trim_valid(r, raw);
    lemma_trim(r, raw);
}

/// The coefficient of degree `k` of `a * b`: `a[0] * b[k] + ... + a[k] * b[0]`.
pub open spec fn mulc<R: Ring>(r: R, a: Seq<Val<R>>, b: Seq<Val<R>>, k: int) -> Val<R> {
    sum(r, |i: int| r.mul_v(coef(r, a, i), coef(r, b, k - i)), k + 1)
}

/// `conv` is the sum of the products with the missing terms taken as zero.
proof fn lemma_conv_sum<R: CommutativeRing>(r: R, a: Seq<Val<R>>, b: Seq<Val<R>>, k: int, n: int)
    requires
        r.wf(),
        canonical(r, a),
        canonical(r, b),
        0 <= n <= a.len(),
    ensures
        conv(r, a, b, k, n) == sum(r, |i: int| r.mul_v(coef(r, a, i), coef(r, b, k - i)), n),
    decreases n,
{
    r.lemma_identities_valid();
    if n > 0 {
        lemma_conv_sum(r, a, b, k, n - 1);
        let i = n - 1;
        let f = |i: int| r.mul_v(coef(r, a, i), coef(r, b, k - i));
        assert(terms_valid(r, f, n - 1)) by {
            assert forall|j: int| 0 <= j < n - 1 implies r.valid(#[trigger] f(j)) by {
                lemma_coef_valid(r, a, j);
                lemma_coef_valid(r, b, k - j);
                r.lemma_closed(coef(r, a, j), coef(r, b, k - j));
            }
        }
        lemma_sum_valid(r, f, n - 1);
        if !(i <= k && k - i < b.len()) {
            lemma_mul_zero(r, a[i]);
            r.lemma_add_zero(sum(r, f, n - 1));
        }
    }
}

/// The terms of `mulc` are valid.
proof fn lemma_mulc_terms<R: CommutativeRing>(r: R, a: Seq<Val<R>>, b: Seq<Val<R>>, k: int, n: int)
    requires
        r.wf(),
        canonical(r, a),
        canonical(r, b),
    ensures
        terms_valid(r, |i: int| r.mul_v(coef(r, a, i), coef(r, b, k - i)), n),
{
    let f = |i: int| r.mul_v(coef(r, a, i), coef(r, b, k - i));
    assert forall|j: int| 0 <= j < n implies r.valid(#[trigger] f(j)) by {
        lemma_coef_valid(r, a, j);
        lemma_coef_valid(r, b, k - j);
        r.lemma_closed(coef(r, a, j), coef(r, b, k - j));
    }
}

/// The coefficients of a product are given by `mulc`.
pub proof fn lemma_mul_coef<R: CommutativeRing>(r: R, a: Seq<Val<R>>, b: Seq<Val<R>>)
    requires
        r.wf(),
        canonical(r, a),
        canonical(r, b),
    ensures
        canonical(r, mul_seq(r, a, b)),
        forall|k: int| 0 <= k ==> #[trigger] coef(r, mul_seq(r, a, b), k) == mulc(r, a, b, k),
{
    r.lemma_identities_valid();
    assert forall|k: int| 0 <= k implies #[trigger] coef(r, mul_seq(r, a, b), k) == mulc(r, a, b, k) by {
        let f = |i: int| r.mul_v(coef(r, a, i), coef(r, b, k - i));
        lemma_mulc_terms(r, a, b, k, k + 1);
        lemma_mulc_terms(r, a, b, k, a.len() as int);
        if a.len() == 0 || b.len() == 0 || k >= a.len() + b.len() - 1 {
            assert forall|i: int| 0 <= i < k + 1 implies #[trigger] f(i) == r.zero_v() by {
                if i >= a.len() {
                    lemma_coef_valid(r, b, k - i);
                    lemma_zero_mul(r, coef(r, b, k - i));
                } else {
                    lemma_mul_zero(r, a[i]);
                }
            }
            lemma_sum_zero(r, f, k + 1);
            if a.len() > 0 && b.len() > 0 {
                lemma_trim(r, mul_raw(r, a, b));
            }
        } else {
            lemma_conv_sum(r, a, b, k, a.len() as int);
            lemma_trim(r, mul_raw(r, a, b));
            if k + 1 <= a.len() {
                assert forall|i: int| k + 1 <= i < a.len() implies #[trigger] f(i) == r.zero_v() by {
                    lemma_mul_zero(r, a[i]);
                }
                lemma_sum_extend(r, f, k + 1, a.len() as int);
            } else {
                assert forall|i: int| a.len() <= i < k + 1 implies #[trigger] f(i) == r.zero_v() by {
                    lemma_coef_valid(r, b, k - i);
                    lemma_zero_mul(r, coef(r, b, k - i));
                }
                lemma_sum_extend(r, f, a.len() as int, k + 1);
            }
        }
    }
    if a.len() > 0 && b.len() > 0 {
        let raw = mul_raw(r, a, b);
        assert forall|i: int| 0 <= i < raw.len() implies r.valid(#[trigger] raw[i]) by {
            lemma_conv_sum(r, a, b, i, a.len() as int);
            lemma_mulc_terms(r, a, b, i, a.len() as int);
            lemma_sum_valid(r, |j: int| r.mul_v(coef(r, a, j), coef(r, b, i - j)), a.len() as int);
        }
        lemma_trim_valid(r, raw);
    }
}

/// Addition of polynomials is commutative: `p + q == q + p`.
pub proof fn law_add_commutative<R: CommutativeRing>(r: R, p: Seq<Val<R>>, q: Seq<Val<R>>)
    requires
        r.wf(),
        canonical(r, p),
        canonical(r, q),
    ensures
        add_seq(r, p, q) == add_seq(r, q, p),
{
    lemma_add_coef(r, p, q);
    lemma_add_coef(r, q, p);
    assert forall|k: int| 0 <= k implies #[trigger] coef(r, add_seq(r, p, q), k) == coef(
        r,
        add_seq(r, q, p),
        k,
    ) by {
        lemma_coef_valid(r, p, k);
        lemma_coef_valid(r, q, k);
        r.lemma_add_comm(coef(r, p, k), coef(r, q, k));
    }
    lemma_canonical_ext(r, add_seq(r, p, q), add_seq(r, q, p));
}

/// Addition of polynomials is associative: `(p + q) + s == p + (q + s)`.
pub proof fn law_add_associative<R: CommutativeRing>(
    r: R,
    p: Seq<Val<R>>,
    q: Seq<Val<R>>,
    s: Seq<Val<R>>,
)
    requires
        r.wf(),
        canonical(r, p),
        canonical(r, q),
        canonical(r, s),
    ensures
        add_seq(r, add_seq(r, p, q), s) == add_seq(r, p, add_seq(r, q, s)),
{
    lemma_add_coef(r, p, q);
    lemma_add_coef(r, q, s);
    lemma_add_coef(r, add_seq(r, p, q), s);
    lemma_add_coef(r, p, add_seq(r, q, s));
    assert forall|k: int| 0 <= k implies #[trigger] coef(r, add_seq(r, add_seq(r, p, q), s), k)
        == coef(r, add_seq(r, p, add_seq(r, q, s)), k) by {
        lemma_coef_valid(r, p, k);
        lemma_coef_valid(r, q, k);
        lemma_coef_valid(r, s, k);
        r.lemma_add_assoc(coef(r, p, k), coef(r, q, k), coef(r, s, k));
    }
    lemma_canonical_ext(r, add_seq(r, add_seq(r, p, q), s), add_seq(r, p, add_seq(r, q, s)));
}

/// Zero is the additive identity: `p + 0 == p`.
pub proof fn law_add_zero<R: CommutativeRing>(r: R, p: Seq<Val<R>>)
    requires
        r.wf(),
        canonical(r, p),
    ensures
        add_seq(r, p, Seq::empty()) == p,
{
    let z = Seq::<Val<R>>::empty();
    r.lemma_identities_valid();
    lemma_add_coef(r, p, z);
    assert forall|k: int| 0 <= k implies #[trigger] coef(r, add_seq(r, p, z), k) == coef(r, p, k) by {
        lemma_coef_valid(r, p, k);
        r.lemma_add_zero(coef(r, p, k));
    }
    lemma_canonical_ext(r, add_seq(r, p, z), p);
}

/// `-p` is the additive inverse: `p + (-p) == 0`.
pub proof fn law_add_inverse<R: CommutativeRing>(r: R, p: Seq<Val<R>>)
    requires
        r.wf(),
        canonical(r, p),
    ensures
        add_seq(r, p, neg_seq(r, p)) == Seq::<Val<R>>::empty(),
{
    let n = neg_seq(r, p);
    r.lemma_identities_valid();
    lemma_neg_coef(r, p);
    lemma_add_coef(r, p, n);
    assert forall|k: int| 0 <= k implies #[trigger] coef(r, add_seq(r, p, n), k) == coef(
        r,
        Seq::<Val<R>>::empty(),
        k,
    ) by {
        lemma_coef_valid(r, p, k);
        r.lemma_add_neg(coef(r, p, k));
    }
    lemma_canonical_ext(r, add_seq(r, p, n), Seq::empty());
}

/// Subtraction adds the negation: `p - q == p + (-q)`.
pub proof fn law_sub_is_add_neg<R: CommutativeRing>(r: R, p: Seq<Val<R>>, q: Seq<Val<R>>)
    requires
        r.wf(),
        canonical(r, p),
        canonical(r, q),
    ensures
        sub_seq(r, p, q) == add_seq(r, p, neg_seq(r, q)),
{
    lemma_neg_coef(r, q);
    lemma_sub_coef(r, p, q);
    lemma_add_coef(r, p, neg_seq(r, q));
    assert forall|k: int| 0 <= k implies #[trigger] coef(r, sub_seq(r, p, q), k) == coef(
        r,
        add_seq(r, p, neg_seq(r, q)),
        k,
    ) by {
    }
    lemma_canonical_ext(r, sub_seq(r, p, q), add_seq(r, p, neg_seq(r, q)));
}

/// Multiplication of polynomials is commutative: `p * q == q * p`.
pub proof fn law_mul_commutative<R: CommutativeRing>(r: R, p: Seq<Val<R>>, q: Seq<Val<R>>)
    requires
        r.wf(),
        canonical(r, p),
        canonical(r, q),
    ensures
        mul_seq(r, p, q) == mul_seq(r, q, p),
{
    lemma_mul_coef(r, p, q);
    lemma_mul_coef(r, q, p);
    assert forall|k: int| 0 <= k implies #[trigger] coef(r, mul_seq(r, p, q), k) == coef(
        r,
        mul_seq(r, q, p),
        k,
    ) by {
        let f = |i: int| r.mul_v(coef(r, p, i), coef(r, q, k - i));
        let g = |i: int| r.mul_v(coef(r, q, i), coef(r, p, k - i));
        lemma_mulc_terms(r, p, q, k, k + 1);
        lemma_sum_reverse(r, f, k + 1);
        assert forall|i: int| 0 <= i < k + 1 implies #[trigger] f(k + 1 - 1 - i) == g(i) by {
            lemma_coef_valid(r, p, k - i);
            lemma_coef_valid(r, q, i);
            r.lemma_mul_comm(coef(r, p, k - i), coef(r, q, i));
            assert(k - (k + 1 - 1 - i) == i);
        }
        lemma_sum_eq(r, |i: int| f(k + 1 - 1 - i), g, k + 1);
    }
    lemma_canonical_ext(r, mul_seq(r, p, q), mul_seq(r, q, p));
}

/// Multiplication distributes over addition: `p * (q + s) == p * q + p * s`.
pub proof fn law_distributive<R: CommutativeRing>(
    r: R,
    p: Seq<Val<R>>,
    q: Seq<Val<R>>,
    s: Seq<Val<R>>,
)
    requires
        r.wf(),
        canonical(r, p),
        canonical(r, q),
        canonical(r, s),
    ensures
        mul_seq(r, p, add_seq(r, q, s)) == add_seq(r, mul_seq(r, p, q), mul_seq(r, p, s)),
{
    let qs = add_seq(r, q, s);
    lemma_add_coef(r, q, s);
    lemma_mul_coef(r, p, qs);
    lemma_mul_coef(r, p, q);
    lemma_mul_coef(r, p, s);
    lemma_add_coef(r, mul_seq(r, p, q), mul_seq(r, p, s));
    assert forall|k: int| 0 <= k implies #[trigger] coef(r, mul_seq(r, p, qs), k) == coef(
        r,
        add_seq(r, mul_seq(r, p, q), mul_seq(r, p, s)),
        k,
    ) by {
        let f = |i: int| r.mul_v(coef(r, p, i), coef(r, q, k - i));
        let g = |i: int| r.mul_v(coef(r, p, i), coef(r, s, k - i));
        let h = |i: int| r.mul_v(coef(r, p, i), coef(r, qs, k - i));
        lemma_mulc_terms(r, p, q, k, k + 1);
        lemma_mulc_terms(r, p, s, k, k + 1);
        assert forall|i: int| 0 <= i < k + 1 implies #[trigger] h(i) == r.add_v(f(i), g(i)) by {
            lemma_coef_valid(r, p, i);
            lemma_coef_valid(r, q, k - i);
            lemma_coef_valid(r, s, k - i);
            r.lemma_distrib(coef(r, p, i), coef(r, q, k - i), coef(r, s, k - i));
        }
        lemma_sum_add(r, f, g, h, k + 1);
    }
    lemma_canonical_ext(r, mul_seq(r, p, qs), add_seq(r, mul_seq(r, p, q), mul_seq(r, p, s)));
}

/// One is the multiplicative identity: `p * 1 == p`.
pub proof fn law_mul_one<R: CommutativeRing>(r: R, p: Seq<Val<R>>)
    requires
        r.wf(),
        canonical(r, p),
    ensures
        mul_seq(r, p, trim(r, seq![r.one_v()])) == p,
{
    let one = trim(r, seq![r.one_v()]);
    r.lemma_identities_valid();
    lemma_trim_valid(r, seq![r.one_v()]);
    lemma_trim(r, seq![r.one_v()]);
    lemma_mul_coef(r, p, one);
    assert forall|k: int| 0 <= k implies #[trigger] coef(r, mul_seq(r, p, one), k) == coef(r, p, k) by {
        let f = |i: int| r.mul_v(coef(r, p, i), coef(r, one, k - i));
        assert(coef(r, one, 0) == r.one_v());
        assert forall|i: int| 0 <= i < k implies #[trigger] f(i) == r.zero_v() by {
            lemma_coef_valid(r, p, i);
            assert(coef(r, one, k - i) == coef(r, seq![r.one_v()], k - i));
            lemma_mul_zero(r, coef(r, p, i));
        }
        lemma_sum_zero(r, f, k);
        lemma_coef_valid(r, p, k);
        r.lemma_mul_one(coef(r, p, k));
        r.lemma_closed(coef(r, p, k), coef(r, p, k));
        lemma_zero_add(r, coef(r, p, k));
    }
    lemma_canonical_ext(r, mul_seq(r, p, one), p);
}

/// Leading zero terms can be dropped: `sum(g, n) == sum(g(_ + i), n - i)`
/// when the first `i` terms are zero.
pub proof fn lemma_sum_shift<R: CommutativeRing>(r: R, g: spec_fn(int) -> Val<R>, n: int, i: int)
    requires
        r.wf(),
        0 <= i <= n,
        terms_valid(r, g, n),
        forall|j: int| 0 <= j < i ==> #[trigger] g(j) == r.zero_v(),
    ensures
        sum(r, g, n) == sum(r, |j: int| g(j + i), n - i),
    decreases i,
{
    if i == 0 {
        lemma_sum_eq(r, g, |j: int| g(j + 0), n);
    } else {
        let g1 = |j: int| g(j + 1);
        lemma_sum_first(r, g, n - 1);
        assert(terms_valid(r, g1, n - 1));
        lemma_sum_valid(r, g1, n - 1);
        lemma_zero_add(r, sum(r, g1, n - 1));
        lemma_sum_shift(r, g1, n - 1, i - 1);
        lemma_sum_eq(r, |j: int| g1(j + (i - 1)), |j: int| g(j + i), n - i);
    }
}

/// Multiplication of polynomials is associative: `(p * q) * s == p * (q * s)`.
pub proof fn law_mul_associative<R: CommutativeRing>(
    r: R,
    p: Seq<Val<R>>,
    q: Seq<Val<R>>,
    s: Seq<Val<R>>,
)
    requires
        r.wf(),
        canonical(r, p),
        canonical(r, q),
        canonical(r, s),
    ensures
        mul_seq(r, mul_seq(r, p, q), s) == mul_seq(r, p, mul_seq(r, q, s)),
{
    let pq = mul_seq(r, p, q);
    let qs = mul_seq(r, q, s);
    r.lemma_identities_valid();
    lemma_mul_coef(r, p, q);
    lemma_mul_coef(r, q, s);
    lemma_mul_coef(r, pq, s);
    lemma_mul_coef(r, p, qs);
    assert forall|k: int| 0 <= k implies #[trigger] coef(r, mul_seq(r, pq, s), k) == coef(
        r,
        mul_seq(r, p, qs),
        k,
    ) by {
        let n = k + 1;
        let big = |m: int, i: int|
            r.mul_v(r.mul_v(coef(r, p, i), coef(r, q, m - i)), coef(r, s, k - m));
        assert forall|m: int, i: int| 0 <= m < n && 0 <= i < n implies r.valid(#[trigger] big(m, i)) by {
            lemma_coef_valid(r, p, i);
            lemma_coef_valid(r, q, m - i);
            lemma_coef_valid(r, s, k - m);
            r.lemma_closed(coef(r, p, i), coef(r, q, m - i));
            r.lemma_closed(r.mul_v(coef(r, p, i), coef(r, q, m - i)), coef(r, s, k - m));
        }
        // the left side as a double sum over (m, i)
        let lrow = |m: int| r.mul_v(coef(r, pq, m), coef(r, s, k - m));
        assert forall|m: int| 0 <= m < n implies #[trigger] lrow(m) == sum(r, |i: int| big(m, i), n) by {
            let f = |i: int| r.mul_v(coef(r, p, i), coef(r, q, m - i));
            lemma_mulc_terms(r, p, q, m, n);
            assert forall|i: int| m + 1 <= i < n implies #[trigger] f(i) == r.zero_v() by {
                lemma_coef_valid(r, p, i);
                lemma_mul_zero(r, coef(r, p, i));
            }
            lemma_sum_extend(r, f, m + 1, n);
            lemma_coef_valid(r, s, k - m);
            lemma_sum_scale_right(r, coef(r, s, k - m), f, |i: int| big(m, i), n);
        }
        lemma_sum_eq(r, lrow, |m: int| sum(r, |i: int| big(m, i), n), n);
        // the right side as a double sum over (i, m)
        let rrow = |i: int| r.mul_v(coef(r, p, i), coef(r, qs, k - i));
        assert forall|i: int| 0 <= i < n implies #[trigger] rrow(i) == sum(r, |m: int| big(m, i), n) by {
            let g = |m: int| r.mul_v(coef(r, q, m - i), coef(r, s, k - m));
            let h = |j: int| r.mul_v(coef(r, q, j), coef(r, s, k - i - j));
            assert forall|m: int| 0 <= m < n implies r.valid(#[trigger] g(m)) by {
                lemma_coef_valid(r, q, m - i);
                lemma_coef_valid(r, s, k - m);
                r.lemma_closed(coef(r, q, m - i), coef(r, s, k - m));
            }
            assert forall|m: int| 0 <= m < i implies #[trigger] g(m) == r.zero_v() by {
                lemma_coef_valid(r, s, k - m);
                lemma_zero_mul(r, coef(r, s, k - m));
            }
            lemma_sum_shift(r, g, n, i);
            assert forall|j: int| 0 <= j < n - i implies #[trigger] g(j + i) == h(j) by {
                assert(j + i - i == j);
                assert(k - (j + i) == k - i - j);
            }
            lemma_sum_eq(r, |j: int| g(j + i), h, n - i);
            // coef(qs, k - i) == sum(h, k - i + 1) == sum(g, n)
            lemma_coef_valid(r, p, i);
            assert(terms_valid(r, g, n));
            assert forall|m: int| 0 <= m < n implies #[trigger] big(m, i) == r.mul_v(coef(r, p, i), g(m)) by {
                lemma_coef_valid(r, q, m - i);
                lemma_coef_valid(r, s, k - m);
                r.lemma_mul_assoc(coef(r, p, i), coef(r, q, m - i), coef(r, s, k - m));
            }
            lemma_sum_scale(r, coef(r, p, i), g, |m: int| big(m, i), n);
        }
        lemma_sum_eq(r, rrow, |i: int| sum(r, |m: int| big(m, i), n), n);
        lemma_sum_swap(r, big, n, n);
    }
    lemma_canonical_ext(r, mul_seq(r, pq, s), mul_seq(r, p, qs));
}

/// Sums of four polynomials may be regrouped: `(a + b) + (c + d) == (a + c) + (b + d)`.
proof fn lemma_poly_add_swap<R: CommutativeRing>(
    r: R,
    a: Seq<Val<R>>,
    b: Seq<Val<R>>,
    c: Seq<Val<R>>,
    d: Seq<Val<R>>,
)
    requires
        r.wf(),
        canonical(r, a),
        canonical(r, b),
        canonical(r, c),
        canonical(r, d),
    ensures
        add_seq(r, add_seq(r, a, b), add_seq(r, c, d)) == add_seq(
            r,
            add_seq(r, a, c),
            add_seq(r, b, d),
        ),
{
    lemma_add_coef(r, a, b);
    lemma_add_coef(r, c, d);
    lemma_add_coef(r, b, c);
    lemma_add_coef(r, c, b);
    lemma_add_coef(r, b, d);
    lemma_add_coef(r, a, c);
    law_add_associative(r, a, b, add_seq(r, c, d));
    law_add_associative(r, b, c, d);
    law_add_commutative(r, b, c);
    law_add_associative(r, c, b, d);
    lemma_add_coef(r, c, add_seq(r, b, d));
    law_add_associative(r, a, c, add_seq(r, b, d));
}

/// One step of long division keeps `q * d + rem` unchanged: adding `t` to
/// the quotient and subtracting `t * d` from the remainder.
pub proof fn lemma_division_invariant<R: CommutativeRing>(
    r: R,
    q: Seq<Val<R>>,
    t: Seq<Val<R>>,
    d: Seq<Val<R>>,
    rem: Seq<Val<R>>,
)
    requires
        r.wf(),
        canonical(r, q),
        canonical(r, t),
        canonical(r, d),
        canonical(r, rem),
    ensures
        add_seq(r, mul_seq(r, add_seq(r, q, t), d), sub_seq(r, rem, mul_seq(r, t, d))) == add_seq(
            r,
            mul_seq(r, q, d),
            rem,
        ),
{
    let qd = mul_seq(r, q, d);
    let td = mul_seq(r, t, d);
    let ntd = neg_seq(r, td);
    lemma_add_coef(r, q, t);
    lemma_mul_coef(r, q, d);
    lemma_mul_coef(r, t, d);
    lemma_mul_coef(r, d, q);
    lemma_mul_coef(r, d, t);
    lemma_neg_coef(r, td);
    // (q + t) * d == q * d + t * d
    law_mul_commutative(r, add_seq(r, q, t), d);
    law_distributive(r, d, q, t);
    law_mul_commutative(r, d, q);
    law_mul_commutative(r, d, t);
    // rem - t * d == rem + -(t * d)
    law_sub_is_add_neg(r, rem, td);
    lemma_poly_add_swap(r, qd, td, rem, ntd);
    law_add_inverse(r, td);
    lemma_add_coef(r, qd, rem);
    law_add_zero(r, add_seq(r, qd, rem));
}

/// Over a field the product of nonzero polynomials has the sum of their
/// degrees: its length is `e.len() + d.len() - 1`.
pub proof fn lemma_mul_len<F: Field>(f: F, e: Seq<Val<F>>, d: Seq<Val<F>>)
    requires
        f.wf(),
        canonical(f, e),
        canonical(f, d),
        e.len() > 0,
        d.len() > 0,
    ensures
        mul_seq(f, e, d).len() == e.len() + d.len() - 1,
{
    let k = e.len() + d.len() - 2;
    let i0 = e.len() - 1;
    let g = |i: int| f.mul_v(coef(f, e, i), coef(f, d, k - i));
    f.lemma_identities_valid();
    lemma_mul_coef(f, e, d);
    lemma_mulc_terms(f, e, d, k, k + 1);
    assert forall|i: int| 0 <= i < i0 implies #[trigger] g(i) == f.zero_v() by {
        lemma_coef_valid(f, e, i);
        lemma_mul_zero(f, coef(f, e, i));
    }
    lemma_sum_zero(f, g, i0);
    lemma_zero_add(f, g(i0));
    assert forall|i: int| i0 + 1 <= i < k + 1 implies #[trigger] g(i) == f.zero_v() by {
        lemma_coef_valid(f, d, k - i);
        lemma_zero_mul(f, coef(f, d, k - i));
    }
    lemma_sum_extend(f, g, i0 + 1, k + 1);
    assert(g(i0) == f.mul_v(e.last(), d.last()));
    if f.mul_v(e.last(), d.last()) == f.zero_v() {
        lemma_no_zero_divisors(f, e.last(), d.last());
    }
    assert(sum(f, g, i0 + 1) == f.add_v(sum(f, g, i0), g(i0)));
    assert(sum(f, g, k + 1) == g(i0));
    assert(mulc(f, e, d, k) == sum(f, g, k + 1));
    assert(coef(f, mul_seq(f, e, d), k) != f.zero_v());
    lemma_trim(f, mul_raw(f, e, d));
}

/// Long division as the spec states it ends with a canonical quotient and
/// a remainder of lower degree, and keeps `q * d + rem` unchanged.
pub proof fn lemma_pdiv<F: Field>(f: F, q: Seq<Val<F>>, rem: Seq<Val<F>>, d: Seq<Val<F>>)
    requires
        f.wf(),
        canonical(f, q),
        canonical(f, rem),
        canonical(f, d),
        d.len() > 0,
    ensures
        canonical(f, pdiv(f, q, rem, d).0),
        canonical(f, pdiv(f, q, rem, d).1),
        pdiv(f, q, rem, d).1.len() < d.len(),
        add_seq(f, mul_seq(f, pdiv(f, q, rem, d).0, d), pdiv(f, q, rem, d).1) == add_seq(
            f,
            mul_seq(f, q, d),
            rem,
        ),
    decreases rem.len(),
{
    if rem.len() >= d.len() {
        let lr = rem.last();
        let ld = d.last();
        let iv = f.inv_v(ld);
        let c = f.mul_v(lr, iv);
        f.lemma_identities_valid();
        f.lemma_inv_v(ld);
        f.lemma_closed(lr, iv);
        f.lemma_mul_assoc(lr, iv, ld);
        f.lemma_mul_comm(iv, ld);
        f.lemma_mul_one(lr);
        let m = rem.len() - d.len();
        let t = single_seq(f, c, m);
        lemma_trim_valid(f, single_raw(f, c, m));
        lemma_division_step(f, rem, d, c);
        lemma_division_invariant(f, q, t, d, rem);
        lemma_add_coef(f, q, t);
        lemma_mul_coef(f, t, d);
        lemma_sub_coef(f, rem, mul_seq(f, t, d));
        lemma_pdiv(f, add_seq(f, q, t), sub_seq(f, rem, mul_seq(f, t, d)), d);
    }
}

} // verus!
