//! Facts about machine integers and residues that the rings rest on.
use vstd::arithmetic::div_mod::*;
use vstd::arithmetic::mul::*;
use vstd::prelude::*;

verus! {

/// The first value above `isize::MAX`.
pub open spec fn half_word() -> int {
    isize::MAX + 1
}

/// Number of distinct values of a machine word.
pub open spec fn word() -> int {
    2 * half_word()
}

/// The `isize` that is congruent to `x` modulo `word()`: what two's
/// complement arithmetic leaves of `x`.
pub open spec fn wrap(x: int) -> int {
    (x + half_word()) % word() - half_word()
}

/// `d` divides `p` and lies strictly between 1 and `p`.
pub open spec fn is_proper_divisor(d: int, p: int) -> bool {
    1 < d < p && p % d == 0
}

/// `p` is a prime number.
pub open spec fn is_prime(p: int) -> bool {
    p > 1 && forall|d: int| !#[trigger] is_proper_divisor(d, p)
}

pub proof fn lemma_wrap_range(x: int)
    ensures
        isize::MIN == -half_word(),
        -half_word() <= wrap(x) < half_word(),
        isize::MIN <= wrap(x) <= isize::MAX,
{
    lemma_word();
    lemma_mod_bound(x + half_word(), word());
}

pub proof fn lemma_cong_add(x1: int, x2: int, y1: int, y2: int, m: int)
    requires
        m > 0,
        x1 % m == x2 % m,
        y1 % m == y2 % m,
    ensures
        (x1 + y1) % m == (x2 + y2) % m,
{
    lemma_add_mod_noop(x1, y1, m);
    lemma_add_mod_noop(x2, y2, m);
}

pub proof fn lemma_cong_mul(x1: int, x2: int, y1: int, y2: int, m: int)
    requires
        m > 0,
        x1 % m == x2 % m,
        y1 % m == y2 % m,
    ensures
        (x1 * y1) % m == (x2 * y2) % m,
{
    lemma_mul_mod_noop(x1, y1, m);
    lemma_mul_mod_noop(x2, y2, m);
}

pub proof fn lemma_cong_neg(x1: int, x2: int, m: int)
    requires
        m > 0,
        x1 % m == x2 % m,
    ensures
        (-x1) % m == (-x2) % m,
{
    lemma_sub_mod_noop(0, x1, m);
    lemma_sub_mod_noop(0, x2, m);
}

pub proof fn lemma_word()
    ensures
        half_word() > 0,
        word() > 0,
        isize::MIN == -half_word(),
        isize::MAX == half_word() - 1,
        usize::MAX - usize::MIN + 1 == word(),
{
}

pub proof fn lemma_mod_cong(x: int, m: int)
    requires
        m > 0,
    ensures
        (x % m) % m == x % m,
        0 <= x % m < m,
{
    lemma_mod_twice(x, m);
    lemma_mod_bound(x, m);
}

/// A wrapped value is congruent to what it wraps.
pub proof fn lemma_wrap_cong(x: int)
    ensures
        wrap(x) % word() == x % word(),
{
    let y = (x + half_word()) % word();
    lemma_mod_cong(x + half_word(), word());
    lemma_cong_add(y, x + half_word(), -half_word(), -half_word(), word());
}

/// Congruent values wrap to the same word.
pub proof fn lemma_wrap_eq(x: int, y: int)
    requires
        x % word() == y % word(),
    ensures
        wrap(x) == wrap(y),
{
    lemma_cong_add(x, y, half_word(), half_word(), word());
}

/// A value already in range wraps to itself.
pub proof fn lemma_wrap_id(x: int)
    requires
        -half_word() <= x < half_word(),
    ensures
        wrap(x) == x,
{
    lemma_small_mod((x + half_word()) as nat, word() as nat);
}

/// A value that differs from an in-range `y` by a multiple of `word()` wraps to `y`.
pub proof fn lemma_wrap_shift(x: int, y: int, k: int)
    requires
        -half_word() <= y < half_word(),
        x == y + k * word(),
    ensures
        wrap(x) == y,
{
    lemma_word();
    lemma_mul_is_commutative(k, word());
    assert(x + half_word() == word() * k + (y + half_word()));
    lemma_mod_multiples_vanish(k, y + half_word(), word());
    lemma_wrap_id(y);
}

/// If `m` divides `d` and `d` divides `p`, then `m` divides `p`.
pub proof fn lemma_divides_trans(p: int, d: int, m: int)
    requires
        m > 0,
        d > 0,
        p % d == 0,
        d % m == 0,
    ensures
        p % m == 0,
{
    lemma_fundamental_div_mod(p, d);
    lemma_fundamental_div_mod(d, m);
    let a = p / d;
    let b = d / m;
    assert(p == m * (b * a)) by {
        lemma_mul_is_associative(m, b, a);
    }
    lemma_mod_multiples_basic(b * a, m);
    lemma_mul_is_commutative(m, b * a);
}

/// A divisor `d` of `p` has a cofactor `p / d` with `d * (p / d) == p`.
pub proof fn lemma_cofactor(p: int, d: int)
    requires
        p > 0,
        d > 0,
        p % d == 0,
    ensures
        d * (p / d) == p,
        p / d > 0,
        (p / d) > 0 ==> p % (p / d) == 0,
{
    lemma_fundamental_div_mod(p, d);
    let k = p / d;
    if k <= 0 {
        lemma_mul_nonpositive(d, k);
    }
    lemma_mod_multiples_basic(d, k);
    lemma_mul_is_commutative(d, k);
}

pub proof fn lemma_mul_nonpositive(d: int, k: int)
    requires
        d > 0,
        k <= 0,
    ensures
        d * k <= 0,
{
    lemma_mul_inequality(k, 0, d);
    lemma_mul_is_commutative(d, k);
}

/// A multiple of `d` leaves remainder zero, whatever the sign of `d`.
pub proof fn lemma_multiple_mod(d: int, k: int)
    requires
        d != 0,
    ensures
        (d * k) % d == 0,
{
    let x = d * k;
    let m = x % d;
    let q = x / d;
    assert(x == d * q + m && 0 <= m && (m < d || m < -d)) by (nonlinear_arith)
        requires
            d != 0,
            x == d * k,
            m == x % d,
            q == x / d,
    ;
    assert(m == d * (k - q)) by (nonlinear_arith)
        requires
            x == d * q + m,
            x == d * k,
    ;
    if m != 0 {
        if d > 0 {
            assert(k - q >= 1) by (nonlinear_arith)
                requires
                    m == d * (k - q),
                    m > 0,
                    d > 0,
            ;
            assert(m >= d) by (nonlinear_arith)
                requires
                    m == d * (k - q),
                    k - q >= 1,
                    d > 0,
            ;
        } else {
            assert(k - q <= -1) by (nonlinear_arith)
                requires
                    m == d * (k - q),
                    m > 0,
                    d < 0,
            ;
            assert(m >= -d) by (nonlinear_arith)
                requires
                    m == d * (k - q),
                    k - q <= -1,
                    d < 0,
            ;
        }
    }
}

} // verus!
