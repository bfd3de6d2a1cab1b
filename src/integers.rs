//! The ring of machine integers.
use crate::arith::{
    lemma_cong_add, lemma_cong_mul, lemma_mod_cong, lemma_word, lemma_wrap_cong, lemma_wrap_eq,
    lemma_wrap_id, lemma_wrap_range, lemma_wrap_shift, word, wrap,
};
use crate::ring::{CommutativeRing, Ring};
use vstd::arithmetic::mul::*;
use vstd::prelude::*;

verus! {

/// The ring `Z` of integers, held in `isize`.
///
/// Sums and products that leave the range of `isize` wrap around, as two's
/// complement arithmetic does; the operations thus form the ring of
/// integers modulo `word()`, which agrees with `Z` wherever no result leaves
/// the range.
#[derive(Debug, Clone, Copy)]
pub struct Integers;

/// `x + y` as the machine computes it.
proof fn lemma_wrapping_add(x: isize, y: isize)
    ensures
        x.wrapping_add(y) == wrap(x + y),
        x.wrapping_add(y) == wrap(x + y) as isize,
{
    lemma_word();
    lemma_wrap_range(x + y);
    let r = x.wrapping_add(y);
    if x + y > isize::MAX {
        lemma_wrap_shift(x + y, r as int, 1);
    } else if x + y < isize::MIN {
        lemma_wrap_shift(x + y, r as int, -1);
    } else {
        lemma_wrap_id(x + y);
    }
}

/// `x - y` as the machine computes it.
proof fn lemma_wrapping_sub(x: isize, y: isize)
    ensures
        x.wrapping_sub(y) == wrap(x - y),
        x.wrapping_sub(y) == wrap(x - y) as isize,
{
    lemma_word();
    lemma_wrap_range(x - y);
    let r = x.wrapping_sub(y);
    if x - y > isize::MAX {
        lemma_wrap_shift(x - y, r as int, 1);
    } else if x - y < isize::MIN {
        lemma_wrap_shift(x - y, r as int, -1);
    } else {
        lemma_wrap_id(x - y);
    }
}

/// `x * y` as the machine computes it.
proof fn lemma_wrapping_mul(x: isize, y: isize)
    ensures
        x.wrapping_mul(y) == wrap(x * y),
        x.wrapping_mul(y) == wrap(x * y) as isize,
{
    lemma_word();
    lemma_wrap_range(x * y);
    let r = x.wrapping_mul(y);
    let m = (x * y) % word();
    lemma_mod_cong(x * y, word());
    if m > isize::MAX {
        lemma_wrap_shift(m, r as int, 1);
        lemma_wrap_eq(x * y, m);
    } else {
        lemma_wrap_id(m);
        lemma_wrap_eq(x * y, m);
    }
}

impl Ring for Integers {
    type Element = isize;

    open spec fn wf(&self) -> bool {
        true
    }

    open spec fn elem_ok(&self, e: &isize) -> bool {
        true
    }

    open spec fn valid(&self, v: isize) -> bool {
        true
    }

    open spec fn admits(&self, e: &isize) -> bool {
        true
    }

    open spec fn zero_v(&self) -> isize {
        0
    }

    open spec fn one_v(&self) -> isize {
        1
    }

    open spec fn add_v(&self, a: isize, b: isize) -> isize {
        wrap(a + b) as isize
    }

    open spec fn neg_v(&self, a: isize) -> isize {
        wrap(-a) as isize
    }

    open spec fn mul_v(&self, a: isize, b: isize) -> isize {
        wrap(a * b) as isize
    }

    open spec fn mul_ok(&self, a: isize, b: isize) -> bool {
        true
    }

    open spec fn id_v(&self, a: isize) -> isize {
        a
    }

    proof fn lemma_elem_valid(&self, e: &isize) {
    }

    fn zero(&self) -> (r: isize) {
        0
    }

    fn one(&self) -> (r: isize) {
        1
    }

    fn add(&self, lhs: isize, rhs: isize) -> (r: isize) {
        let r = lhs.wrapping_add(rhs);
        proof {
            lemma_wrapping_add(lhs, rhs);
            assert(r == self.add_v(lhs, rhs));
            assert(r@ == self.add_v(lhs@, rhs@));

        }
        r
    }

    fn neg(&self, elem: isize) -> (r: isize) {
        let r = 0isize.wrapping_sub(elem);
        proof {
            lemma_wrapping_sub(0, elem);
            assert(r == self.neg_v(elem));
            assert(r@ == self.neg_v(elem@));

        }
        r
    }

    fn mul(&self, lhs: isize, rhs: isize) -> (r: isize) {
        proof {
            lemma_wrapping_mul(lhs, rhs);
        }
        lhs.wrapping_mul(rhs)
    }

    fn id(&self, elem: &isize) -> (r: isize) {
        *elem
    }

    fn can_mul(&self, lhs: &isize, rhs: &isize) -> (r: bool) {
        true
    }

    fn equal(&self, lhs: &isize, rhs: &isize) -> (r: bool) {
        *lhs == *rhs
    }

    fn copy_elem(&self, elem: &isize) -> (r: isize) {
        *elem
    }
}

impl CommutativeRing for Integers {
    proof fn lemma_identities_valid(&self) {
    }

    proof fn lemma_closed(&self, a: isize, b: isize) {
    }

    proof fn lemma_add_assoc(&self, a: isize, b: isize, c: isize) {
        lemma_word();
        lemma_wrap_cong(a + b);
        lemma_wrap_cong(b + c);
        lemma_cong_add(wrap(a + b), a + b, c as int, c as int, word());
        lemma_cong_add(a as int, a as int, wrap(b + c), b + c, word());
        assert(a + b + c == a + (b + c));
        lemma_wrap_eq(wrap(a + b) + c, a + wrap(b + c));
        lemma_wrap_range(a + b);
        lemma_wrap_range(b + c);
    }

    proof fn lemma_add_comm(&self, a: isize, b: isize) {
        assert(a + b == b + a);
    }

    proof fn lemma_add_zero(&self, a: isize) {
        lemma_word();
        lemma_wrap_id(a as int);
    }

    proof fn lemma_add_neg(&self, a: isize) {
        lemma_word();
        lemma_wrap_cong(-a);
        lemma_wrap_range(-a);
        lemma_cong_add(a as int, a as int, wrap(-a), -a, word());
        lemma_wrap_eq(a + wrap(-a), 0);
        lemma_wrap_id(0);
    }

    proof fn lemma_mul_assoc(&self, a: isize, b: isize, c: isize) {
        lemma_word();
        lemma_wrap_cong(a * b);
        lemma_wrap_cong(b * c);
        lemma_wrap_range(a * b);
        lemma_wrap_range(b * c);
        lemma_cong_mul(wrap(a * b), a * b, c as int, c as int, word());
        lemma_cong_mul(a as int, a as int, wrap(b * c), b * c, word());
        lemma_mul_is_associative(a as int, b as int, c as int);
        lemma_wrap_eq(wrap(a * b) * c, a * wrap(b * c));
    }

    proof fn lemma_mul_comm(&self, a: isize, b: isize) {
        lemma_mul_is_commutative(a as int, b as int);
    }

    proof fn lemma_mul_one(&self, a: isize) {
        lemma_word();
        lemma_wrap_id(a as int);
    }

    proof fn lemma_distrib(&self, a: isize, b: isize, c: isize) {
        lemma_word();
        lemma_wrap_cong(b + c);
        lemma_wrap_cong(a * b);
        lemma_wrap_cong(a * c);
        lemma_wrap_range(b + c);
        lemma_wrap_range(a * b);
        lemma_wrap_range(a * c);
        lemma_cong_mul(a as int, a as int, wrap(b + c), b + c, word());
        lemma_cong_add(wrap(a * b), a * b, wrap(a * c), a * c, word());
        lemma_mul_is_distributive_add(a as int, b as int, c as int);
        lemma_wrap_eq(a * wrap(b + c), wrap(a * b) + wrap(a * c));
    }
}

} // verus!
