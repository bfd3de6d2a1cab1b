use polymoly::euclid::div_rem_euclid;
use polymoly::{
    extended_euclidean, extended_euclidean_int, DisplayPart, EuclideanRing, Field, Integers,
    IntegersModuloN, IntegersModuloP, OperandRingType, Operation, Poly, Polynomial, PolynomialRing,
    Ring,
};

fn ints(v: Vec<isize>) -> Poly<Integers> {
    Poly::new(Integers, v)
}

fn coefficients<R: Ring<Element = isize>>(p: &Poly<R>) -> Vec<isize> {
    (0..p.len()).map(|i| p.coefficient(i)).collect()
}

#[test]
fn new_trims_trailing_zeros() {
    let p = ints(vec![1, 2, 0, 0]);
    assert_eq!(coefficients(&p), vec![1, 2]);
    assert_eq!(p.deg(), Some(1));
    let z = ints(vec![0, 0, 0]);
    assert!(z.is_zero());
    assert_eq!(z.deg(), None);
    assert_eq!(z.len(), 0);
}

#[test]
fn new_reduces_modulo_n() {
    let p = Poly::new(IntegersModuloN::new(5), vec![7, -1, 10]);
    assert_eq!(coefficients(&p), vec![2, 4]);
}

#[test]
fn add_elem_modulo_five() {
    let mut p = Poly::zero(IntegersModuloN::new(5));
    p.add_elem(7, 3);
    p.add_elem(1, 0);
    assert_eq!(coefficients(&p), vec![1, 0, 0, 2]);
    assert_eq!(p.deg(), Some(3));
    assert_eq!(p.lc(), 2);
}

#[test]
fn add_elem_cancels_leading_term() {
    let mut p = ints(vec![1, 0, 3]);
    p.add_elem(-3, 2);
    assert_eq!(coefficients(&p), vec![1]);
}

#[test]
fn single_times_single() {
    let product = Poly::single(Integers, 2, 2).mul(Poly::single(Integers, 3, 3));
    assert_eq!(product.deg(), Some(5));
    assert_eq!(coefficients(&product), vec![0, 0, 0, 0, 0, 6]);
}

#[test]
fn addition_and_subtraction() {
    let p = ints(vec![1, 2, 3]);
    let q = ints(vec![4, 5, -3]);
    assert_eq!(coefficients(&p.clone().add(q.clone())), vec![5, 7]);
    assert_eq!(coefficients(&p.clone().sub(q.clone())), vec![-3, -3, 6]);
    let mut r = p.clone();
    r.add_assign(q.clone());
    assert!(r.eq(&p.clone().add(q.clone())));
    let mut s = p.clone();
    s.sub_assign(q);
    assert_eq!(coefficients(&s), vec![-3, -3, 6]);
    assert_eq!(coefficients(&p.neg()), vec![-1, -2, -3]);
}

#[test]
fn additive_identity_and_inverse() {
    let p = ints(vec![3, -1, 4]);
    assert!(p.clone().add(Poly::zero(Integers)).eq(&p));
    assert!(p.clone().add(p.clone().neg()).is_zero());
    let m = Poly::new(IntegersModuloN::new(6), vec![1, 5, 3]);
    assert!(m.clone().add(m.clone().neg()).is_zero());
}

#[test]
fn commutativity_and_associativity() {
    let p = ints(vec![1, 2]);
    let q = ints(vec![0, -1, 3]);
    let r = ints(vec![5, 0, 0, 1]);
    assert!(p.clone().add(q.clone()).eq(&q.clone().add(p.clone())));
    assert!(p.clone().add(q.clone()).add(r.clone()).eq(&p.clone().add(q.clone().add(r.clone()))));
    assert!(p.clone().mul(q.clone()).eq(&q.clone().mul(p.clone())));
    assert!(p.clone().mul(q.clone()).mul(r.clone()).eq(&p.clone().mul(q.clone().mul(r.clone()))));
    assert_eq!(coefficients(&p.mul(q)), vec![0, -1, 1, 6]);
}

#[test]
fn mul_assign_and_zero_product() {
    let mut p = ints(vec![1, 1]);
    p.mul_assign(ints(vec![-1, 1]));
    assert_eq!(coefficients(&p), vec![-1, 0, 1]);
    let z = p.clone().mul(Poly::zero(Integers));
    assert!(z.is_zero());
}

#[test]
fn division_over_prime_field() {
    let f = IntegersModuloP::checked_new(7).unwrap();
    // x^3 + x + 1 divided by x - 1 over Z/7Z: quotient x^2 + x + 2, remainder 3
    let p = Poly::new(f, vec![1, 1, 0, 1]);
    let d = Poly::new(f, vec![-1, 1]);
    let (q, r) = p.clone().polynomial_division(d.clone()).unwrap();
    assert_eq!(coefficients(&q), vec![2, 1, 1]);
    assert_eq!(coefficients(&r), vec![3]);
    assert!(q.mul(d).add(r).eq(&p));
}

#[test]
fn division_with_non_monic_divisor() {
    let f = IntegersModuloP::checked_new(5).unwrap();
    let p = Poly::new(f, vec![3, 0, 4, 1]);
    let d = Poly::new(f, vec![1, 2]);
    let (q, r) = p.clone().polynomial_division(d.clone()).unwrap();
    assert!(r.deg().map_or(true, |x| x < 1));
    assert!(q.mul(d).add(r).eq(&p));
}

#[test]
fn division_by_zero_fails() {
    let f = IntegersModuloP::checked_new(3).unwrap();
    let p = Poly::new(f, vec![1, 2]);
    assert!(p.polynomial_division(Poly::zero(f)).is_none());
}

#[test]
fn division_of_lower_degree() {
    let f = IntegersModuloP::checked_new(11).unwrap();
    let p = Poly::new(f, vec![4]);
    let d = Poly::new(f, vec![1, 1]);
    let (q, r) = p.polynomial_division(d).unwrap();
    assert!(q.is_zero());
    assert_eq!(coefficients(&r), vec![4]);
}

#[test]
fn eea_integers() {
    assert_eq!(extended_euclidean_int(48, -30), Some((6, 2, 3)));
    assert_eq!(extended_euclidean_int(0, 0), None);
    assert_eq!(extended_euclidean_int(7, 0), Some((7, 1, 0)));
    assert_eq!(extended_euclidean_int(0, -4), Some((4, 0, -1)));
    let (g, s, t) = extended_euclidean_int(-48, 30).unwrap();
    assert_eq!(g, 6);
    assert_eq!(s * -48 + t * 30, 6);
    let (g, s, t) = extended_euclidean(Integers, 240, 46).unwrap();
    assert_eq!(s * 240 + t * 46, g);
    assert_eq!(g.abs(), 2);
}

#[test]
fn eea_polynomials_mod_five() {
    let f = IntegersModuloP::checked_new(5).unwrap();
    let ring = PolynomialRing::new(f);
    let g = Poly::new(f, vec![3, 3, 0, 0, 2, 1]);
    let h = Poly::new(f, vec![2, 3, 2, 2, 1]);
    let (gcd, s, t) = extended_euclidean(ring, g.clone(), h.clone()).unwrap();
    assert!(s.mul(g.clone()).add(t.mul(h.clone())).eq(&gcd));
    assert!(!gcd.is_zero());
    let (_, r1) = g.polynomial_division(gcd.clone()).unwrap();
    let (_, r2) = h.polynomial_division(gcd).unwrap();
    assert!(r1.is_zero());
    assert!(r2.is_zero());
}

#[test]
fn eea_polynomials_both_zero() {
    let f = IntegersModuloP::checked_new(3).unwrap();
    let ring = PolynomialRing::new(f);
    assert!(extended_euclidean(ring, Poly::zero(f), Poly::zero(f)).is_none());
}

#[test]
fn primality_gate() {
    assert!(IntegersModuloP::checked_new(7909).is_none());
    assert!(IntegersModuloP::checked_new(7793).is_some());
    let primes = [
        2, 3, 5, 7, 11, 13, 17, 19, 23, 29, 31, 37, 41, 43, 47, 53, 59, 61, 67, 71, 73, 79, 83, 89,
        97, 101, 103, 107, 109, 113, 127,
    ];
    for n in 0..=127usize {
        assert_eq!(IntegersModuloP::checked_new(n).is_some(), primes.contains(&n), "{n}");
    }
    assert!(IntegersModuloP::checked_new(25).is_none());
    assert!(IntegersModuloP::checked_new(49).is_none());
    assert!(IntegersModuloP::checked_new(7 * 1_000_003).is_none());
    assert!(IntegersModuloP::checked_new(1_000_003).is_some());
}

#[test]
fn field_inverse_and_division() {
    let f = IntegersModuloP::checked_new(13).unwrap();
    for a in 1..13 {
        let i = f.inv(a).unwrap();
        assert_eq!(f.mul(a, i), 1);
    }
    assert_eq!(f.inv(0), None);
    assert_eq!(f.div(6, 4), Some(8));
    assert_eq!(f.div(6, 0), None);
}

#[test]
fn integer_ring_wraps() {
    assert_eq!(Integers.add(isize::MAX, 1), isize::MIN);
    assert_eq!(Integers.mul(3, -4), -12);
    assert_eq!(Integers.sub(3, 10), -7);
}

#[test]
fn parse_integers() {
    let p = Poly::parse(Integers, "3x^2 + x + 7").unwrap();
    assert_eq!(coefficients(&p), vec![7, 1, 3]);
    let q = Poly::parse(Integers, "5x+-3x^2+5x^1+1x^0").unwrap();
    assert_eq!(coefficients(&q), vec![1, 10, -3]);
    let r = Poly::parse(Integers, "3x+2x").unwrap();
    assert_eq!(coefficients(&r), vec![0, 5]);
    let s = Poly::parse(Integers, " 1 x ^ 1 0 ").unwrap();
    assert_eq!(s.deg(), Some(10));
}

#[test]
fn parse_modular() {
    let p = Polynomial::parse(IntegersModuloN::new(5), "3x^2 + x + 7").unwrap();
    assert_eq!(coefficients(&p), vec![2, 1, 3]);
    let f = Poly::new(IntegersModuloN::new(5), vec![1, 0, 3]);
    assert_eq!(f.to_string(), "3x^2 + 1");
    assert!(f.add(p).eq(&Poly::new(IntegersModuloN::new(5), vec![3, 1, 1])));
}

#[test]
fn parse_failures() {
    assert!(Poly::parse(Integers, "").is_none());
    assert!(Poly::parse(Integers, "x^").is_none());
    assert!(Poly::parse(Integers, "3y").is_none());
    assert!(Poly::parse(Integers, "2x3").is_none());
    assert!(Poly::parse(Integers, "x^-1").is_none());
    assert!(Poly::parse(Integers, "1 + + 2").is_none());
    assert!(Poly::parse(Integers, "a").is_none());
    assert!(Poly::parse(Integers, "99999999999999999999x").is_none());
}

#[test]
fn display_forms() {
    assert_eq!(Poly::zero(Integers).to_string(), "0");
    assert_eq!(ints(vec![1]).to_string(), "1");
    assert_eq!(ints(vec![0, 1]).to_string(), "x");
    assert_eq!(ints(vec![1, 5, -3, 2]).to_string(), "2x^3 + -3x^2 + 5x + 1");
    assert_eq!(ints(vec![0, 0, 1]).to_string(), "x^2");
    assert_eq!(ints(vec![-7, 0, 0, 0, 0, 0, 0, 0, 0, 0, 0, 12]).to_string(), "12x^11 + -7");
    assert_eq!(ints(vec![isize::MIN]).to_string(), isize::MIN.to_string());
}

#[test]
fn display_parse_round_trip() {
    for text in ["2x^3 + -3x^2 + 5x + 1", "x^2", "x", "0", "-1", "12x^11 + -7", "x^4 + x^2 + 9"] {
        let p = Poly::parse(Integers, text).unwrap();
        assert_eq!(p.to_string(), text);
        assert!(Poly::parse(Integers, &p.to_string()).unwrap().eq(&p));
    }
}

#[test]
fn display_parts() {
    let p = ints(vec![4, 1, 0, -2]);
    let parts = DisplayPart::get_parts(&p);
    let view: Vec<(Option<isize>, Option<Option<usize>>)> =
        parts.into_iter().map(|d| (d.coefficient, d.variable)).collect();
    assert_eq!(view, vec![(Some(-2), Some(Some(3))), (None, Some(None)), (Some(4), None)]);
    let zero = DisplayPart::get_parts(&Poly::zero(Integers));
    assert_eq!(zero.len(), 1);
    assert_eq!(zero[0].coefficient, Some(0));
    assert_eq!(zero[0].variable, None);
}

#[test]
fn operations_and_ring_kinds() {
    assert_eq!(Operation::Add.operand_ring_type(), OperandRingType::Normal);
    assert_eq!(Operation::Sub.operand_ring_type(), OperandRingType::Normal);
    assert_eq!(Operation::Mul.operand_ring_type(), OperandRingType::Normal);
    assert_eq!(Operation::Div.operand_ring_type(), OperandRingType::Field);
    assert_eq!(Operation::Gcd.operand_ring_type(), OperandRingType::Euclidean);
}

#[test]
fn polynomials_over_polynomials() {
    let inner = Integers;
    let ring = PolynomialRing::new(inner);
    let a = ints(vec![1, 1]);
    let b = ints(vec![-1, 1]);
    let p = Poly::new(ring, vec![a.clone(), b.clone()]);
    let q = Poly::new(ring, vec![b.clone(), ring.one()]);
    let sum = p.clone().add(q.clone());
    assert_eq!(sum.len(), 2);
    assert!(sum.coefficient(0).eq(&ints(vec![0, 2])));
    let prod = p.mul(q);
    assert_eq!(prod.deg(), Some(2));
    assert!(prod.coefficient(0).eq(&ints(vec![-1, 0, 1])));
}

#[test]
fn euclidean_functions() {
    assert_eq!(Integers.euclidean_function(&-9), Some(9));
    assert_eq!(Integers.euclidean_division(-7, 2), Some((-4, 1)));
    assert_eq!(Integers.euclidean_division(7, -2), Some((-3, 1)));
    assert_eq!(Integers.euclidean_division(7, 0), None);
    let f = IntegersModuloP::checked_new(2).unwrap();
    let ring = PolynomialRing::new(f);
    assert_eq!(ring.euclidean_function(&Poly::new(f, vec![1, 0, 1])), Some(2));
    assert_eq!(ring.euclidean_function(&Poly::zero(f)), None);
}

#[test]
fn map_display_parts_renders_terms() {
    let p = ints(vec![4, 1, 0, -2]);
    let mapped = p.map_display_parts(|c| c * 10, |v| v.map_or(1, |d| d), || "+");
    assert_eq!(
        mapped,
        vec![(Some(-20), Some(3), Some("+")), (None, Some(1), Some("+")), (Some(40), None, None)]
    );
    let zero = Poly::zero(Integers).map_display_parts(|c| c, |v| v, || ());
    assert_eq!(zero, vec![(Some(0), None, None)]);
}

#[test]
fn fold_display_parts_builds_text() {
    let p = ints(vec![1, 5, -3, 2]);
    let text = p.fold_display_parts(
        String::new(),
        |mut s, c| {
            s.push_str(&c.to_string());
            s
        },
        |mut s, v| {
            s.push('x');
            if let Some(d) = v {
                s.push('^');
                s.push_str(&d.to_string());
            }
            s
        },
        |mut s| {
            s.push_str(" + ");
            s
        },
    );
    assert_eq!(text, p.to_string());
    let count = ints(vec![0, 1]).fold_display_parts(0, |n, _| n + 1, |n, _| n + 10, |n| n + 100);
    assert_eq!(count, 10);
}

#[test]
fn modular_arithmetic_large_modulus() {
    let n = isize::MAX as usize;
    let r = IntegersModuloN::new(n);
    let top = (n - 1) as isize;
    assert_eq!(r.mul(top, top), 1);
    assert_eq!(r.add(top, top), top - 1);
    assert_eq!(r.neg(1), top);
    assert_eq!(r.id(&isize::MIN), isize::MAX - 1);
    assert_eq!(r.one(), 1);
    assert_eq!(IntegersModuloN::new(1).one(), 0);
}

#[test]
fn integer_parse_limits() {
    let max = format!("{}", isize::MAX);
    let min = format!("{}", isize::MIN);
    assert_eq!(coefficients(&Poly::parse(Integers, &max).unwrap()), vec![isize::MAX]);
    assert_eq!(coefficients(&Poly::parse(Integers, &min).unwrap()), vec![isize::MIN]);
    assert!(Poly::parse(Integers, "9223372036854775808").is_none());
    assert!(Poly::parse(Integers, "-9223372036854775809").is_none());
    // a leading sign `+` leaves an empty summand before it
    assert!(Poly::parse(Integers, "+5").is_none());
    assert!(Poly::parse(Integers, "-").is_none());
}

#[test]
fn eea_integers_gives_gcd() {
    for (a, b, g) in [(48, -30, 6), (-48, 30, 6), (17, 5, 1), (0, 9, 9), (-12, 0, 12), (270, 192, 6)] {
        let (gcd, s, t) = extended_euclidean_int(a, b).unwrap();
        assert_eq!(gcd, g);
        assert_eq!(s * a + t * b, g as isize);
    }
    let (gcd, _, _) = extended_euclidean_int(isize::MIN, 0).unwrap();
    assert_eq!(gcd, 1usize << 63);
}

#[test]
fn integer_division_is_euclidean() {
    assert_eq!(div_rem_euclid(-7, 2), (-4, 1));
    assert_eq!(div_rem_euclid(-7, -2), (4, 1));
    assert_eq!(div_rem_euclid(7, -2), (-3, 1));
    assert_eq!(div_rem_euclid(isize::MIN, -1), (isize::MIN, 0));
    assert_eq!(div_rem_euclid(isize::MIN, 3), (isize::MIN.div_euclid(3), isize::MIN.rem_euclid(3)));
}

#[test]
fn primality_gate_above_isize_max() {
    assert!(IntegersModuloP::checked_new(usize::MAX).is_none());
    assert!(IntegersModuloP::checked_new(usize::MAX - 1).is_none());
}

#[test]
fn eea_fast_paths() {
    assert_eq!(extended_euclidean(Integers, 7, 0), Some((7, 1, 0)));
    assert_eq!(extended_euclidean(Integers, 12, 4), Some((4, 0, 1)));
    assert_eq!(extended_euclidean(Integers, 0, 5), Some((5, 0, 1)));
    assert_eq!(extended_euclidean_int(-12, -4), Some((4, 0, -1)));
    let f = IntegersModuloP::checked_new(5).unwrap();
    let ring = PolynomialRing::new(f);
    let d = Poly::new(f, vec![1, 1]);
    let p = Poly::new(f, vec![4, 0, 1]);
    let (g, s, t) = extended_euclidean(ring, p, d.clone()).unwrap();
    assert!(g.eq(&d));
    assert!(s.is_zero());
    assert_eq!(t.len(), 1);
}

#[test]
fn eea_agrees_with_integer_path() {
    for (a, b) in [(48, -30), (-48, 30), (17, 5), (-9, -6), (270, 192), (5, 0), (0, -3)] {
        let (g0, s0, t0) = extended_euclidean(Integers, a, b).unwrap();
        let expected = if g0 < 0 { (g0.unsigned_abs(), -s0, -t0) } else { (g0 as usize, s0, t0) };
        assert_eq!(extended_euclidean_int(a, b), Some(expected));
        assert_eq!(a % g0, 0);
        assert_eq!(b % g0, 0);
    }
}
