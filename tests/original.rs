use polymoly::{extended_euclidean_int, Integers, IntegersModuloP, Poly, Polynomial};

#[test]
fn eea_48_neg30() {
    let (gcd, s, t) = extended_euclidean_int(48, -30).unwrap();
    assert_eq!((gcd, s, t), (6, 2, 3));
}

#[test]
fn degree() {
    assert_eq!(Poly::zero(Integers).deg(), None);
    assert_eq!(Poly::constant(Integers, 42).deg(), Some(0));

    for i in 0..3 {
        assert_eq!(Poly::single(Integers, 42, i).deg(), Some(i));
    }

    assert_eq!(Poly::single(Integers, 0, 9).deg(), None);

    let product = Poly::single(Integers, 2, 2).mul(Poly::single(Integers, 3, 3));
    assert_eq!(product.deg(), Some(5));
}

#[test]
fn mod_degree() {
    assert_eq!(Polynomial::zero(Integers).deg(), None);
    assert_eq!(Polynomial::constant(Integers, 42).deg(), Some(0));

    for i in 0..3 {
        assert_eq!(Polynomial::single(Integers, 42, i).deg(), Some(i));
    }

    assert_eq!(Polynomial::single(Integers, 0, 9).deg(), None);

    let product = Polynomial::single(Integers, 2, 2).mul(Polynomial::single(Integers, 3, 3));
    assert_eq!(product.deg(), Some(5));
}

#[test]
fn integers_modulo_prime_detection() {
    assert!(IntegersModuloP::new(0).is_none());
    assert!(IntegersModuloP::new(1).is_none());
    assert!(IntegersModuloP::new(4).is_none());
    assert!(IntegersModuloP::new(6).is_none());
    assert!(IntegersModuloP::new(8).is_none());
    assert!(IntegersModuloP::new(9).is_none());
    assert!(IntegersModuloP::new(333).is_none());
    assert!(IntegersModuloP::new(7909).is_none());

    assert!(IntegersModuloP::new(2).is_some());
    assert!(IntegersModuloP::new(3).is_some());
    assert!(IntegersModuloP::new(5).is_some());
    assert!(IntegersModuloP::new(7).is_some());
    assert!(IntegersModuloP::new(11).is_some());
    assert!(IntegersModuloP::new(13).is_some());
    assert!(IntegersModuloP::new(19).is_some());
    assert!(IntegersModuloP::new(43).is_some());
    assert!(IntegersModuloP::new(127).is_some());
    assert!(IntegersModuloP::new(7793).is_some());
}

#[test]
fn zmod_prime_detection() {
    assert!(IntegersModuloP::checked_new(0).is_none());
    assert!(IntegersModuloP::checked_new(1).is_none());
    assert!(IntegersModuloP::checked_new(4).is_none());
    assert!(IntegersModuloP::checked_new(6).is_none());
    assert!(IntegersModuloP::checked_new(8).is_none());
    assert!(IntegersModuloP::checked_new(9).is_none());
    assert!(IntegersModuloP::checked_new(333).is_none());
    assert!(IntegersModuloP::checked_new(7909).is_none());

    assert!(IntegersModuloP::checked_new(2).is_some());
    assert!(IntegersModuloP::checked_new(3).is_some());
    assert!(IntegersModuloP::checked_new(5).is_some());
    assert!(IntegersModuloP::checked_new(7).is_some());
    assert!(IntegersModuloP::checked_new(11).is_some());
    assert!(IntegersModuloP::checked_new(13).is_some());
    assert!(IntegersModuloP::checked_new(19).is_some());
    assert!(IntegersModuloP::checked_new(43).is_some());
    assert!(IntegersModuloP::checked_new(127).is_some());
    assert!(IntegersModuloP::checked_new(7793).is_some());
}
