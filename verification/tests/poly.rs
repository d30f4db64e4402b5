use my_zk_rs::ff::{F25519Config, Fp25519};
use my_zk_rs::helpers::{ConstantLike, OneLike, VariableLike, ZeroLike};
use my_zk_rs::mv_poly::MvPolynomial;
use my_zk_rs::poly::Monomial;

type F = Fp25519;
type Poly<const N: usize> = MvPolynomial<F25519Config, 4, N>;

fn f(x: u64) -> F {
    F::from_u64(x)
}

#[test]
fn monomial_evaluates_at_point() {
    let monomial = Monomial::<2>::new([2, 1]);

    assert_eq!(monomial.eval(&[f(3), f(4)]), f(36));
}

#[test]
fn construction_combines_like_terms_and_removes_zero_coefficients() {
    let x = Monomial::<2>::variable(0);
    let poly = Poly::from_terms(vec![(x.clone(), f(3)), (x, -f(3)), (Monomial::one(), f(5))]);

    assert_eq!(poly.num_terms(), 1);
    assert_eq!(poly.eval(&[f(10), f(20)]), f(5));
}

#[test]
fn polynomial_evaluates_at_point() {
    let poly = Poly::from_terms(vec![
        (Monomial::new([2, 0]), f(3)),
        (Monomial::new([0, 1]), f(2)),
        (Monomial::one(), f(5)),
    ]);

    assert_eq!(poly.degree(), Some(2));
    assert_eq!(poly.degree_of(0), Some(2));
    assert_eq!(poly.degree_of(1), Some(1));
    assert_eq!(poly.degrees(), [2, 1]);
    assert_eq!(poly.eval(&[f(2), f(7)]), f(31));
}

#[test]
fn addition_subtraction_and_multiplication_work() {
    let x = Poly::<2>::variable(0);
    let y = Poly::<2>::variable(1);
    let one = Poly::<2>::one();

    let product = (&x + &one) * (&y + &one);

    assert_eq!(product.num_terms(), 4);
    assert_eq!(product.degree(), Some(2));
    assert_eq!(product.eval(&[f(2), f(3)]), f(12));
    assert!((product.clone() - product).is_zero());
}

#[test]
fn polynomial_power_uses_repeated_multiplication() {
    let x = Poly::<2>::variable(0);
    let one = Poly::<2>::one();

    let poly = (&x + &one).pow(3);

    assert_eq!(poly.eval(&[f(2), f(99)]), f(27));
}

#[test]
fn curry_variable_evaluates_one_variable_and_removes_it() {
    let poly = Poly::from_terms(vec![
        (Monomial::new([2, 0]), f(3)),
        (Monomial::new([0, 1]), f(2)),
        (Monomial::one(), f(5)),
    ]);

    let pinned_x = poly.curry_variable::<1>(0, f(2));
    let pinned_y = poly.curry_variable::<1>(1, f(7));

    assert_eq!(pinned_x.degrees(), [1]);
    assert_eq!(pinned_y.degrees(), [2]);
    assert_eq!(pinned_x.eval(&[f(7)]), f(31));
    assert_eq!(pinned_y.eval(&[f(2)]), f(31));
}

#[test]
fn curry_prefix_evaluates_leading_variables_and_removes_them() {
    let poly = Poly::from_terms(vec![
        (Monomial::new([1, 0, 1, 0]), f(2)),
        (Monomial::new([0, 1, 0, 1]), f(3)),
        (Monomial::one(), f(5)),
    ]);

    let curried = poly.curry_prefix::<2, 2>(&[f(7), f(11)]);

    assert_eq!(curried.degrees(), [1, 1]);
    assert_eq!(
        curried.eval(&[f(13), f(17)]),
        poly.eval(&[f(7), f(11), f(13), f(17)])
    );
}

#[test]
fn curry_suffix_evaluates_trailing_variables_and_removes_them() {
    let poly = Poly::from_terms(vec![
        (Monomial::new([1, 0, 1, 0]), f(2)),
        (Monomial::new([0, 1, 0, 1]), f(3)),
        (Monomial::one(), f(5)),
    ]);

    let curried = poly.curry_suffix::<2, 2>(&[f(13), f(17)]);

    assert_eq!(curried.degrees(), [1, 1]);
    assert_eq!(
        curried.eval(&[f(7), f(11)]),
        poly.eval(&[f(7), f(11), f(13), f(17)])
    );
}

#[test]
fn polynomial_helpers_match_receiver_ring() {
    let x0 = Poly::<3>::variable(0);

    assert_eq!(x0.zero_like(), Poly::<3>::zero());
    assert_eq!(x0.one_like(), Poly::<3>::one());
    assert_eq!(x0.constant_like(F::from_u64(7)), Poly::<3>::constant(F::from_u64(7)));
    assert_eq!(x0.variable_like(2), Poly::<3>::variable(2));
}

#[test]
fn terms_stay_sorted_and_cancel() {
    let mut poly = Poly::<2>::zero();
    poly.add_term(Monomial::new([0, 2]), f(4));
    poly.add_term(Monomial::new([1, 0]), f(1));
    poly.add_term(Monomial::new([0, 0]), f(9));
    let exps: Vec<[usize; 2]> = poly.terms().iter().map(|(m, _)| *m.exponents()).collect();
    assert_eq!(exps, vec![[0, 0], [0, 2], [1, 0]]);
    poly.add_term(Monomial::new([0, 2]), -f(4));
    assert_eq!(poly.num_terms(), 2);
    assert!(!poly.is_one_polynomial());
    assert!(Poly::<2>::one().is_one_polynomial());
    assert!(poly.is_multilinear());
    assert_eq!(Poly::<2>::zero().degree(), None);
}

#[test]
fn scaling_and_negation() {
    let x = Poly::<1>::variable(0);
    let p = (&x + &Poly::<1>::one()) * f(3);
    assert_eq!(p.eval(&[f(5)]), f(18));
    assert_eq!((-&p).eval(&[f(5)]), -f(18));
    assert!((p.clone() * f(0)).is_zero());
    let mut q = p.clone();
    q += &p;
    q -= x.clone();
    assert_eq!(q.eval(&[f(5)]), f(31));
    q *= &x;
    assert_eq!(q.eval(&[f(5)]), f(155));
}

#[test]
fn monomial_product_commutes_keeps_unit_and_adds_degrees() {
    let a = Monomial::<2>::new([1, 2]);
    let b = Monomial::<2>::new([3, 4]);
    let ab = a.mul(&b);

    assert_eq!(ab, b.mul(&a));
    assert_eq!(ab, Monomial::<2>::new([4, 6]));
    assert_eq!(a.mul(&Monomial::one()), a);
    assert_eq!(ab.degree(), a.degree() + b.degree());
    assert_eq!(ab.eval(&[f(2), f(3)]), a.eval(&[f(2), f(3)]) * b.eval(&[f(2), f(3)]));
}
