use my_zk_rs::ff::Fp25519;
use my_zk_rs::uni_poly::{lagrange_interpolation, CoeffsUniPoly, EvalsUniPoly, UniPoly};

fn f(value: u64) -> Fp25519 {
    Fp25519::from_u64(value)
}

#[test]
fn evaluations_convert_to_coefficients() {
    // p(x) = 3x^2 + 2x + 5, evaluated at x = 0, 1, 2.
    let evals_poly = EvalsUniPoly::new(vec![f(5), f(10), f(21)]);
    let coeffs_poly = evals_poly.to_coeffs();

    assert_eq!(evals_poly.degree(), 2);
    assert_eq!(evals_poly.evals(), &[f(5), f(10), f(21)]);
    assert_eq!(coeffs_poly.degree(), 2);
    assert_eq!(coeffs_poly.coeffs(), &[f(5), f(2), f(3)]);
}

#[test]
fn both_representations_evaluate_to_the_same_value() {
    let evals_poly = EvalsUniPoly::new(vec![f(5), f(10), f(21)]);
    let coeffs_poly = CoeffsUniPoly::new(vec![f(5), f(2), f(3)]);

    assert_eq!(evals_poly.eval(f(7)), f(166));
    assert_eq!(coeffs_poly.eval(f(7)), f(166));
}

#[test]
fn constant_polynomials_work() {
    let evals_poly = EvalsUniPoly::new(vec![f(9)]);
    let coeffs_poly = CoeffsUniPoly::new(vec![f(9)]);

    assert_eq!(evals_poly.degree(), 0);
    assert_eq!(coeffs_poly.degree(), 0);
    assert_eq!(evals_poly.eval(f(123)), f(9));
    assert_eq!(coeffs_poly.eval(f(123)), f(9));
}

#[test]
fn interpolates_coefficients_from_integer_point_evaluations() {
    // p(x) = 3x^2 + 2x + 5, evaluated at x = 0, 1, 2.
    let evals = [f(5), f(10), f(21)];

    assert_eq!(lagrange_interpolation(&evals), [f(5), f(2), f(3)]);
}

#[test]
fn interpolation_handles_negative_coefficients() {
    // p(x) = x^3 - 2x, evaluated at x = 0..4: 0, -1, 4, 21.
    let evals = [f(0), -f(1), f(4), f(21)];
    let coeffs = lagrange_interpolation(&evals);
    assert_eq!(coeffs, [f(0), -f(2), f(0), f(1)]);
    let poly = CoeffsUniPoly::new(coeffs);
    assert_eq!(poly.eval(f(5)), f(115));
    assert_eq!(poly.eval(-f(1)), f(1));
}

#[test]
fn horner_evaluation_at_zero_gives_the_constant_term() {
    let poly = CoeffsUniPoly::new(vec![f(4), f(100), f(1000)]);
    assert_eq!(poly.eval(f(0)), f(4));
    assert_eq!(poly.eval(f(1)), f(1104));
}
