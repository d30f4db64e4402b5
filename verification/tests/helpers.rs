use my_zk_rs::ff::Fp25519;
use my_zk_rs::helpers::{
    column_major_row, fold_halves, hypercube_size, inner_product, log2_ceil, OneLike, VariableLike,
};
use my_zk_rs::poly::Monomial;
use my_zk_rs::r1cs::R1CSStructure;

fn f(x: u64) -> Fp25519 {
    Fp25519::from_u64(x)
}

#[test]
fn extracts_a_row_from_column_major_entries() {
    let entries = [0, 1, 2, 3, 4, 5];

    assert_eq!(column_major_row(&entries, 2, 0), [0, 2, 4]);
    assert_eq!(column_major_row(&entries, 2, 1), [1, 3, 5]);
}

#[test]
fn column_major_row_of_a_single_row_matrix_is_everything() {
    let entries = [7, 8, 9];
    assert_eq!(column_major_row(&entries, 1, 0), [7, 8, 9]);
    assert_eq!(column_major_row(&entries, 3, 2), [9]);
}

#[test]
fn monomial_helpers_match_receiver_dimension() {
    let x0 = Monomial::<3>::variable(0);

    assert_eq!(x0.one_like(), Monomial::<3>::one());
    assert_eq!(x0.variable_like(2), Monomial::<3>::variable(2));
}

#[test]
fn log2_ceil_is_the_smallest_exponent_that_fits_values() {
    assert_eq!(log2_ceil(0), 0);
    assert_eq!(log2_ceil(1), 0);
    assert_eq!(log2_ceil(2), 1);
    assert_eq!(log2_ceil(3), 2);
    assert_eq!(log2_ceil(4), 2);
    assert_eq!(log2_ceil(5), 3);
    assert_eq!(log2_ceil(8), 3);
    assert_eq!(log2_ceil(9), 4);
}

#[test]
fn log2_ceil_handles_the_largest_values() {
    assert_eq!(log2_ceil(usize::MAX), usize::BITS as usize);
    assert_eq!(log2_ceil(1usize << (usize::BITS - 1)), usize::BITS as usize - 1);
    assert_eq!(log2_ceil((1usize << (usize::BITS - 1)) + 1), usize::BITS as usize);
}

#[test]
fn hypercube_size_is_a_power_of_two() {
    assert_eq!(hypercube_size(0), 1);
    assert_eq!(hypercube_size(3), 8);
    assert_eq!(hypercube_size(10), 1024);
}

#[test]
fn inner_product_multiplies_and_sums_pairs() {
    let lhs = [f(2), f(3), f(5)];
    let rhs = [f(7), f(11), f(13)];

    assert_eq!(inner_product(&lhs, &rhs), f(112));
    assert_eq!(inner_product(&[], &[]), f(0));
}

#[test]
fn folds_halves_with_the_given_scales() {
    let values = [f(1), f(2), f(3), f(4)];
    let folded = fold_halves(&values, f(10), f(100));

    assert_eq!(folded, [f(310), f(420)]);
    assert_eq!(inner_product(&folded, &[f(1), f(1)]), f(730));
}

#[test]
fn monomial_arithmetic() {
    let m = Monomial::<3>::new([2, 0, 1]);
    assert_eq!(m.degree(), 3);
    assert_eq!(m.exponent(0), 2);
    assert_eq!(m.exponents(), &[2, 0, 1]);
    assert!(!m.is_one());
    assert!(Monomial::<3>::one().is_one());
    assert!(Monomial::<0>::one().is_one());
    let p = m.mul(&Monomial::<3>::variable(1));
    assert_eq!(p, Monomial::<3>::new([2, 1, 1]));
    assert_eq!(p.degree(), 4);
}

#[test]
fn r1cs_structure_dense_length() {
    let s = R1CSStructure::new(1, 2, 1);
    assert_eq!(s.num_constraints, 1);
    assert_eq!(s.dense_len(), 4);
}
