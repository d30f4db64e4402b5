use my_zk_rs::ff::Fp25519;
use my_zk_rs::mle::{DenseMultilinearPoly, EqPoly, MultilinearPoly, SparseMultilinearPoly};
use std::collections::BTreeMap;

fn f(value: u64) -> Fp25519 {
    Fp25519::from_u64(value)
}

#[test]
fn eq_table_is_an_indicator_on_the_hypercube() {
    // r = (1, 0): only index 1 (bit 0 set, bit 1 clear) gets weight one.
    let eq = EqPoly::new(vec![f(1), f(0)]);
    assert_eq!(eq.vars(), 2);
    assert_eq!(eq.table(), [f(0), f(1), f(0), f(0)]);
}

#[test]
fn eq_evaluates_the_product_formula() {
    let eq = EqPoly::new(vec![f(2), f(3)]);
    // (2*5 + (1-2)(1-5)) * (3*7 + (1-3)(1-7)) = 14 * 33
    assert_eq!(eq.eval(&[f(5), f(7)]), f(462));
    assert_eq!(eq.point(), &[f(2), f(3)]);
}

#[test]
fn dense_mle_extends_its_table() {
    let poly = DenseMultilinearPoly::new(vec![f(3), f(5), f(7), f(11)], 2);
    assert_eq!(poly.vars(), 2);
    assert_eq!(poly.eval(&[f(0), f(0)]), f(3));
    assert_eq!(poly.eval(&[f(1), f(0)]), f(5));
    assert_eq!(poly.eval(&[f(0), f(1)]), f(7));
    assert_eq!(poly.eval(&[f(1), f(1)]), f(11));
}

#[test]
fn folding_then_evaluating_matches_direct_evaluation() {
    let table = vec![f(3), f(5), f(7), f(11), f(13), f(17), f(19), f(23)];
    let poly = DenseMultilinearPoly::new(table.clone(), 3);
    let direct = poly.eval(&[f(4), f(9), f(6)]);

    let mut folded = DenseMultilinearPoly::new(table, 3);
    folded.fold(f(4));
    assert_eq!(folded.vars(), 2);
    assert_eq!(folded.evals().len(), 4);
    assert_eq!(folded.eval(&[f(9), f(6)]), direct);
    folded.fold(f(9));
    folded.fold(f(6));
    assert_eq!(folded.final_constant(), direct);
}

#[test]
fn fold_combines_adjacent_pairs() {
    let mut poly = DenseMultilinearPoly::new(vec![f(1), f(3), f(10), f(20)], 2);
    poly.fold(f(2));
    // (1-2)*1 + 2*3 = 5, (1-2)*10 + 2*20 = 30
    assert_eq!(poly.evals(), &[f(5), f(30)]);
}

#[test]
fn sparse_and_dense_tables_agree_on_eval_and_fold() {
    let dense = DenseMultilinearPoly::new(vec![f(0), f(3), f(0), f(7)], 2);
    let mut sparse = dense.to_sparse();
    assert_eq!(sparse.evals().len(), 2);
    assert_eq!(sparse.to_dense().evals(), dense.evals());

    let point = [f(5), f(11)];
    assert_eq!(sparse.eval(&point), dense.eval(&point));

    let mut folded = dense.clone();
    folded.fold(f(5));
    sparse.fold(f(5));
    assert_eq!(sparse.vars(), 1);
    assert_eq!(sparse.to_dense().evals(), folded.evals());
    sparse.fold(f(11));
    folded.fold(f(11));
    assert_eq!(sparse.final_constant(), folded.final_constant());
}

#[test]
fn sparse_constructor_drops_zero_values() {
    let mut entries = BTreeMap::new();
    entries.insert(1usize, f(4));
    entries.insert(2usize, f(0));
    let sparse = SparseMultilinearPoly::new(entries, 2);
    assert_eq!(sparse.evals().len(), 1);
    assert_eq!(sparse.to_dense().evals(), [f(0), f(4), f(0), f(0)]);
    // (1 - x0) x1 weights index 2, x0 (1 - x1) weights index 1: value 4 * 3 * (1 - 2).
    assert_eq!(sparse.eval(&[f(3), f(2)]), f(0) - f(12));
}
