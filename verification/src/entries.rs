//! The entries of the ordered maps that hold sparse tables, as lists.

use std::collections::BTreeMap;
use vstd::prelude::*;
use vstd::std_specs::iter::IteratorSpec;

verus! {

broadcast use vstd::std_specs::btree::group_btree_axioms;

/// Keys that a map iterator yields in increasing order are increasing.
proof fn lemma_increasing_indices(s: Seq<usize>)
    requires
        vstd::std_specs::btree::increasing_seq(s),
    ensures
        forall|i: int, j: int| 0 <= i < j < s.len() ==> s[i] < s[j],
{
    broadcast use vstd::laws_cmp::group_laws_cmp;

    assert(vstd::laws_cmp::obeys_cmp::<usize>());
    vstd::std_specs::btree::axiom_increasing_seq_meaning::<usize>(s);
    assert forall|i: int, j: int| 0 <= i < j < s.len() implies s[i] < s[j] by {
        assert(vstd::std_specs::cmp::OrdSpec::cmp_spec(&s[i], &s[j]) is Less);
    }
}

/// The entries of a map keyed by index, in increasing order of index.
pub fn index_entries<V: Copy>(m: &BTreeMap<usize, V>) -> (r: Vec<(usize, V)>)
    ensures
        r.len() == m@.dom().len(),
        forall|i: int|
            0 <= i < r.len() ==> m@.contains_key(#[trigger] r@[i].0) && m@[r@[i].0] == r@[i].1,
        forall|k: usize| #[trigger] m@.contains_key(k) ==> exists|i: int| 0 <= i < r.len() && r@[i].0 == k,
        forall|i: int, j: int| 0 <= i < j < r.len() ==> r@[i].0 < r@[j].0,
{
    let iter = m.iter();
    let ghost keys = iter.remaining().map_values(|kv: (&usize, &V)| *kv.0);
    proof {
        lemma_increasing_indices(keys);
    }
    let mut out: Vec<(usize, V)> = Vec::new();
    for kv in it: iter
        invariant
            out.len() == it.index(),
            it.seq() == iter.remaining(),
            iter == vstd::std_specs::btree::spec_btree_map_iter(m),
            keys == iter.remaining().map_values(|kv: (&usize, &V)| *kv.0),
            forall|i: int, j: int| 0 <= i < j < keys.len() ==> keys[i] < keys[j],
            forall|i: int|
                0 <= i < out.len() ==> out@[i].0 == *it.seq()[i].0 && out@[i].1 == *it.seq()[i].1,
    {
        let (k, v) = kv;
        out.push((*k, *v));
    }
    proof {
        assert forall|i: int, j: int| 0 <= i < j < out.len() implies out@[i].0 < out@[j].0 by {
            assert(keys[i] == out@[i].0);
            assert(keys[j] == out@[j].0);
        }
        assert forall|k: usize| #[trigger] m@.contains_key(k) implies exists|i: int|
            0 <= i < out.len() && out@[i].0 == k by {
            let v = iter.remaining();
            assert(v.contains((&k, &m@[k])));
            let i = choose|i: int| 0 <= i < v.len() && v[i] == (&k, &m@[k]);
            assert(out@[i].0 == k);
        }
    }
    out
}

/// The entries of a map keyed by `(row, column)`.
pub fn pair_entries<V: Copy>(m: &BTreeMap<(usize, usize), V>) -> (r: Vec<((usize, usize), V)>)
    ensures
        r.len() == m@.dom().len(),
        forall|i: int|
            0 <= i < r.len() ==> m@.contains_key(#[trigger] r@[i].0) && m@[r@[i].0] == r@[i].1,
        forall|k: (usize, usize)| #[trigger] m@.contains_key(k) ==> exists|i: int|
            0 <= i < r.len() && r@[i].0 == k,
{
    let iter = m.iter();
    let mut out: Vec<((usize, usize), V)> = Vec::new();
    for kv in it: iter
        invariant
            out.len() == it.index(),
            it.seq() == iter.remaining(),
            iter == vstd::std_specs::btree::spec_btree_map_iter(m),
            forall|i: int|
                0 <= i < out.len() ==> out@[i].0 == *it.seq()[i].0 && out@[i].1 == *it.seq()[i].1,
    {
        let (k, v) = kv;
        out.push((*k, *v));
    }
    proof {
        assert forall|k: (usize, usize)| #[trigger] m@.contains_key(k) implies exists|i: int|
            0 <= i < out.len() && out@[i].0 == k by {
            let v = iter.remaining();
            assert(v.contains((&k, &m@[k])));
            let i = choose|i: int| 0 <= i < v.len() && v[i] == (&k, &m@[k]);
            assert(out@[i].0 == k);
        }
    }
    out
}

} // verus!
