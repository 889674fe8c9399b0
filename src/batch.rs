//! Level 0 as a function from values to documents: deltas act on that
//! function, and the function determines level 0. Hence the order in which
//! deltas arrive does not matter once every value ends with the same
//! documents.

use crate::order::{bytes_lt, lemma_bytes_lt_asymmetric, lemma_bytes_lt_irreflexive, lemma_bytes_lt_total, lemma_bytes_lt_transitive};
use crate::leaves::count_below;
use crate::leaves::entries;
use crate::tree::{bulk_shaped, config_ok, lemma_same_leaves_same_tree, level_view, tree_ok, FacetNode, TreeConfig};
use crate::update::{apply_delta, apply_deltas, entries_sorted, lemma_count_below_split, lemma_leaves_view};
use vstd::prelude::*;

verus! {

/// `e` holds exactly the values to which `f` gives documents, in order,
/// each with those documents.
pub open spec fn represents(e: Seq<(Seq<u8>, Set<u32>)>, f: spec_fn(Seq<u8>) -> Set<u32>) -> bool {
    &&& entries_sorted(e)
    &&& forall|i: int| 0 <= i < e.len() ==> (#[trigger] e[i]).1 == f(e[i].0) && f(e[i].0) != Set::<u32>::empty()
    &&& forall|v: Seq<u8>| f(v) != Set::<u32>::empty() ==> #[trigger] has_value(e, v)
}

/// Some entry of `e` is for value `v`.
pub open spec fn has_value(e: Seq<(Seq<u8>, Set<u32>)>, v: Seq<u8>) -> bool {
    exists|i: int| 0 <= i < e.len() && (#[trigger] e[i]).0 == v
}

/// The documents of each value after one delta.
pub open spec fn docs_after_delta(f: spec_fn(Seq<u8>) -> Set<u32>, d: (Seq<u8>, Set<u32>, Set<u32>)) -> spec_fn(Seq<u8>) -> Set<u32> {
    |w: Seq<u8>| if w == d.0 { f(w).difference(d.1).union(d.2) } else { f(w) }
}

/// The documents of each value after the deltas, in order.
pub open spec fn docs_after(f: spec_fn(Seq<u8>) -> Set<u32>, ds: Seq<(Seq<u8>, Set<u32>, Set<u32>)>) -> spec_fn(Seq<u8>) -> Set<u32>
    decreases ds.len(),
{
    if ds.len() == 0 {
        f
    } else {
        docs_after_delta(docs_after(f, ds.drop_last()), ds.last())
    }
}

/// No value has documents.
pub open spec fn no_docs() -> spec_fn(Seq<u8>) -> Set<u32> {
    |w: Seq<u8>| Set::<u32>::empty()
}

proof fn lemma_sorted_unique(e: Seq<(Seq<u8>, Set<u32>)>, i: int, j: int)
    requires
        entries_sorted(e),
        0 <= i < e.len(),
        0 <= j < e.len(),
        e[i].0 == e[j].0,
    ensures
        i == j,
{
    lemma_bytes_lt_irreflexive(e[i].0);
    if i < j {
        assert(bytes_lt(e[i].0, e[j].0));
    }
    if j < i {
        assert(bytes_lt(e[j].0, e[i].0));
    }
}

/// Two level-0 entry lists that give every value the same documents are
/// the same list.
pub proof fn lemma_represents_unique(e1: Seq<(Seq<u8>, Set<u32>)>, e2: Seq<(Seq<u8>, Set<u32>)>, f: spec_fn(Seq<u8>) -> Set<u32>)
    requires
        represents(e1, f),
        represents(e2, f),
    ensures
        e1 == e2,
    decreases e1.len() + e2.len(),
{
    if e1.len() == 0 && e2.len() == 0 {
        assert(e1 =~= e2);
    } else if e1.len() == 0 {
        assert(has_value(e1, e2[0].0));
    } else if e2.len() == 0 {
        assert(has_value(e2, e1[0].0));
    } else {
        let a = e1.last();
        let b = e2.last();
        let n1 = e1.len() - 1;
        let n2 = e2.len() - 1;
        assert(e1[n1] == a);
        assert(e2[n2] == b);
        assert(has_value(e2, a.0));
        assert(has_value(e1, b.0));
        let j = choose|j: int| 0 <= j < e2.len() && (#[trigger] e2[j]).0 == a.0;
        let k = choose|k: int| 0 <= k < e1.len() && (#[trigger] e1[k]).0 == b.0;
        if j < n2 {
            assert(bytes_lt(e2[j].0, e2[n2].0));
            if k < n1 {
                assert(bytes_lt(e1[k].0, e1[n1].0));
                lemma_bytes_lt_asymmetric(a.0, b.0);
            } else {
                lemma_bytes_lt_irreflexive(a.0);
            }
        }
        assert(j == n2) by {
            if j < n2 {
                if k < n1 {
                    assert(bytes_lt(e1[k].0, e1[n1].0));
                    lemma_bytes_lt_asymmetric(a.0, b.0);
                } else {
                    lemma_bytes_lt_irreflexive(a.0);
                }
            }
        }
        assert(a == b);
        let v = a.0;
        let g = |w: Seq<u8>| if w == v { Set::<u32>::empty() } else { f(w) };
        let d1 = e1.drop_last();
        let d2 = e2.drop_last();
        assert forall|i: int, q: int| 0 <= i < q < d1.len() implies #[trigger] bytes_lt(d1[i].0, d1[q].0) by {
            assert(bytes_lt(e1[i].0, e1[q].0));
        }
        assert forall|i: int, q: int| 0 <= i < q < d2.len() implies #[trigger] bytes_lt(d2[i].0, d2[q].0) by {
            assert(bytes_lt(e2[i].0, e2[q].0));
        }
        assert forall|i: int| 0 <= i < d1.len() implies (#[trigger] d1[i]).1 == g(d1[i].0) && g(d1[i].0) != Set::<u32>::empty() by {
            assert(d1[i] == e1[i]);
            if d1[i].0 == v {
                lemma_sorted_unique(e1, i, n1);
            }
        }
        assert forall|i: int| 0 <= i < d2.len() implies (#[trigger] d2[i]).1 == g(d2[i].0) && g(d2[i].0) != Set::<u32>::empty() by {
            assert(d2[i] == e2[i]);
            if d2[i].0 == v {
                lemma_sorted_unique(e2, i, n2);
            }
        }
        assert forall|w: Seq<u8>| g(w) != Set::<u32>::empty() implies #[trigger] has_value(d1, w) by {
            assert(has_value(e1, w));
            let i = choose|i: int| 0 <= i < e1.len() && (#[trigger] e1[i]).0 == w;
            assert(i != n1);
            assert(d1[i] == e1[i]);
        }
        assert forall|w: Seq<u8>| g(w) != Set::<u32>::empty() implies #[trigger] has_value(d2, w) by {
            assert(has_value(e2, w));
            let i = choose|i: int| 0 <= i < e2.len() && (#[trigger] e2[i]).0 == w;
            assert(i != n2);
            assert(d2[i] == e2[i]);
        }
        lemma_represents_unique(d1, d2, g);
        assert(e1 =~= d1.push(a));
        assert(e2 =~= d2.push(b));
    }
}

/// A delta acts on level 0 as it acts on the documents of its value.
pub proof fn lemma_delta_represents(e: Seq<(Seq<u8>, Set<u32>)>, f: spec_fn(Seq<u8>) -> Set<u32>, d: (Seq<u8>, Set<u32>, Set<u32>))
    requires
        represents(e, f),
    ensures
        represents(apply_delta(e, d), docs_after_delta(f, d)),
{
    let v = d.0;
    let g = docs_after_delta(f, d);
    lemma_count_below_split(e, v);
    let p = count_below(e, v);
    let r = apply_delta(e, d);
    lemma_bytes_lt_irreflexive(v);
    if p < e.len() && e[p].0 == v {
        let s = e[p].1.difference(d.1).union(d.2);
        assert(g(v) == s);
        if s == Set::<u32>::empty() {
            assert(r == e.remove(p));
            assert forall|i: int, q: int| 0 <= i < q < r.len() implies #[trigger] bytes_lt(r[i].0, r[q].0) by {
                let i0 = if i < p { i } else { i + 1 };
                let q0 = if q < p { q } else { q + 1 };
                assert(bytes_lt(e[i0].0, e[q0].0));
            }
            assert forall|i: int| 0 <= i < r.len() implies (#[trigger] r[i]).1 == g(r[i].0) && g(r[i].0) != Set::<u32>::empty() by {
                let i0 = if i < p { i } else { i + 1 };
                assert(r[i] == e[i0]);
                if e[i0].0 == v {
                    lemma_sorted_unique(e, i0, p);
                }
            }
            assert forall|w: Seq<u8>| g(w) != Set::<u32>::empty() implies #[trigger] has_value(r, w) by {
                assert(w != v);
                assert(f(w) != Set::<u32>::empty());
                assert(has_value(e, w));
                let i = choose|i: int| 0 <= i < e.len() && (#[trigger] e[i]).0 == w;
                assert(i != p);
                let i1 = if i < p { i } else { i - 1 };
                assert(r[i1] == e[i]);
            }
        } else {
            assert(r == e.update(p, (v, s)));
            assert forall|i: int, q: int| 0 <= i < q < r.len() implies #[trigger] bytes_lt(r[i].0, r[q].0) by {
                assert(bytes_lt(e[i].0, e[q].0));
            }
            assert forall|i: int| 0 <= i < r.len() implies (#[trigger] r[i]).1 == g(r[i].0) && g(r[i].0) != Set::<u32>::empty() by {
                if i != p && e[i].0 == v {
                    lemma_sorted_unique(e, i, p);
                }
            }
            assert forall|w: Seq<u8>| g(w) != Set::<u32>::empty() implies #[trigger] has_value(r, w) by {
                if w == v {
                    assert(r[p].0 == v);
                } else {
                    assert(has_value(e, w));
                    let i = choose|i: int| 0 <= i < e.len() && (#[trigger] e[i]).0 == w;
                    assert(r[i].0 == w);
                }
            }
        }
    } else {
        assert(f(v) == Set::<u32>::empty()) by {
            if f(v) != Set::<u32>::empty() {
                assert(has_value(e, v));
                let i = choose|i: int| 0 <= i < e.len() && (#[trigger] e[i]).0 == v;
                if i > p {
                    assert(bytes_lt(e[p].0, e[i].0));
                }
            }
        }
        assert(g(v) =~= d.2) by {
            assert(f(v).difference(d.1).union(d.2) =~= d.2);
        }
        if d.2 == Set::<u32>::empty() {
            assert(r == e);
            assert forall|i: int| 0 <= i < r.len() implies (#[trigger] r[i]).1 == g(r[i].0) && g(r[i].0) != Set::<u32>::empty() by {
                if r[i].0 == v {
                    assert(f(e[i].0) != Set::<u32>::empty());
                }
            }
            assert forall|w: Seq<u8>| g(w) != Set::<u32>::empty() implies #[trigger] has_value(r, w) by {
                assert(w != v);
                assert(has_value(e, w));
            }
        } else {
            assert(r == e.insert(p, (v, d.2)));
            if p < e.len() {
                lemma_bytes_lt_total(e[p].0, v);
            }
            assert forall|i: int, q: int| 0 <= i < q < r.len() implies #[trigger] bytes_lt(r[i].0, r[q].0) by {
                if q < p {
                    assert(bytes_lt(e[i].0, e[q].0));
                } else if q == p {
                    assert(bytes_lt(e[i].0, v));
                } else if i == p {
                    if q - 1 > p {
                        assert(bytes_lt(e[p].0, e[q - 1].0));
                        lemma_bytes_lt_transitive(v, e[p].0, e[q - 1].0);
                    }
                } else if i < p {
                    assert(bytes_lt(e[i].0, v));
                    if q - 1 > p {
                        assert(bytes_lt(e[p].0, e[q - 1].0));
                        lemma_bytes_lt_transitive(v, e[p].0, e[q - 1].0);
                    }
                    lemma_bytes_lt_transitive(e[i].0, v, e[q - 1].0);
                } else {
                    assert(bytes_lt(e[i - 1].0, e[q - 1].0));
                }
            }
            assert forall|i: int| 0 <= i < r.len() implies (#[trigger] r[i]).1 == g(r[i].0) && g(r[i].0) != Set::<u32>::empty() by {
                if i != p {
                    let i0 = if i < p { i } else { i - 1 };
                    assert(r[i] == e[i0]);
                    if e[i0].0 == v {
                        assert(f(e[i0].0) != Set::<u32>::empty());
                    }
                }
            }
            assert forall|w: Seq<u8>| g(w) != Set::<u32>::empty() implies #[trigger] has_value(r, w) by {
                if w == v {
                    assert(r[p].0 == v);
                } else {
                    assert(has_value(e, w));
                    let i = choose|i: int| 0 <= i < e.len() && (#[trigger] e[i]).0 == w;
                    let i1 = if i < p { i } else { i + 1 };
                    assert(r[i1] == e[i]);
                }
            }
        }
    }
}

/// Deltas applied in order act on level 0 as they act on the documents of
/// each value.
pub proof fn lemma_deltas_represent(e: Seq<(Seq<u8>, Set<u32>)>, f: spec_fn(Seq<u8>) -> Set<u32>, ds: Seq<(Seq<u8>, Set<u32>, Set<u32>)>)
    requires
        represents(e, f),
    ensures
        represents(apply_deltas(e, ds), docs_after(f, ds)),
    decreases ds.len(),
{
    if ds.len() > 0 {
        lemma_deltas_represent(e, f, ds.drop_last());
        lemma_delta_represents(apply_deltas(e, ds.drop_last()), docs_after(f, ds.drop_last()), ds.last());
    }
}

/// Two batches of deltas that leave every value with the same documents
/// leave the same level 0, whatever their order and grouping: a bulk
/// batch of one delta per value and the same additions made one tuple at
/// a time build the same leaves.
pub proof fn lemma_same_documents_same_leaves(
    e: Seq<(Seq<u8>, Set<u32>)>,
    f: spec_fn(Seq<u8>) -> Set<u32>,
    ds1: Seq<(Seq<u8>, Set<u32>, Set<u32>)>,
    ds2: Seq<(Seq<u8>, Set<u32>, Set<u32>)>,
)
    requires
        represents(e, f),
        forall|w: Seq<u8>| #[trigger] docs_after(f, ds1)(w) == docs_after(f, ds2)(w),
    ensures
        apply_deltas(e, ds1) == apply_deltas(e, ds2),
{
    lemma_deltas_represent(e, f, ds1);
    lemma_deltas_represent(e, f, ds2);
    let f1 = docs_after(f, ds1);
    let f2 = docs_after(f, ds2);
    assert(f1 =~= f2);
    lemma_represents_unique(apply_deltas(e, ds1), apply_deltas(e, ds2), f1);
}

/// An empty level 0 gives no value documents.
pub proof fn lemma_empty_represents()
    ensures
        represents(Seq::<(Seq<u8>, Set<u32>)>::empty(), no_docs()),
{
}

/// Building a tree by the bulk path from one batch, and building it by
/// applying deltas one at a time (the incremental path), from an empty
/// field, give the same tree, node for node at every level, whenever the
/// two sequences of deltas leave every value with the same documents.
pub proof fn lemma_bulk_equals_incremental(
    t1: Seq<Seq<FacetNode>>,
    t2: Seq<Seq<FacetNode>>,
    c: TreeConfig,
    ds1: Seq<(Seq<u8>, Set<u32>, Set<u32>)>,
    ds2: Seq<(Seq<u8>, Set<u32>, Set<u32>)>,
)
    requires
        config_ok(c),
        tree_ok(t1, c),
        tree_ok(t2, c),
        bulk_shaped(t1, c.group_size as int),
        bulk_shaped(t2, c.group_size as int),
        entries(t1[0]) == apply_deltas(Seq::empty(), ds1),
        entries(t2[0]) == apply_deltas(Seq::empty(), ds2),
        forall|w: Seq<u8>| #[trigger] docs_after(no_docs(), ds1)(w) == docs_after(no_docs(), ds2)(w),
    ensures
        t1.len() == t2.len(),
        forall|l: int| 0 <= l < t1.len() ==> #[trigger] level_view(t1[l]) == level_view(t2[l]),
{
    lemma_empty_represents();
    lemma_same_documents_same_leaves(Seq::empty(), no_docs(), ds1, ds2);
    lemma_leaves_view(t1[0], t2[0]);
    lemma_same_leaves_same_tree(t1, t2, c);
}

} // verus!
