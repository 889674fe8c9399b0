//! Changes to level 0: one leaf per distinct value, deletions applied
//! before additions, a leaf removed when it has no document left.

use crate::docids::{copy_docids, docids_of, no_docids, subtract_from, union_into};
use crate::order::{bytes_lt, compare_bytes, lemma_bytes_lt_total, lemma_bytes_lt_transitive};
use crate::tree::{leaves_ok, sorted_level, FacetNode};
use roaring::RoaringBitmap;
use vstd::prelude::*;

verus! {

/// What a level holds, node by node: each bound with its documents.
pub open spec fn entries(level: Seq<FacetNode>) -> Seq<(Seq<u8>, Set<u32>)> {
    level.map_values(|n: FacetNode| (n.bound@, docids_of(n.docids)))
}

/// `p` is where `bound` sits in the sorted level: every bound before it is
/// smaller, the one at it (if any) is not.
pub open spec fn is_position(level: Seq<FacetNode>, bound: Seq<u8>, p: int) -> bool {
    &&& 0 <= p <= level.len()
    &&& forall|k: int| 0 <= k < p ==> #[trigger] bytes_lt(level[k].bound@, bound)
    &&& p < level.len() ==> !bytes_lt(level[p].bound@, bound)
}

/// The level holds a leaf for `bound`, at `p`.
pub open spec fn found_at(level: Seq<FacetNode>, bound: Seq<u8>, p: int) -> bool {
    p < level.len() && level[p].bound@ == bound
}

/// The documents of the leaf of `bound` after deleting `del` then adding
/// `add`, where `old` is what the leaf held (empty when there was none).
pub open spec fn merged(old: Set<u32>, del: Set<u32>, add: Set<u32>) -> Set<u32> {
    old.difference(del).union(add)
}

/// What level 0 holds after `(bound, del, add)` is applied at position `p`.
pub open spec fn entries_after(
    level: Seq<FacetNode>,
    bound: Seq<u8>,
    p: int,
    del: Set<u32>,
    add: Set<u32>,
) -> Seq<(Seq<u8>, Set<u32>)> {
    if found_at(level, bound, p) {
        let s = merged(docids_of(level[p].docids), del, add);
        if s == Set::<u32>::empty() {
            entries(level).remove(p)
        } else {
            entries(level).update(p, (bound, s))
        }
    } else if add == Set::<u32>::empty() {
        entries(level)
    } else {
        entries(level).insert(p, (bound, add))
    }
}

/// Finds the position of `bound` in a sorted level.
pub fn find_position(level: &Vec<FacetNode>, bound: &Vec<u8>) -> (p: usize)
    requires
        sorted_level(level@),
    ensures
        is_position(level@, bound@, p as int),
{
    let mut p: usize = 0;
    while p < level.len() && compare_bytes(level[p].bound.as_slice(), bound.as_slice()) < 0
        invariant
            p <= level.len(),
            forall|k: int| 0 <= k < p ==> #[trigger] bytes_lt(level@[k].bound@, bound@),
        decreases level.len() - p,
    {
        p = p + 1;
    }
    p
}

/// Applies a delta to the leaf of `bound`: removes the ids of `del`, then
/// adds those of `add`; creates the leaf if it is missing and something is
/// added, removes it if it ends up with no document. Returns the leaf's
/// position.
pub fn apply_leaf_delta(
    leaves: &mut Vec<FacetNode>,
    bound: &Vec<u8>,
    del: &RoaringBitmap,
    add: &RoaringBitmap,
) -> (p: usize)
    requires
        leaves_ok(old(leaves)@),
    ensures
        leaves_ok(final(leaves)@),
        is_position(old(leaves)@, bound@, p as int),
        entries(final(leaves)@) == entries_after(
            old(leaves)@,
            bound@,
            p as int,
            docids_of(*del),
            docids_of(*add),
        ),
{
    let p = find_position(leaves, bound);
    let ghost before = leaves@;
    if p < leaves.len() && compare_bytes(leaves[p].bound.as_slice(), bound.as_slice()) == 0 {
        let mut node = leaves.remove(p);
        subtract_from(&mut node.docids, del);
        union_into(&mut node.docids, add);
        let ghost removed = leaves@;
        assert(removed =~= before.remove(p as int));
        assert(entries(removed) =~= entries(before).remove(p as int));
        if !no_docids(&node.docids) {
            leaves.insert(p, node);
            proof {
                assert(leaves@ =~= before.update(p as int, node));
                assert(entries(leaves@) =~= entries(before).update(
                    p as int,
                    (bound@, docids_of(node.docids)),
                ));
                assert forall|i: int, j: int| 0 <= i < j < leaves@.len() implies #[trigger] bytes_lt(
                    leaves@[i].bound@,
                    leaves@[j].bound@,
                ) by {
                    assert(bytes_lt(before[i].bound@, before[j].bound@));
                }
            }
        } else {
            proof {
                assert forall|i: int, j: int| 0 <= i < j < leaves@.len() implies #[trigger] bytes_lt(
                    leaves@[i].bound@,
                    leaves@[j].bound@,
                ) by {
                    let i0 = if i < p { i } else { i + 1 };
                    let j0 = if j < p { j } else { j + 1 };
                    assert(bytes_lt(before[i0].bound@, before[j0].bound@));
                }
            }
        }
    } else if !no_docids(add) {
        let docids = copy_docids(add);
        let node = FacetNode { bound: bound.clone(), size: 0, docids };
        proof {
            if p < before.len() {
                lemma_bytes_lt_total(before[p as int].bound@, bound@);
            }
        }
        leaves.insert(p, node);
        proof {
            assert(entries(leaves@) =~= entries(before).insert(p as int, (bound@, docids_of(*add))));
            assert forall|i: int, j: int| 0 <= i < j < leaves@.len() implies #[trigger] bytes_lt(
                leaves@[i].bound@,
                leaves@[j].bound@,
            ) by {
                if j < p {
                    assert(bytes_lt(before[i].bound@, before[j].bound@));
                } else if j == p {
                    assert(bytes_lt(before[i].bound@, bound@));
                } else if i == p {
                    if j - 1 > p {
                        assert(bytes_lt(before[p as int].bound@, before[j - 1].bound@));
                        lemma_bytes_lt_transitive(bound@, before[p as int].bound@, before[j - 1].bound@);
                    }
                } else if i < p {
                    assert(bytes_lt(before[i].bound@, bound@));
                    if j - 1 > p {
                        assert(bytes_lt(before[p as int].bound@, before[j - 1].bound@));
                        lemma_bytes_lt_transitive(bound@, before[p as int].bound@, before[j - 1].bound@);
                    }
                    lemma_bytes_lt_transitive(before[i].bound@, bound@, before[j - 1].bound@);
                } else {
                    assert(bytes_lt(before[i - 1].bound@, before[j - 1].bound@));
                }
            }
        }
    }
    p
}

/// Number of entries whose bound sorts before `b`: in a sorted level, the
/// position of `b`.
pub open spec fn count_below(e: Seq<(Seq<u8>, Set<u32>)>, b: Seq<u8>) -> int
    decreases e.len(),
{
    if e.len() == 0 {
        0
    } else {
        count_below(e.drop_last(), b) + if bytes_lt(e.last().0, b) { 1int } else { 0int }
    }
}

/// In a sorted level the position of a bound is the number of bounds
/// below it.
pub proof fn lemma_count_below(level: Seq<FacetNode>, b: Seq<u8>, p: int)
    requires
        sorted_level(level),
        is_position(level, b, p),
    ensures
        count_below(entries(level), b) == p,
{
    assert forall|k: int| 0 <= k < level.len() implies (bytes_lt(
        #[trigger] level[k].bound@,
        b,
    ) <==> k < p) by {
        if k > p && bytes_lt(level[k].bound@, b) {
            assert(bytes_lt(level[p].bound@, level[k].bound@));
            lemma_bytes_lt_transitive(level[p].bound@, level[k].bound@, b);
        }
    }
    lemma_count_prefix(entries(level), b, p);
}

pub proof fn lemma_count_prefix(e: Seq<(Seq<u8>, Set<u32>)>, b: Seq<u8>, p: int)
    requires
        0 <= p <= e.len(),
        forall|k: int| 0 <= k < e.len() ==> (bytes_lt(#[trigger] e[k].0, b) <==> k < p),
    ensures
        count_below(e, b) == p,
    decreases e.len(),
{
    if e.len() > 0 {
        let q = if p == e.len() { p - 1 } else { p };
        assert forall|k: int| 0 <= k < e.drop_last().len() implies (bytes_lt(
            #[trigger] e.drop_last()[k].0,
            b,
        ) <==> k < q) by {
            assert(e.drop_last()[k] == e[k]);
        }
        lemma_count_prefix(e.drop_last(), b, q);
    }
}

} // verus!
