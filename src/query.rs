//! What the queries on a field's tree return, stated over its leaves, and
//! the queries that read the leaves in value order: distribution of
//! candidates over values, and sort of candidates by value.

use crate::docids::{common_count, docids_of, intersect_docids, lemma_docids_finite, no_docids};
use crate::search::{hits_view, order_by_count, ranked_hits, FacetHit};
use crate::order::{bytes_lt, compare_bytes};
use crate::tree::{FacetNode, FacetTree};
use roaring::RoaringBitmap;
use vstd::prelude::*;

verus! {

/// `b` lies in `[lo, hi]`; a missing end is unbounded.
pub open spec fn in_range(b: Seq<u8>, lo: Option<Seq<u8>>, hi: Option<Seq<u8>>) -> bool {
    &&& (lo matches Some(l) ==> !bytes_lt(b, l))
    &&& (hi matches Some(h) ==> !bytes_lt(h, b))
}

/// Documents of the first `n` leaves whose value lies in `[lo, hi]`.
pub open spec fn range_docids(
    leaves: Seq<FacetNode>,
    lo: Option<Seq<u8>>,
    hi: Option<Seq<u8>>,
    n: int,
) -> Set<u32>
    decreases n,
{
    if n <= 0 {
        Set::empty()
    } else if in_range(leaves[n - 1].bound@, lo, hi) {
        range_docids(leaves, lo, hi, n - 1).union(docids_of(leaves[n - 1].docids))
    } else {
        range_docids(leaves, lo, hi, n - 1)
    }
}

/// Leaf `i` holds one of the candidates.
pub open spec fn meets(leaves: Seq<FacetNode>, cands: Set<u32>, i: int) -> bool {
    !docids_of(leaves[i].docids).disjoint(cands)
}

/// The view of an optional bound.
pub open spec fn opt_view(b: Option<&Vec<u8>>) -> Option<Seq<u8>> {
    match b {
        Some(v) => Some(v@),
        None => None,
    }
}

pub(crate) fn within_range(b: &Vec<u8>, lo: Option<&Vec<u8>>, hi: Option<&Vec<u8>>) -> (r: bool)
    ensures
        r == in_range(b@, opt_view(lo), opt_view(hi)),
{
    let above = match lo {
        Some(l) => compare_bytes(b.as_slice(), l.as_slice()) >= 0,
        None => true,
    };
    let below = match hi {
        Some(h) => compare_bytes(h.as_slice(), b.as_slice()) >= 0,
        None => true,
    };
    above && below
}

pub(crate) fn has_common(a: &RoaringBitmap, b: &RoaringBitmap) -> (r: bool)
    ensures
        r == !docids_of(*a).disjoint(docids_of(*b)),
{
    let n = common_count(a, b);
    proof {
        let s = docids_of(*a).intersect(docids_of(*b));
        if !docids_of(*a).disjoint(docids_of(*b)) {
            let x = choose|x: u32| docids_of(*a).contains(x) && docids_of(*b).contains(x);
            assert(s.contains(x));
            lemma_docids_finite(s);
            vstd::set_lib::lemma_set_empty_equivalency_len(s);
        } else {
            assert(s =~= Set::<u32>::empty());
        }
    }
    n > 0
}

/// Each of the first `n` leaves held by some candidate, in value order,
/// with the number of candidates that hold it.
pub open spec fn value_counts(leaves: Seq<FacetNode>, cands: Set<u32>, n: int) -> Seq<(Seq<u8>, int)>
    decreases n,
{
    if n <= 0 {
        Seq::empty()
    } else {
        let c = docids_of(leaves[n - 1].docids).intersect(cands).len() as int;
        if c > 0 {
            value_counts(leaves, cands, n - 1).push((leaves[n - 1].bound@, c))
        } else {
            value_counts(leaves, cands, n - 1)
        }
    }
}

/// Once `k` values are counted, later leaves do not change the first `k`.
proof fn lemma_value_counts_prefix(leaves: Seq<FacetNode>, cands: Set<u32>, n: int, m: int, k: int)
    requires
        0 <= n <= m,
        0 <= k <= value_counts(leaves, cands, n).len(),
    ensures
        k <= value_counts(leaves, cands, m).len(),
        value_counts(leaves, cands, m).take(k) == value_counts(leaves, cands, n).take(k),
    decreases m - n,
{
    if n < m {
        lemma_value_counts_prefix(leaves, cands, n, m - 1, k);
        let a = value_counts(leaves, cands, m - 1);
        let b = value_counts(leaves, cands, m);
        if b.len() > a.len() {
            assert(b.take(k) =~= a.take(k));
        }
    }
}

/// The documents of each leaf held by some candidate, restricted to the
/// candidates, in value order over the first `n` leaves.
pub open spec fn sort_groups(leaves: Seq<FacetNode>, cands: Set<u32>, n: int) -> Seq<Set<u32>>
    decreases n,
{
    if n <= 0 {
        Seq::empty()
    } else {
        let s = docids_of(leaves[n - 1].docids).intersect(cands);
        if s != Set::<u32>::empty() {
            sort_groups(leaves, cands, n - 1).push(s)
        } else {
            sort_groups(leaves, cands, n - 1)
        }
    }
}

impl FacetTree {
    /// The candidates grouped by value, groups in increasing value order:
    /// a sort of the candidates by this field. Candidates without a value
    /// are left out.
    pub fn sorted_groups(&self, cands: &RoaringBitmap) -> (r: Vec<RoaringBitmap>)
        requires
            self.view_levels().len() >= 1,
        ensures
            r@.map_values(|b: RoaringBitmap| docids_of(b)) == sort_groups(
                self.view_levels()[0],
                docids_of(*cands),
                self.view_levels()[0].len() as int,
            ),
    {
        let leaves = &self.levels[0];
        let mut r: Vec<RoaringBitmap> = Vec::new();
        let mut i: usize = 0;
        while i < leaves.len()
            invariant
                leaves@ == self.view_levels()[0],
                i <= leaves.len(),
                r@.map_values(|b: RoaringBitmap| docids_of(b)) == sort_groups(
                    leaves@,
                    docids_of(*cands),
                    i as int,
                ),
            decreases leaves.len() - i,
        {
            let s = intersect_docids(&leaves[i].docids, cands);
            if !no_docids(&s) {
                let ghost before = r@;
                r.push(s);
                assert(r@.map_values(|b: RoaringBitmap| docids_of(b)) =~= before.map_values(
                    |b: RoaringBitmap| docids_of(b),
                ).push(docids_of(s)));
            }
            i = i + 1;
        }
        r
    }

    /// The distribution of the candidates over this field's values: each
    /// value held by some candidate with the number of candidates holding
    /// it, in value order or by decreasing count, at most `max_values` of
    /// them. In value order the scan stops once `max_values` are found.
    pub fn distribution(&self, cands: &RoaringBitmap, max_values: usize, by_count: bool) -> (r: Vec<FacetHit>)
        requires
            self.view_levels().len() >= 1,
        ensures
            hits_view(r@) == ranked_hits(
                value_counts(self.view_levels()[0], docids_of(*cands), self.view_levels()[0].len() as int),
                max_values as int,
                by_count,
            ),
    {
        let leaves = &self.levels[0];
        let ghost cv = docids_of(*cands);
        let ghost total = leaves@.len() as int;
        let mut hits: Vec<FacetHit> = Vec::new();
        let mut i: usize = 0;
        while i < leaves.len() && (by_count || hits.len() < max_values)
            invariant
                leaves@ == self.view_levels()[0],
                cv == docids_of(*cands),
                self.view_levels().len() >= 1,
                i <= leaves.len(),
                !by_count ==> hits@.len() <= max_values,
                hits_view(hits@) == value_counts(leaves@, cv, i as int),
            decreases leaves.len() - i,
        {
            let c = common_count(&leaves[i].docids, cands);
            if c > 0 {
                let ghost before = hits_view(hits@);
                hits.push((leaves[i].bound.clone(), c));
                assert(hits_view(hits@) =~= before.push((leaves@[i as int].bound@, c as int)));
            }
            i = i + 1;
        }
        proof {
            if i < leaves.len() {
                assert(hits@.len() == max_values);
                assert(hits_view(hits@).len() == hits@.len());
                lemma_value_counts_prefix(leaves@, cv, i as int, total, max_values as int);
                assert(hits_view(hits@).take(max_values as int) =~= hits_view(hits@));
                let full = value_counts(leaves@, cv, total);
                if full.len() <= max_values {
                    assert(full.take(max_values as int) =~= full);
                }
            }
        }
        let mut ranked = if by_count {
            order_by_count(&hits)
        } else {
            hits
        };
        if ranked.len() > max_values {
            let ghost full = hits_view(ranked@);
            ranked.truncate(max_values);
            assert(hits_view(ranked@) =~= full.take(max_values as int));
        }
        ranked
    }
}

} // verus!
