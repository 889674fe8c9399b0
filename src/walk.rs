//! Queries that walk the tree from its highest level. A range filter takes
//! the documents of a node whole when its range lies inside the query,
//! skips it when its range lies outside, and descends only into the nodes
//! on the query's boundaries. Minimum and maximum descend along the first
//! (last) node that holds one of the candidates.

use crate::docids::{copy_docids, docids_of, empty_docids, union_into};
use crate::order::{bytes_lt, compare_bytes, lemma_bytes_lt_total, lemma_bytes_lt_transitive};
use crate::query::{has_common, in_range, meets, opt_view, range_docids, within_range};
use crate::tree::{
    bulk_shaped, first_child, groups_ok, lemma_first_child_increasing, leaves_ok, node_ok, shaped_level,
    sorted_level, tree_ok, union_of, FacetNode, FacetTree, TreeConfig,
};
use roaring::RoaringBitmap;
use vstd::prelude::*;

verus! {

/// Index in level 0 of the first leaf under node `i` of level `l`; with
/// `i` the length of the level, the number of leaves.
pub open spec fn leaf_start(t: Seq<Seq<FacetNode>>, l: int, i: int) -> int
    decreases l,
{
    if l <= 0 {
        i
    } else {
        leaf_start(t, l - 1, first_child(t[l], i))
    }
}

/// Documents of the `n` leaves from `s` whose value lies in `[lo, hi]`.
pub open spec fn range_part(
    leaves: Seq<FacetNode>,
    lo: Option<Seq<u8>>,
    hi: Option<Seq<u8>>,
    s: int,
    n: int,
) -> Set<u32>
    decreases n,
{
    if n <= 0 {
        Set::empty()
    } else if in_range(leaves[s + n - 1].bound@, lo, hi) {
        range_part(leaves, lo, hi, s, n - 1).union(docids_of(leaves[s + n - 1].docids))
    } else {
        range_part(leaves, lo, hi, s, n - 1)
    }
}

proof fn lemma_range_part_zero(leaves: Seq<FacetNode>, lo: Option<Seq<u8>>, hi: Option<Seq<u8>>, n: int)
    requires
        n >= 0,
    ensures
        range_part(leaves, lo, hi, 0, n) == range_docids(leaves, lo, hi, n),
    decreases n,
{
    if n > 0 {
        lemma_range_part_zero(leaves, lo, hi, n - 1);
    }
}

proof fn lemma_range_part_concat(leaves: Seq<FacetNode>, lo: Option<Seq<u8>>, hi: Option<Seq<u8>>, s: int, n: int, m: int)
    requires
        n >= 0,
        m >= 0,
    ensures
        range_part(leaves, lo, hi, s, n + m) == range_part(leaves, lo, hi, s, n).union(range_part(leaves, lo, hi, s + n, m)),
    decreases m,
{
    if m > 0 {
        lemma_range_part_concat(leaves, lo, hi, s, n, m - 1);
        assert(range_part(leaves, lo, hi, s, n + m) =~= range_part(leaves, lo, hi, s, n).union(range_part(leaves, lo, hi, s + n, m)));
    } else {
        assert(range_part(leaves, lo, hi, s, n).union(Set::empty()) =~= range_part(leaves, lo, hi, s, n));
    }
}

proof fn lemma_union_concat(a: Seq<FacetNode>, s: int, n: int, m: int)
    requires
        n >= 0,
        m >= 0,
    ensures
        union_of(a, s, n + m) == union_of(a, s, n).union(union_of(a, s + n, m)),
    decreases m,
{
    if m > 0 {
        lemma_union_concat(a, s, n, m - 1);
        assert(union_of(a, s, n + m) =~= union_of(a, s, n).union(union_of(a, s + n, m)));
    } else {
        assert(union_of(a, s, n).union(Set::empty()) =~= union_of(a, s, n));
    }
}

/// When every leaf of a range lies in `[lo, hi]`, the range contributes
/// all its documents; when none does, nothing.
proof fn lemma_range_part_all(leaves: Seq<FacetNode>, lo: Option<Seq<u8>>, hi: Option<Seq<u8>>, s: int, n: int, all: bool)
    requires
        n >= 0,
        forall|k: int| s <= k < s + n ==> in_range(#[trigger] leaves[k].bound@, lo, hi) == all,
    ensures
        range_part(leaves, lo, hi, s, n) == if all { union_of(leaves, s, n) } else { Set::<u32>::empty() },
    decreases n,
{
    if n > 0 {
        lemma_range_part_all(leaves, lo, hi, s, n - 1, all);
        assert(in_range(leaves[s + n - 1].bound@, lo, hi) == all);
    }
}

/// The leaves under each node of level `l` form consecutive, non-empty
/// spans that cover level 0 in order; a node's bound is the bound of its
/// first leaf and its documents are those of its leaves.
pub open spec fn spans_ok(t: Seq<Seq<FacetNode>>, l: int) -> bool {
    &&& leaf_start(t, l, 0) == 0
    &&& leaf_start(t, l, t[l].len() as int) == t[0].len()
    &&& forall|i: int, j: int| 0 <= i < j <= t[l].len() ==> #[trigger] leaf_start(t, l, i) < #[trigger] leaf_start(t, l, j)
    &&& forall|i: int| 0 <= i < t[l].len() ==> (#[trigger] t[l][i]).bound@ == t[0][leaf_start(t, l, i)].bound@
    &&& forall|i: int| 0 <= i < t[l].len() ==> docids_of((#[trigger] t[l][i]).docids) == union_of(
        t[0],
        leaf_start(t, l, i),
        leaf_start(t, l, i + 1) - leaf_start(t, l, i),
    )
}

#[verifier::rlimit(100)]
proof fn lemma_union_lift(t: Seq<Seq<FacetNode>>, l: int, f: int, n: int)
    requires
        0 <= l < t.len(),
        spans_ok(t, l),
        0 <= f,
        0 <= n,
        f + n <= t[l].len(),
    ensures
        union_of(t[l], f, n) == union_of(t[0], leaf_start(t, l, f), leaf_start(t, l, f + n) - leaf_start(t, l, f)),
    decreases n,
{
    if n > 0 {
        lemma_union_lift(t, l, f, n - 1);
        let a = leaf_start(t, l, f);
        let b = leaf_start(t, l, f + n - 1);
        let e = leaf_start(t, l, f + n);
        if n - 1 > 0 {
            assert(a < b);
        }
        assert(b < e);
        assert(docids_of(t[l][f + n - 1].docids) == union_of(t[0], b, e - b));
        lemma_union_concat(t[0], a, b - a, e - b);
    } else {
        assert(union_of(t[0], leaf_start(t, l, f), 0) == Set::<u32>::empty());
    }
}

proof fn lemma_first_child_bounds(upper: Seq<FacetNode>, lower: Seq<FacetNode>, i: int, j: int)
    requires
        groups_ok(upper, lower),
        0 <= i < j <= upper.len(),
    ensures
        0 <= first_child(upper, i) < first_child(upper, j) <= lower.len(),
{
    assert forall|k: int| 0 <= k < upper.len() implies (#[trigger] upper[k]).size >= 1 by {
        assert(node_ok(upper, lower, k));
    }
    lemma_first_child_increasing(upper, i, j);
    if i > 0 {
        lemma_first_child_increasing(upper, 0, i);
    }
    if j < upper.len() {
        lemma_first_child_increasing(upper, j, upper.len() as int);
    }
}

/// Every level of a well-formed tree has well-formed leaf spans.
pub proof fn lemma_spans(t: Seq<Seq<FacetNode>>, c: TreeConfig, l: int)
    requires
        tree_ok(t, c),
        0 <= l < t.len(),
    ensures
        spans_ok(t, l),
    decreases l,
{
    if l == 0 {
        assert forall|i: int| 0 <= i < t[0].len() implies docids_of((#[trigger] t[0][i]).docids) == union_of(
            t[0],
            leaf_start(t, 0, i),
            leaf_start(t, 0, i + 1) - leaf_start(t, 0, i),
        ) by {
            assert(leaf_start(t, 0, i) == i && leaf_start(t, 0, i + 1) == i + 1);
            assert(union_of(t[0], i, 1) == union_of(t[0], i, 0).union(docids_of(t[0][i + 1 - 1].docids)));
            assert(union_of(t[0], i, 0).union(docids_of(t[0][i].docids)) =~= docids_of(t[0][i].docids));
        }
    } else {
        lemma_spans(t, c, l - 1);
        let up = t[l];
        let lo = t[l - 1];
        assert(groups_ok(up, lo));
        assert(first_child(up, 0) == 0);
        assert forall|i: int, j: int| 0 <= i < j <= up.len() implies #[trigger] leaf_start(t, l, i) < #[trigger] leaf_start(t, l, j) by {
            lemma_first_child_bounds(up, lo, i, j);
            let a = first_child(up, i);
            let b = first_child(up, j);
            assert(leaf_start(t, l, i) == leaf_start(t, l - 1, a));
            assert(leaf_start(t, l, j) == leaf_start(t, l - 1, b));
            assert(leaf_start(t, l - 1, a) < leaf_start(t, l - 1, b));
        }
        assert forall|i: int| 0 <= i < up.len() implies (#[trigger] t[l][i]).bound@ == t[0][leaf_start(t, l, i)].bound@ by {
            assert(node_ok(up, lo, i));
            lemma_first_child_bounds(up, lo, i, up.len() as int);
            if i > 0 {
                lemma_first_child_bounds(up, lo, 0, i);
            }
        }
        assert forall|i: int| 0 <= i < up.len() implies docids_of((#[trigger] t[l][i]).docids) == union_of(
            t[0],
            leaf_start(t, l, i),
            leaf_start(t, l, i + 1) - leaf_start(t, l, i),
        ) by {
            assert(node_ok(up, lo, i));
            let f = first_child(up, i);
            lemma_first_child_bounds(up, lo, i, i + 1);
            if i > 0 {
                lemma_first_child_bounds(up, lo, 0, i);
            }
            assert(first_child(up, i + 1) == f + up[i].size);
            lemma_union_lift(t, l - 1, f, up[i].size as int);
        }
    }
}

/// The tree can be walked: well formed and grouped by `group_size`.
#[verifier::opaque]
pub open spec fn walkable(t: Seq<Seq<FacetNode>>, c: TreeConfig) -> bool {
    tree_ok(t, c) && bulk_shaped(t, c.group_size as int)
}

/// What a walk needs of level `l`.
proof fn lemma_walkable(t: Seq<Seq<FacetNode>>, c: TreeConfig, l: int)
    requires
        walkable(t, c),
        0 <= l < t.len(),
    ensures
        spans_ok(t, l),
        leaves_ok(t[0]),
        l >= 1 ==> groups_ok(t[l], t[l - 1]) && shaped_level(t[l], c.group_size as int),
        l >= 1 ==> spans_ok(t, l - 1),
{
    reveal(walkable);
    lemma_spans(t, c, l);
    if l >= 1 {
        lemma_spans(t, c, l - 1);
    }
}

/// A span whose first bound is at least `lo` and whose next bound is at
/// most `hi` lies wholly in `[lo, hi]`.
proof fn lemma_span_inside(leaves: Seq<FacetNode>, lov: Option<Seq<u8>>, hiv: Option<Seq<u8>>, s: int, e: int)
    requires
        sorted_level(leaves),
        0 <= s < e <= leaves.len(),
        lov matches Some(x) ==> !bytes_lt(leaves[s].bound@, x),
        hiv matches Some(h) ==> e < leaves.len() && !bytes_lt(h, leaves[e].bound@),
    ensures
        range_part(leaves, lov, hiv, s, e - s) == union_of(leaves, s, e - s),
{
    assert forall|k: int| s <= k < s + (e - s) implies in_range(#[trigger] leaves[k].bound@, lov, hiv) == true by {
        if k > s {
            assert(bytes_lt(leaves[s].bound@, leaves[k].bound@));
        }
        if let Some(x) = lov {
            if bytes_lt(leaves[k].bound@, x) && k > s {
                lemma_bytes_lt_transitive(leaves[s].bound@, leaves[k].bound@, x);
            }
        }
        if let Some(h) = hiv {
            assert(bytes_lt(leaves[k].bound@, leaves[e].bound@));
            if bytes_lt(h, leaves[k].bound@) {
                lemma_bytes_lt_transitive(h, leaves[k].bound@, leaves[e].bound@);
            }
        }
    }
    lemma_range_part_all(leaves, lov, hiv, s, e - s, true);
}

/// A span that starts above `hi`, or whose next bound is at most `lo`,
/// lies wholly outside `[lo, hi]`.
proof fn lemma_span_outside(leaves: Seq<FacetNode>, lov: Option<Seq<u8>>, hiv: Option<Seq<u8>>, s: int, e: int)
    requires
        sorted_level(leaves),
        0 <= s < e <= leaves.len(),
        (hiv matches Some(h) && bytes_lt(h, leaves[s].bound@)) || (lov matches Some(x) && e < leaves.len()
            && !bytes_lt(x, leaves[e].bound@)),
    ensures
        range_part(leaves, lov, hiv, s, e - s) == Set::<u32>::empty(),
{
    assert forall|k: int| s <= k < s + (e - s) implies in_range(#[trigger] leaves[k].bound@, lov, hiv) == false by {
        if k > s {
            assert(bytes_lt(leaves[s].bound@, leaves[k].bound@));
        }
        if hiv is Some && bytes_lt(hiv.unwrap(), leaves[s].bound@) {
            let h = hiv.unwrap();
            if k > s {
                lemma_bytes_lt_transitive(h, leaves[s].bound@, leaves[k].bound@);
            }
        } else {
            let x = lov.unwrap();
            assert(bytes_lt(leaves[k].bound@, leaves[e].bound@));
            lemma_bytes_lt_total(x, leaves[e].bound@);
            if leaves[e].bound@ != x {
                lemma_bytes_lt_transitive(leaves[k].bound@, leaves[e].bound@, x);
            }
        }
    }
    lemma_range_part_all(leaves, lov, hiv, s, e - s, false);
}

/// What the walk needs to know of node `i` of level `l`: its span of
/// leaves, its bound and documents, the bound that follows it, and, above
/// level 0, where its children start.
proof fn lemma_node_facts(t: Seq<Seq<FacetNode>>, c: TreeConfig, l: int, i: int)
    requires
        walkable(t, c),
        0 <= l < t.len(),
        0 <= i < t[l].len(),
    ensures
        ({
            let s = leaf_start(t, l, i);
            let e = leaf_start(t, l, i + 1);
            &&& 0 <= s < e <= t[0].len()
            &&& sorted_level(t[0])
            &&& t[l][i].bound@ == t[0][s].bound@
            &&& docids_of(t[l][i].docids) == union_of(t[0], s, e - s)
            &&& i + 1 < t[l].len() ==> e < t[0].len() && t[l][i + 1].bound@ == t[0][e].bound@
            &&& i + 1 == t[l].len() ==> e == t[0].len()
            &&& l == 0 ==> s == i && e == i + 1
            &&& l >= 1 ==> {
                &&& first_child(t[l], i) == i * c.group_size
                &&& i * c.group_size + t[l][i].size <= t[l - 1].len()
                &&& s == leaf_start(t, l - 1, i * c.group_size)
                &&& e == leaf_start(t, l - 1, i * c.group_size + t[l][i].size)
            }
        }),
{
    lemma_walkable(t, c, l);
    if i + 1 < t[l].len() {
        assert(leaf_start(t, l, i + 1) < leaf_start(t, l, t[l].len() as int));
    }
    if i > 0 {
        assert(leaf_start(t, l, 0) < leaf_start(t, l, i));
    }
    assert(leaf_start(t, l, i) < leaf_start(t, l, i + 1));
    if l >= 1 {
        let up = t[l];
        assert(node_ok(up, t[l - 1], i));
        assert(first_child(up, i) == i * c.group_size);
        assert(first_child(up, i + 1) == i * c.group_size + up[i].size);
        lemma_first_child_bounds(up, t[l - 1], i, i + 1);
    }
}

/// Consecutive children have consecutive, non-empty spans.
proof fn lemma_child_step(t: Seq<Seq<FacetNode>>, c: TreeConfig, l: int, f: int, q: int)
    requires
        walkable(t, c),
        1 <= l < t.len(),
        0 <= f,
        0 <= q,
        f + q < t[l - 1].len(),
    ensures
        leaf_start(t, l - 1, f) <= leaf_start(t, l - 1, f + q) < leaf_start(t, l - 1, f + q + 1),
        forall|m: int| f + q + 1 <= m <= t[l - 1].len() ==> leaf_start(t, l - 1, f + q + 1) <= #[trigger] leaf_start(t, l - 1, m),
{
    lemma_walkable(t, c, l);
    assert forall|m: int| f + q + 1 <= m <= t[l - 1].len() implies leaf_start(t, l - 1, f + q + 1) <= #[trigger] leaf_start(t, l - 1, m) by {
        if m > f + q + 1 {
            assert(leaf_start(t, l - 1, f + q + 1) < leaf_start(t, l - 1, m));
        }
    }
    if q > 0 {
        assert(leaf_start(t, l - 1, f) < leaf_start(t, l - 1, f + q));
    }
    assert(leaf_start(t, l - 1, f + q) < leaf_start(t, l - 1, f + q + 1));
}

/// The union of a range meets the candidates exactly when one of its
/// leaves does.
proof fn lemma_union_meets(leaves: Seq<FacetNode>, cands: Set<u32>, s: int, n: int)
    requires
        n >= 0,
    ensures
        !union_of(leaves, s, n).disjoint(cands) <==> exists|k: int| s <= k < s + n && #[trigger] meets(leaves, cands, k),
    decreases n,
{
    if n > 0 {
        lemma_union_meets(leaves, cands, s, n - 1);
        let u = union_of(leaves, s, n - 1);
        let d = docids_of(leaves[s + n - 1].docids);
        if !u.union(d).disjoint(cands) {
            let x = choose|x: u32| u.union(d).contains(x) && cands.contains(x);
            if !u.contains(x) {
                assert(meets(leaves, cands, s + n - 1));
            }
        }
        if exists|k: int| s <= k < s + n && #[trigger] meets(leaves, cands, k) {
            let k = choose|k: int| s <= k < s + n && #[trigger] meets(leaves, cands, k);
            let x = choose|x: u32| docids_of(leaves[k].docids).contains(x) && cands.contains(x);
            if k < s + n - 1 {
                assert(exists|j: int| s <= j < s + n - 1 && #[trigger] meets(leaves, cands, j));
                let y = choose|y: u32| u.contains(y) && cands.contains(y);
                assert(u.union(d).contains(y));
            } else {
                assert(u.union(d).contains(x));
            }
        }
    }
}

/// A node that does not meet the candidates has no leaf that does.
proof fn lemma_node_misses(t: Seq<Seq<FacetNode>>, c: TreeConfig, l: int, i: int, cands: Set<u32>)
    requires
        walkable(t, c),
        0 <= l < t.len(),
        0 <= i < t[l].len(),
    ensures
        docids_of(t[l][i].docids).disjoint(cands) <==> forall|k: int|
            leaf_start(t, l, i) <= k < leaf_start(t, l, i + 1) ==> !#[trigger] meets(t[0], cands, k),
{
    lemma_node_facts(t, c, l, i);
    let s = leaf_start(t, l, i);
    let e = leaf_start(t, l, i + 1);
    lemma_union_meets(t[0], cands, s, e - s);
}

impl FacetTree {
    /// Documents of the leaves under node `i` of level `l` whose value lies
    /// in `[lo, hi]`.
    #[verifier::rlimit(100)]
    fn node_range(&self, l: usize, i: usize, c: TreeConfig, lo: Option<&Vec<u8>>, hi: Option<&Vec<u8>>) -> (r: RoaringBitmap)
        requires
            walkable(self.view_levels(), c),
            l < self.view_levels().len(),
            i < self.view_levels()[l as int].len(),
        ensures
            docids_of(r) == range_part(
                self.view_levels()[0],
                opt_view(lo),
                opt_view(hi),
                leaf_start(self.view_levels(), l as int, i as int),
                leaf_start(self.view_levels(), l as int, i + 1) - leaf_start(self.view_levels(), l as int, i as int),
            ),
        decreases l,
    {
        let ghost t = self.view_levels();
        let ghost leaves = t[0];
        let ghost lov = opt_view(lo);
        let ghost hiv = opt_view(hi);
        let ghost s = leaf_start(t, l as int, i as int);
        let ghost e = leaf_start(t, l as int, i + 1);
        proof {
            lemma_node_facts(t, c, l as int, i as int);
        }
        let level = &self.levels[l];
        assert(level@ == t[l as int]);
        let node = &level[i];
        if l == 0 {
            proof {
                assert(s == i && e == i + 1);
                assert(range_part(leaves, lov, hiv, s, 0) == Set::<u32>::empty());
                assert(leaves[s + 1 - 1] == leaves[s]);
                assert(node.bound@ == leaves[s].bound@);
            }
            if within_range(&node.bound, lo, hi) {
                let r = copy_docids(&node.docids);
                assert(docids_of(r) =~= range_part(leaves, lov, hiv, s, 1));
                return r;
            } else {
                let r = empty_docids();
                assert(docids_of(r) =~= range_part(leaves, lov, hiv, s, 1));
                return r;
            }
        }
        assert(i < level.len());
        let has_next = i + 1 < level.len();
        let lower_ok = match lo {
            None => true,
            Some(x) => compare_bytes(node.bound.as_slice(), x.as_slice()) >= 0,
        };
        let upper_ok = match hi {
            None => true,
            Some(h) => has_next && compare_bytes(level[i + 1].bound.as_slice(), h.as_slice()) <= 0,
        };
        if lower_ok && upper_ok {
            proof {
                assert(node.bound@ == leaves[s].bound@);
                if has_next {
                    assert(level@[i + 1].bound@ == leaves[e].bound@);
                }
                if let Some(x) = lo {
                    assert(lov == Some(x@));
                    assert(!bytes_lt(leaves[s].bound@, x@));
                }
                if let Some(h) = hi {
                    assert(hiv == Some(h@));
                    assert(has_next);
                    assert(!bytes_lt(h@, leaves[e].bound@));
                }
                lemma_span_inside(leaves, lov, hiv, s, e);
            }
            return copy_docids(&node.docids);
        }
        let above = match hi {
            Some(h) => compare_bytes(h.as_slice(), node.bound.as_slice()) < 0,
            None => false,
        };
        let below = match lo {
            Some(x) => has_next && compare_bytes(level[i + 1].bound.as_slice(), x.as_slice()) <= 0,
            None => false,
        };
        if above || below {
            proof {
                assert(node.bound@ == leaves[s].bound@);
                if has_next {
                    assert(level@[i + 1].bound@ == leaves[e].bound@);
                }
                if above {
                    let h = hi.unwrap();
                    assert(hiv == Some(h@));
                    assert(bytes_lt(h@, leaves[s].bound@));
                } else {
                    let x = lo.unwrap();
                    assert(lov == Some(x@));
                    assert(has_next);
                    assert(!bytes_lt(x@, leaves[e].bound@));
                }
                lemma_span_outside(leaves, lov, hiv, s, e);
            }
            return empty_docids();
        }
        let g = c.group_size;
        let size = node.size as usize;
        let n_below: usize = self.levels[l - 1].len();
        assert((i as int) * (g as int) + size <= n_below);
        let f: usize = i * (g as usize);
        let mut r = empty_docids();
        let mut q: usize = 0;
        while q < size
            invariant
                walkable(t, c),
                t == self.view_levels(),
                leaves == t[0],
                lov == opt_view(lo),
                hiv == opt_view(hi),
                1 <= l < t.len(),
                n_below == t[l - 1].len(),
                f + size <= n_below,
                s == leaf_start(t, l - 1, f as int),
                q <= size,
                docids_of(r) == range_part(leaves, lov, hiv, s, leaf_start(t, l - 1, f + q) - s),
            decreases size - q,
        {
            let part = self.node_range(l - 1, f + q, c, lo, hi);
            proof {
                let a = leaf_start(t, l - 1, f + q);
                let b = leaf_start(t, l - 1, f + q + 1);
                lemma_child_step(t, c, l as int, f as int, q as int);
                lemma_range_part_concat(leaves, lov, hiv, s, a - s, b - a);
            }
            union_into(&mut r, &part);
            q = q + 1;
        }
        r
    }

    /// Documents whose value lies in `[lo, hi]`, both ends included; a
    /// missing end is unbounded. Walks down from the highest level.
    pub fn filter(&self, lo: Option<&Vec<u8>>, hi: Option<&Vec<u8>>, c: TreeConfig) -> (r: RoaringBitmap)
        requires
            tree_ok(self.view_levels(), c),
            bulk_shaped(self.view_levels(), c.group_size as int),
        ensures
            docids_of(r) == range_docids(
                self.view_levels()[0],
                opt_view(lo),
                opt_view(hi),
                self.view_levels()[0].len() as int,
            ),
    {
        let ghost t = self.view_levels();
        let ghost leaves = t[0];
        let ghost lov = opt_view(lo);
        let ghost hiv = opt_view(hi);
        proof {
            reveal(walkable);
        }
        let top = self.levels.len() - 1;
        let n_top = self.levels[top].len();
        proof {
            lemma_walkable(t, c, top as int);
            assert(n_top == t[top as int].len());
        }
        let mut r = empty_docids();
        let mut i: usize = 0;
        while i < n_top
            invariant
                walkable(t, c),
                t == self.view_levels(),
                leaves == t[0],
                lov == opt_view(lo),
                hiv == opt_view(hi),
                top < t.len(),
                n_top == t[top as int].len(),
                spans_ok(t, top as int),
                i <= n_top,
                docids_of(r) == range_part(leaves, lov, hiv, 0, leaf_start(t, top as int, i as int)),
            decreases n_top - i,
        {
            let part = self.node_range(top, i, c, lo, hi);
            proof {
                let a = leaf_start(t, top as int, i as int);
                let b = leaf_start(t, top as int, i + 1);
                if i > 0 {
                    assert(leaf_start(t, top as int, 0) < a);
                }
                assert(a < b);
                lemma_range_part_concat(leaves, lov, hiv, 0, a, b - a);
            }
            union_into(&mut r, &part);
            i = i + 1;
        }
        proof {
            lemma_range_part_zero(leaves, lov, hiv, leaves.len() as int);
        }
        r
    }

    /// The first leaf under node `i` of level `l` that meets the candidates,
    /// found by descending into the first child that meets them.
    fn first_meeting(&self, l: usize, i: usize, c: TreeConfig, cands: &RoaringBitmap) -> (k: usize)
        requires
            walkable(self.view_levels(), c),
            l < self.view_levels().len(),
            i < self.view_levels()[l as int].len(),
            !docids_of(self.view_levels()[l as int][i as int].docids).disjoint(docids_of(*cands)),
        ensures
            leaf_start(self.view_levels(), l as int, i as int) <= k < leaf_start(self.view_levels(), l as int, i + 1),
            meets(self.view_levels()[0], docids_of(*cands), k as int),
            forall|j: int| leaf_start(self.view_levels(), l as int, i as int) <= j < k ==> !#[trigger] meets(self.view_levels()[0], docids_of(*cands), j),
        decreases l,
    {
        let ghost t = self.view_levels();
        let ghost cs = docids_of(*cands);
        let ghost s = leaf_start(t, l as int, i as int);
        let ghost e = leaf_start(t, l as int, i + 1);
        proof {
            lemma_node_facts(t, c, l as int, i as int);
        }
        if l == 0 {
            return i;
        }
        let g = c.group_size;
        let size = self.levels[l][i].size as usize;
        let n_below: usize = self.levels[l - 1].len();
        assert((i as int) * (g as int) + size <= n_below);
        let f: usize = i * (g as usize);
        let mut q: usize = 0;
        while q < size
            invariant
                walkable(t, c),
                t == self.view_levels(),
                cs == docids_of(*cands),
                1 <= l < t.len(),
                n_below == t[l - 1].len(),
                f + size <= n_below,
                s == leaf_start(t, l - 1, f as int),
                e == leaf_start(t, l - 1, f + size),
                s == leaf_start(t, l as int, i as int),
                e == leaf_start(t, l as int, i + 1),
                q <= size,
                forall|j: int| s <= j < leaf_start(t, l - 1, f + q) ==> !#[trigger] meets(t[0], cs, j),
            decreases size - q,
        {
            proof {
                lemma_child_step(t, c, l as int, f as int, q as int);
                lemma_node_misses(t, c, l - 1, f + q, cs);
            }
            if has_common(&self.levels[l - 1][f + q].docids, cands) {
                let k = self.first_meeting(l - 1, f + q, c, cands);
                assert(leaf_start(t, l - 1, f + q + 1) <= leaf_start(t, l - 1, f + size));
                return k;
            }
            q = q + 1;
        }
        proof {
            lemma_node_misses(t, c, l as int, i as int, cs);
        }
        0
    }

    /// The last leaf under node `i` of level `l` that meets the candidates,
    /// found by descending into the last child that meets them.
    fn last_meeting(&self, l: usize, i: usize, c: TreeConfig, cands: &RoaringBitmap) -> (k: usize)
        requires
            walkable(self.view_levels(), c),
            l < self.view_levels().len(),
            i < self.view_levels()[l as int].len(),
            !docids_of(self.view_levels()[l as int][i as int].docids).disjoint(docids_of(*cands)),
        ensures
            leaf_start(self.view_levels(), l as int, i as int) <= k < leaf_start(self.view_levels(), l as int, i + 1),
            meets(self.view_levels()[0], docids_of(*cands), k as int),
            forall|j: int| k < j < leaf_start(self.view_levels(), l as int, i + 1) ==> !#[trigger] meets(self.view_levels()[0], docids_of(*cands), j),
        decreases l,
    {
        let ghost t = self.view_levels();
        let ghost cs = docids_of(*cands);
        let ghost s = leaf_start(t, l as int, i as int);
        let ghost e = leaf_start(t, l as int, i + 1);
        proof {
            lemma_node_facts(t, c, l as int, i as int);
        }
        if l == 0 {
            return i;
        }
        let g = c.group_size;
        let size = self.levels[l][i].size as usize;
        let n_below: usize = self.levels[l - 1].len();
        assert((i as int) * (g as int) + size <= n_below);
        let f: usize = i * (g as usize);
        let mut q: usize = size;
        while q > 0
            invariant
                walkable(t, c),
                t == self.view_levels(),
                cs == docids_of(*cands),
                1 <= l < t.len(),
                n_below == t[l - 1].len(),
                f + size <= n_below,
                s == leaf_start(t, l - 1, f as int),
                e == leaf_start(t, l - 1, f + size),
                s == leaf_start(t, l as int, i as int),
                e == leaf_start(t, l as int, i + 1),
                q <= size,
                forall|j: int| leaf_start(t, l - 1, f + q) <= j < e ==> !#[trigger] meets(t[0], cs, j),
            decreases q,
        {
            q = q - 1;
            proof {
                lemma_child_step(t, c, l as int, f as int, q as int);
                lemma_node_misses(t, c, l - 1, f + q, cs);
                if q + 1 < size {
                    lemma_child_step(t, c, l as int, f as int, q + 1);
                }
            }
            if has_common(&self.levels[l - 1][f + q].docids, cands) {
                let k = self.last_meeting(l - 1, f + q, c, cands);
                assert(leaf_start(t, l - 1, f + q + 1) <= leaf_start(t, l - 1, f + size));
                return k;
            }
        }
        proof {
            lemma_node_misses(t, c, l as int, i as int, cs);
        }
        0
    }

    /// The smallest value held by one of the candidates, if any: the first
    /// node of the highest level that meets them, then its first child
    /// that does, down to a leaf.
    pub fn min_value(&self, cands: &RoaringBitmap, c: TreeConfig) -> (r: Option<Vec<u8>>)
        requires
            tree_ok(self.view_levels(), c),
            bulk_shaped(self.view_levels(), c.group_size as int),
        ensures
            ({
                let leaves = self.view_levels()[0];
                match r {
                    None => forall|i: int|
                        0 <= i < leaves.len() ==> !#[trigger] meets(leaves, docids_of(*cands), i),
                    Some(b) => exists|i: int|
                        0 <= i < leaves.len() && #[trigger] meets(leaves, docids_of(*cands), i)
                            && leaves[i].bound@ == b@ && forall|j: int|
                            0 <= j < i ==> !#[trigger] meets(leaves, docids_of(*cands), j),
                }
            }),
    {
        let ghost t = self.view_levels();
        let ghost cs = docids_of(*cands);
        proof {
            reveal(walkable);
        }
        let top = self.levels.len() - 1;
        let n_top = self.levels[top].len();
        proof {
            lemma_walkable(t, c, top as int);
        }
        let mut i: usize = 0;
        while i < n_top
            invariant
                walkable(t, c),
                t == self.view_levels(),
                cs == docids_of(*cands),
                top < t.len(),
                n_top == t[top as int].len(),
                i <= n_top,
                i == n_top ==> leaf_start(t, top as int, i as int) == t[0].len(),
                forall|j: int| 0 <= j < leaf_start(t, top as int, i as int) ==> !#[trigger] meets(t[0], cs, j),
            decreases n_top - i,
        {
            proof {
                lemma_node_misses(t, c, top as int, i as int, cs);
                lemma_node_facts(t, c, top as int, i as int);
                if i > 0 {
                    lemma_node_facts(t, c, top as int, i - 1);
                }
            }
            if has_common(&self.levels[top][i].docids, cands) {
                let k = self.first_meeting(top, i, c, cands);
                proof {
                    lemma_node_facts(t, c, top as int, i as int);
                }
                let b = self.levels[0][k].bound.clone();
                return Some(b);
            }
            i = i + 1;
        }
        None
    }

    /// The largest value held by one of the candidates, if any: the last
    /// node of the highest level that meets them, then its last child that
    /// does, down to a leaf.
    pub fn max_value(&self, cands: &RoaringBitmap, c: TreeConfig) -> (r: Option<Vec<u8>>)
        requires
            tree_ok(self.view_levels(), c),
            bulk_shaped(self.view_levels(), c.group_size as int),
        ensures
            ({
                let leaves = self.view_levels()[0];
                match r {
                    None => forall|i: int|
                        0 <= i < leaves.len() ==> !#[trigger] meets(leaves, docids_of(*cands), i),
                    Some(b) => exists|i: int|
                        0 <= i < leaves.len() && #[trigger] meets(leaves, docids_of(*cands), i)
                            && leaves[i].bound@ == b@ && forall|j: int|
                            i < j < leaves.len() ==> !#[trigger] meets(
                                leaves,
                                docids_of(*cands),
                                j,
                            ),
                }
            }),
    {
        let ghost t = self.view_levels();
        let ghost cs = docids_of(*cands);
        proof {
            reveal(walkable);
        }
        let top = self.levels.len() - 1;
        let n_top = self.levels[top].len();
        proof {
            lemma_walkable(t, c, top as int);
        }
        let mut i: usize = n_top;
        while i > 0
            invariant
                walkable(t, c),
                t == self.view_levels(),
                cs == docids_of(*cands),
                top < t.len(),
                n_top == t[top as int].len(),
                i <= n_top,
                forall|j: int| leaf_start(t, top as int, i as int) <= j < t[0].len() ==> !#[trigger] meets(t[0], cs, j),
            decreases i,
        {
            i = i - 1;
            proof {
                lemma_node_misses(t, c, top as int, i as int, cs);
                lemma_node_facts(t, c, top as int, i as int);
                if i + 1 < n_top {
                    lemma_node_facts(t, c, top as int, i + 1);
                }
            }
            if has_common(&self.levels[top][i].docids, cands) {
                let k = self.last_meeting(top, i, c, cands);
                proof {
                    lemma_node_facts(t, c, top as int, i as int);
                }
                let b = self.levels[0][k].bound.clone();
                return Some(b);
            }
        }
        None
    }
}

} // verus!
