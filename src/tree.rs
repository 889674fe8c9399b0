//! The layered facet tree of one field.
//!
//! Level 0 holds one node per distinct facet value, in increasing order of
//! the value's encoded bytes, each with the documents that hold that value.
//! A node of level `l > 0` covers the next `size` nodes of level `l - 1`:
//! its bound is the bound of its first child and its documents are the
//! union of its children's documents.

use crate::docids::{docids_of, empty_docids, union_into};
use crate::order::bytes_lt;
use roaring::RoaringBitmap;
use vstd::prelude::*;

verus! {

/// Target number of children of a node built by the bulk path.
pub const FACET_GROUP_SIZE: u8 = 4;

/// A level above another one exists only while that one has at least this
/// many nodes.
pub const FACET_MIN_LEVEL_SIZE: u8 = 5;

/// Number of children above which the incremental path splits a node.
pub const FACET_MAX_GROUP_SIZE: u8 = 8;

/// One node of the tree: `(left_bound, size, docids)`.
pub struct FacetNode {
    pub bound: Vec<u8>,
    pub size: u8,
    pub docids: RoaringBitmap,
}

/// The tuning constants of a tree.
#[derive(Clone, Copy, Debug, PartialEq, Eq, Structural)]
pub struct TreeConfig {
    pub group_size: u8,
    pub min_level_size: u8,
    pub max_group_size: u8,
}

/// The levels of one field's tree, level 0 first.
pub struct FacetTree {
    pub levels: Vec<Vec<FacetNode>>,
}

/// Constants under which every build terminates and every split is possible.
pub open spec fn config_ok(c: TreeConfig) -> bool {
    &&& c.group_size >= 2
    &&& c.min_level_size >= 2
    &&& c.max_group_size >= 2 * c.group_size
}

/// Sum of the sizes of the first `i` nodes of a level: the index, in the
/// level below, of the first child of node `i`.
pub open spec fn first_child(level: Seq<FacetNode>, i: int) -> int
    decreases i,
{
    if i <= 0 {
        0
    } else {
        first_child(level, i - 1) + level[i - 1].size
    }
}

/// Union of the documents of the `n` nodes of `level` starting at `s`.
pub open spec fn union_of(level: Seq<FacetNode>, s: int, n: int) -> Set<u32>
    decreases n,
{
    if n <= 0 {
        Set::empty()
    } else {
        union_of(level, s, n - 1).union(docids_of(level[s + n - 1].docids))
    }
}

/// Bounds strictly increase along the level.
pub open spec fn sorted_level(level: Seq<FacetNode>) -> bool {
    forall|i: int, j: int|
        0 <= i < j < level.len() ==> #[trigger] bytes_lt(level[i].bound@, level[j].bound@)
}

/// A well-formed level 0: sorted, each leaf of size 0 with some document.
pub open spec fn leaves_ok(level: Seq<FacetNode>) -> bool {
    &&& sorted_level(level)
    &&& forall|i: int|
        0 <= i < level.len() ==> (#[trigger] level[i]).size == 0 && docids_of(level[i].docids)
            != Set::<u32>::empty()
}

/// Node `i` of `upper` covers the `size` nodes of `lower` that start at
/// its first child, shares its bound and holds exactly their documents.
pub open spec fn node_ok(upper: Seq<FacetNode>, lower: Seq<FacetNode>, i: int) -> bool {
    &&& upper[i].size >= 1
    &&& upper[i].bound@ == lower[first_child(upper, i)].bound@
    &&& docids_of(upper[i].docids) == union_of(lower, first_child(upper, i), upper[i].size as int)
}

/// `upper` partitions `lower` into consecutive groups, one per node.
pub open spec fn groups_ok(upper: Seq<FacetNode>, lower: Seq<FacetNode>) -> bool {
    &&& first_child(upper, upper.len() as int) == lower.len()
    &&& forall|i: int| 0 <= i < upper.len() ==> #[trigger] node_ok(upper, lower, i)
}

/// Every level but the highest is well formed with respect to the one
/// below it.
pub open spec fn levels_ok(t: Seq<Seq<FacetNode>>, c: TreeConfig) -> bool {
    &&& t.len() >= 1
    &&& leaves_ok(t[0])
    &&& forall|l: int|
        1 <= l < t.len() ==> {
            &&& groups_ok(#[trigger] t[l], t[l - 1])
            &&& sorted_level(t[l])
            &&& t[l - 1].len() >= c.min_level_size
            &&& forall|i: int| 0 <= i < t[l].len() ==> (#[trigger] t[l][i]).size <= c.max_group_size
        }
}

/// A well-formed tree: every level is well formed and the highest level
/// has fewer than `min_level_size` nodes.
pub open spec fn tree_ok(t: Seq<Seq<FacetNode>>, c: TreeConfig) -> bool {
    &&& levels_ok(t, c)
    &&& t.last().len() < c.min_level_size
}

/// Every level above 0 groups the level below by `g`: node `i` starts at
/// child `i * g` and has at most `g` children.
pub open spec fn bulk_shaped(t: Seq<Seq<FacetNode>>, g: int) -> bool {
    forall|l: int| 1 <= l < t.len() ==> #[trigger] shaped_level(t[l], g)
}

/// Node `i` of the level starts at child `i * g` and has at most `g`
/// children.
pub open spec fn shaped_level(level: Seq<FacetNode>, g: int) -> bool {
    forall|i: int|
        #![trigger first_child(level, i)]
        0 <= i < level.len() ==> first_child(level, i) == i * g && level[i].size <= g
}

/// What a level holds, node by node: bound, number of children, documents.
pub open spec fn level_view(level: Seq<FacetNode>) -> Seq<(Seq<u8>, u8, Set<u32>)> {
    level.map_values(|n: FacetNode| (n.bound@, n.size, docids_of(n.docids)))
}

impl FacetTree {
    /// The levels as sequences of nodes.
    pub open spec fn view_levels(&self) -> Seq<Seq<FacetNode>> {
        Seq::new(self.levels@.len(), |l: int| self.levels@[l]@)
    }
}

proof fn lemma_first_child_push(s: Seq<FacetNode>, x: FacetNode, k: int)
    requires
        0 <= k <= s.len(),
    ensures
        first_child(s.push(x), k) == first_child(s, k),
    decreases k,
{
    if k > 0 {
        lemma_first_child_push(s, x, k - 1);
    }
}

/// First children strictly increase along a level whose nodes have
/// children.
pub proof fn lemma_first_child_increasing(s: Seq<FacetNode>, i: int, j: int)
    requires
        0 <= i < j <= s.len(),
        forall|k: int| 0 <= k < s.len() ==> (#[trigger] s[k]).size >= 1,
    ensures
        first_child(s, i) < first_child(s, j),
    decreases j,
{
    if i < j - 1 {
        lemma_first_child_increasing(s, i, j - 1);
    }
}

/// A level that groups a sorted level is sorted.
proof fn lemma_groups_sorted(upper: Seq<FacetNode>, lower: Seq<FacetNode>)
    requires
        groups_ok(upper, lower),
        sorted_level(lower),
    ensures
        sorted_level(upper),
{
    assert forall|i: int, j: int| 0 <= i < j < upper.len() implies #[trigger] bytes_lt(
        upper[i].bound@,
        upper[j].bound@,
    ) by {
        assert forall|k: int| 0 <= k < upper.len() implies (#[trigger] upper[k]).size >= 1 by {
            assert(node_ok(upper, lower, k));
        }
        lemma_first_child_increasing(upper, i, j);
        lemma_first_child_increasing(upper, j, upper.len() as int);
        if i > 0 {
            lemma_first_child_increasing(upper, 0, i);
        }
        assert(node_ok(upper, lower, i));
        assert(node_ok(upper, lower, j));
        let a = first_child(upper, i);
        let b = first_child(upper, j);
        assert(bytes_lt(lower[a].bound@, lower[b].bound@));
    }
}

/// Groups consecutive nodes of `lower` into nodes of `g` children (the
/// last one may have fewer), each with the bound of its first child and
/// the union of its children's documents.
pub fn group_level(lower: &Vec<FacetNode>, g: u8) -> (upper: Vec<FacetNode>)
    requires
        g >= 2,
    ensures
        groups_ok(upper@, lower@),
        forall|i: int| 0 <= i < upper.len() ==> (#[trigger] upper@[i]).size <= g,
        forall|i: int| 0 <= i < upper.len() ==> #[trigger] first_child(upper@, i) == i * g,
        shaped_level(upper@, g as int),
        sorted_level(lower@) ==> sorted_level(upper@),
        lower.len() >= 2 ==> upper.len() < lower.len(),
{
    let mut upper: Vec<FacetNode> = Vec::new();
    let mut i: usize = 0;
    while i < lower.len()
        invariant
            g >= 2,
            i <= lower.len(),
            first_child(upper@, upper.len() as int) == i,
            2 * upper.len() <= i + 1,
            i < lower.len() ==> 2 * upper.len() <= i,
            i < lower.len() ==> upper.len() * g == i,
            forall|k: int| 0 <= k < upper.len() ==> (#[trigger] upper@[k]).size <= g,
            forall|k: int| 0 <= k < upper.len() ==> #[trigger] first_child(upper@, k) == k * g,
            forall|k: int| 0 <= k < upper.len() ==> #[trigger] node_ok(upper@, lower@, k),
        decreases lower.len() - i,
    {
        let m: usize = if lower.len() - i < g as usize {
            lower.len() - i
        } else {
            g as usize
        };
        let mut docids = empty_docids();
        let mut j: usize = 0;
        while j < m
            invariant
                i + m <= lower.len(),
                j <= m,
                docids_of(docids) == union_of(lower@, i as int, j as int),
            decreases m - j,
        {
            union_into(&mut docids, &lower[i + j].docids);
            j = j + 1;
        }
        let bound = lower[i].bound.clone();
        let ghost old_upper = upper@;
        let node = FacetNode { bound, size: m as u8, docids };
        upper.push(node);
        proof {
            lemma_first_child_push(old_upper, node, old_upper.len() as int);
            assert forall|k: int| 0 <= k < upper.len() implies #[trigger] node_ok(
                upper@,
                lower@,
                k,
            ) by {
                lemma_first_child_push(old_upper, node, k);
                if k < old_upper.len() {
                    assert(old_upper[k] == upper@[k]);
                    assert(node_ok(old_upper, lower@, k));
                }
            }
            assert forall|k: int| 0 <= k < upper.len() implies #[trigger] first_child(upper@, k)
                == k * g by {
                lemma_first_child_push(old_upper, node, k);
            }
        }
        proof {
            let u = old_upper.len() as int;
            if i + m < lower.len() {
                assert(m == g);
                assert((u + 1) * g == u * g + g) by (nonlinear_arith);
            }
        }
        i = i + m;
    }
    proof {
        if sorted_level(lower@) {
            lemma_groups_sorted(upper@, lower@);
        }
    }
    upper
}

/// Builds the levels above `leaves`: level after level, by groups of
/// `group_size`, until a level has fewer than `min_level_size` nodes.
pub fn build_levels(leaves: Vec<FacetNode>, c: TreeConfig) -> (t: FacetTree)
    requires
        config_ok(c),
        leaves_ok(leaves@),
    ensures
        tree_ok(t.view_levels(), c),
        bulk_shaped(t.view_levels(), c.group_size as int),
        t.view_levels()[0] == leaves@,
{
    let ghost leaves_view = leaves@;
    let mut levels: Vec<Vec<FacetNode>> = Vec::new();
    levels.push(leaves);
    let ghost mut t = Seq::new(levels@.len(), |l: int| levels@[l]@);
    assert(t[0] == leaves_view);
    while levels[levels.len() - 1].len() >= c.min_level_size as usize
        invariant
            config_ok(c),
            levels.len() >= 1,
            levels_ok(Seq::new(levels@.len(), |l: int| levels@[l]@), c),
            bulk_shaped(Seq::new(levels@.len(), |l: int| levels@[l]@), c.group_size as int),
            levels@[0]@ == leaves_view,
        decreases levels@[levels.len() - 1]@.len(),
    {
        let ghost before = Seq::new(levels@.len(), |l: int| levels@[l]@);
        let next = group_level(&levels[levels.len() - 1], c.group_size);
        proof {
            assert(sorted_level(before[before.len() - 1]));
        }
        levels.push(next);
        proof {
            let after = Seq::new(levels@.len(), |l: int| levels@[l]@);
            assert(after =~= before.push(next@));
            assert forall|l: int| 1 <= l < after.len() implies {
                &&& groups_ok(#[trigger] after[l], after[l - 1])
                &&& sorted_level(after[l])
                &&& after[l - 1].len() >= c.min_level_size
                &&& forall|i: int|
                    0 <= i < after[l].len() ==> (#[trigger] after[l][i]).size <= c.max_group_size
            } by {
                if l < before.len() {
                    assert(after[l] == before[l]);
                    assert(after[l - 1] == before[l - 1]);
                }
            }
            assert forall|l: int| 1 <= l < after.len() implies #[trigger] shaped_level(after[l], c.group_size as int) by {
                if l < before.len() {
                    assert(after[l] == before[l]);
                }
            }
        }
    }
    FacetTree { levels }
}

/// The union of a range depends only on the documents of the nodes in it.
proof fn lemma_union_same(a: Seq<FacetNode>, b: Seq<FacetNode>, s: int, n: int)
    requires
        forall|k: int| s <= k < s + n ==> docids_of((#[trigger] a[k]).docids) == docids_of(b[k].docids),
    ensures
        union_of(a, s, n) == union_of(b, s, n),
    decreases n,
{
    if n > 0 {
        lemma_union_same(a, b, s, n - 1);
        assert(docids_of(a[s + n - 1].docids) == docids_of(b[s + n - 1].docids));
    }
}

/// A level that groups `lower` by `g` has `ceil(lower.len() / g)` nodes,
/// all of `g` children but the last.
proof fn lemma_grouped_sizes(upper: Seq<FacetNode>, lower: Seq<FacetNode>, g: int)
    requires
        g >= 1,
        groups_ok(upper, lower),
        shaped_level(upper, g),
    ensures
        upper.len() == 0 <==> lower.len() == 0,
        upper.len() > 0 ==> (upper.len() - 1) * g < lower.len() <= upper.len() * g,
        forall|i: int| 0 <= i < upper.len() - 1 ==> (#[trigger] upper[i]).size == g,
        upper.len() > 0 ==> upper[upper.len() - 1].size == lower.len() - (upper.len() - 1) * g,
{
    let n = upper.len() as int;
    if n > 0 {
        assert(node_ok(upper, lower, n - 1));
        assert(first_child(upper, n - 1) == (n - 1) * g);
        assert(n * g == (n - 1) * g + g) by (nonlinear_arith);
    }
    assert forall|i: int| 0 <= i < n - 1 implies (#[trigger] upper[i]).size == g by {
        assert(first_child(upper, i) == i * g);
        assert(first_child(upper, i + 1) == (i + 1) * g);
        assert((i + 1) * g == i * g + g) by (nonlinear_arith);
    }
}

/// Two levels that group levels holding the same nodes by the same `g`
/// hold the same nodes.
proof fn lemma_level_determined(
    u1: Seq<FacetNode>,
    u2: Seq<FacetNode>,
    l1: Seq<FacetNode>,
    l2: Seq<FacetNode>,
    g: int,
)
    requires
        g >= 1,
        groups_ok(u1, l1),
        groups_ok(u2, l2),
        shaped_level(u1, g),
        shaped_level(u2, g),
        level_view(l1) == level_view(l2),
    ensures
        level_view(u1) == level_view(u2),
{
    lemma_grouped_sizes(u1, l1, g);
    lemma_grouped_sizes(u2, l2, g);
    assert(l1.len() == level_view(l1).len());
    assert(l2.len() == level_view(l2).len());
    let n1 = u1.len() as int;
    let n2 = u2.len() as int;
    if n1 < n2 {
        assert(n1 > 0);
        assert((n2 - 1) * g >= n1 * g) by (nonlinear_arith)
            requires
                n2 - 1 >= n1,
                g >= 1,
        ;
    }
    if n2 < n1 {
        assert(n2 > 0);
        assert((n1 - 1) * g >= n2 * g) by (nonlinear_arith)
            requires
                n1 - 1 >= n2,
                g >= 1,
        ;
    }
    assert(n1 == n2);
    assert forall|i: int| 0 <= i < n1 implies #[trigger] level_view(u1)[i] == level_view(u2)[i] by {
        assert(node_ok(u1, l1, i));
        assert(node_ok(u2, l2, i));
        let f = i * g;
        assert(first_child(u1, i) == f);
        assert(first_child(u2, i) == f);
        if i < n1 - 1 {
            assert(u1[i].size == g);
            assert(u2[i].size == g);
        } else {
            assert(i == n1 - 1);
        }
        assert(u1[i].size == u2[i].size);
        assert(first_child(u1, i + 1) == f + u1[i].size);
        if i + 1 < n1 {
            lemma_first_child_increasing(u1, i + 1, n1);
        }
        assert(f + u1[i].size <= l1.len());
        assert(u1[i].size >= 1);
        assert(f >= 0) by {
            if i > 0 {
                lemma_first_child_increasing(u1, 0, i);
            }
        }
        assert forall|k: int| f <= k < f + u1[i].size implies docids_of((#[trigger] l1[k]).docids) == docids_of(l2[k].docids) by {
            assert(level_view(l1)[k] == level_view(l2)[k]);
        }
        lemma_union_same(l1, l2, f, u1[i].size as int);
        assert(level_view(l1)[f] == level_view(l2)[f]);
    }
    assert(level_view(u1) =~= level_view(u2));
}

proof fn lemma_shaped_level(t: Seq<Seq<FacetNode>>, g: int, l: int)
    requires
        bulk_shaped(t, g),
        1 <= l < t.len(),
    ensures
        shaped_level(t[l], g),
{
    assert(shaped_level(t[l], g));
}

proof fn lemma_levels_agree_up_to(t1: Seq<Seq<FacetNode>>, t2: Seq<Seq<FacetNode>>, c: TreeConfig, l: int)
    requires
        config_ok(c),
        levels_ok(t1, c),
        levels_ok(t2, c),
        bulk_shaped(t1, c.group_size as int),
        bulk_shaped(t2, c.group_size as int),
        level_view(t1[0]) == level_view(t2[0]),
        0 <= l < t1.len(),
        l < t2.len(),
    ensures
        forall|q: int| 0 <= q <= l ==> #[trigger] level_view(t1[q]) == level_view(t2[q]),
    decreases l,
{
    if l > 0 {
        lemma_levels_agree_up_to(t1, t2, c, l - 1);
        let g = c.group_size as int;
        assert(groups_ok(t1[l], t1[l - 1]));
        assert(groups_ok(t2[l], t2[l - 1]));
        lemma_shaped_level(t1, g, l);
        lemma_shaped_level(t2, g, l);
        assert(level_view(t1[l - 1]) == level_view(t2[l - 1]));
        lemma_level_determined(t1[l], t2[l], t1[l - 1], t2[l - 1], g);
    }
}

/// Trees grouped by the same `g` whose leaves hold the same nodes are the
/// same tree: same number of levels, same nodes at every level. Both
/// update paths produce such trees, so they agree whenever they agree on
/// level 0.
pub proof fn lemma_same_leaves_same_tree(t1: Seq<Seq<FacetNode>>, t2: Seq<Seq<FacetNode>>, c: TreeConfig)
    requires
        config_ok(c),
        tree_ok(t1, c),
        tree_ok(t2, c),
        bulk_shaped(t1, c.group_size as int),
        bulk_shaped(t2, c.group_size as int),
        level_view(t1[0]) == level_view(t2[0]),
    ensures
        t1.len() == t2.len(),
        forall|l: int| 0 <= l < t1.len() ==> #[trigger] level_view(t1[l]) == level_view(t2[l]),
{
    let g = c.group_size as int;
    let m = if t1.len() < t2.len() { t1.len() as int } else { t2.len() as int };
    lemma_levels_agree_up_to(t1, t2, c, m - 1);
    assert(level_view(t1[m - 1]) == level_view(t2[m - 1]));
    assert(t1[m - 1].len() == level_view(t1[m - 1]).len());
    assert(t2[m - 1].len() == level_view(t2[m - 1]).len());
    if t1.len() < t2.len() {
        assert(groups_ok(t2[m], t2[m - 1]));
    }
    if t2.len() < t1.len() {
        assert(groups_ok(t1[m], t1[m - 1]));
    }
}

/// `upper` groups `lower` by `g`, except that the documents of node `a`
/// may be stale.
pub open spec fn groups_ok_except(upper: Seq<FacetNode>, lower: Seq<FacetNode>, g: int, a: int) -> bool {
    &&& first_child(upper, upper.len() as int) == lower.len()
    &&& shaped_level(upper, g)
    &&& forall|i: int| 0 <= i < upper.len() && i != a ==> #[trigger] node_ok(upper, lower, i)
    &&& 0 <= a < upper.len()
    &&& upper[a].size >= 1
    &&& upper[a].bound@ == lower[first_child(upper, a)].bound@
}

/// Levels that agree everywhere but in the documents of node `k`.
pub open spec fn same_but_docids(a: Seq<FacetNode>, b: Seq<FacetNode>, k: int) -> bool {
    &&& a.len() == b.len()
    &&& forall|i: int| 0 <= i < a.len() ==> (#[trigger] a[i]).bound@ == b[i].bound@ && a[i].size == b[i].size
    &&& forall|i: int| 0 <= i < a.len() && i != k ==> docids_of((#[trigger] a[i]).docids) == docids_of(b[i].docids)
}

/// When only the documents of node `k` of the level below change, every
/// node but its parent `k / g` stays well formed.
pub proof fn lemma_parent_frame(upper: Seq<FacetNode>, lower: Seq<FacetNode>, lower2: Seq<FacetNode>, g: int, k: int)
    requires
        g >= 1,
        groups_ok(upper, lower),
        shaped_level(upper, g),
        same_but_docids(lower, lower2, k),
        0 <= k < lower.len(),
    ensures
        groups_ok_except(upper, lower2, g, k / g),
{
    let a = k / g;
    lemma_grouped_sizes(upper, lower, g);
    let n = upper.len() as int;
    assert(0 <= a < n) by {
        assert(k / g >= 0) by (nonlinear_arith)
            requires
                k >= 0,
                g >= 1,
        ;
        if a >= n {
            assert(k / g >= n ==> k >= n * g) by (nonlinear_arith)
                requires
                    g >= 1,
                    k >= 0,
            ;
        }
    }
    assert forall|i: int| 0 <= i < n && i != a implies #[trigger] node_ok(upper, lower2, i) by {
        assert(node_ok(upper, lower, i));
        let f = i * g;
        let sz = upper[i].size as int;
        assert(!(f <= k < f + sz)) by {
            if f <= k && k < f + sz {
                assert(k / g == i) by (nonlinear_arith)
                    requires
                        i * g <= k,
                        k < i * g + sz,
                        sz <= g,
                        g >= 1,
                ;
            }
        }
        assert forall|q: int| f <= q < f + sz implies docids_of((#[trigger] lower[q]).docids) == docids_of(lower2[q].docids) by {
            assert(0 <= q < lower.len()) by {
                assert(first_child(upper, i + 1) == f + sz);
                if i + 1 < n {
                    lemma_first_child_increasing(upper, i + 1, n);
                }
                if i > 0 {
                    lemma_first_child_increasing(upper, 0, i);
                }
            }
        }
        lemma_union_same(lower, lower2, f, sz);
        assert(0 <= f < lower.len()) by {
            if i > 0 {
                lemma_first_child_increasing(upper, 0, i);
            }
            lemma_first_child_increasing(upper, i, n);
        }
    }
    assert(node_ok(upper, lower, a));
    assert(0 <= a * g < lower.len()) by {
        if a > 0 {
            lemma_first_child_increasing(upper, 0, a);
        }
        lemma_first_child_increasing(upper, a, n);
    }
}

/// Recomputes the documents of node `a` of `upper` as the union of its
/// children in `lower`.
pub fn refresh_node(upper: &mut Vec<FacetNode>, lower: &Vec<FacetNode>, g: u8, a: usize)
    requires
        g >= 1,
        groups_ok_except(old(upper)@, lower@, g as int, a as int),
    ensures
        groups_ok(final(upper)@, lower@),
        shaped_level(final(upper)@, g as int),
        same_but_docids(old(upper)@, final(upper)@, a as int),
{
    let ghost before = upper@;
    let ghost f = first_child(before, a as int);
    assert(f == a * g);
    assert forall|k: int| 0 <= k < before.len() implies (#[trigger] before[k]).size >= 1 by {
        if k != a {
            assert(node_ok(before, lower@, k));
        }
    }
    proof {
        lemma_first_child_increasing(before, a as int, before.len() as int);
        assert(a * g < lower@.len());
    }
    let gu: usize = g as usize;
    let n_lower: usize = lower.len();
    assert((a as int) * (gu as int) < n_lower);
    let start: usize = a * gu;
    let size: usize = upper[a].size as usize;
    assert(start + size <= lower@.len()) by {
        assert(first_child(before, a + 1) == f + size);
        if a + 1 < before.len() {
            lemma_first_child_increasing(before, a + 1, before.len() as int);
        }
    }
    let mut docids = empty_docids();
    let mut j: usize = 0;
    while j < size
        invariant
            start + size <= lower@.len(),
            lower@.len() == n_lower,
            j <= size,
            docids_of(docids) == union_of(lower@, start as int, j as int),
        decreases size - j,
    {
        union_into(&mut docids, &lower[start + j].docids);
        j = j + 1;
    }
    let old_node = upper.remove(a);
    let node = FacetNode { bound: old_node.bound, size: old_node.size, docids };
    upper.insert(a, node);
    proof {
        assert(upper@ =~= before.update(a as int, node));
        lemma_first_child_update(before, a as int, node, before.len() as int);
        assert forall|i: int| 0 <= i < upper@.len() implies #[trigger] first_child(upper@, i) == i * g && upper@[i].size <= g by {
            lemma_first_child_update(before, a as int, node, i);
            assert(first_child(before, i) == i * g);
        }
        assert forall|i: int| 0 <= i < upper@.len() implies #[trigger] node_ok(upper@, lower@, i) by {
            lemma_first_child_update(before, a as int, node, i);
            if i != a {
                assert(node_ok(before, lower@, i));
            }
        }
    }
}

proof fn lemma_first_child_update(s: Seq<FacetNode>, a: int, x: FacetNode, k: int)
    requires
        0 <= a < s.len(),
        x.size == s[a].size,
        0 <= k <= s.len(),
    ensures
        first_child(s.update(a, x), k) == first_child(s, k),
    decreases k,
{
    if k > 0 {
        lemma_first_child_update(s, a, x, k - 1);
    }
}

} // verus!
