//! Updating one field's tree from a batch of leaf deltas, by the bulk path
//! or the incremental path, and the policy that picks between them.

use crate::docids::docids_of;
use crate::leaves::{
    apply_leaf_delta, count_below, entries, entries_after, is_position, lemma_count_below,
    lemma_count_prefix,
};
use crate::order::{bytes_lt, lemma_bytes_lt_irreflexive, lemma_bytes_lt_transitive};
use crate::tree::{
    build_levels, bulk_shaped, config_ok, groups_ok, lemma_parent_frame, lemma_same_leaves_same_tree,
    leaves_ok, level_view, levels_ok, refresh_node, same_but_docids, shaped_level, sorted_level,
    tree_ok, FacetNode, FacetTree, TreeConfig,
};
use roaring::RoaringBitmap;
use vstd::prelude::*;

verus! {

/// The two ways of bringing a tree up to date.
#[derive(Clone, Copy, Debug, PartialEq, Eq, Structural)]
pub enum UpdateMethod {
    Bulk,
    Incremental,
}

/// The bulk path is chosen when the field is empty or when the batch is
/// large against what is stored: `n_delta * 50 >= n_existing + n_delta`.
pub open spec fn bulk_chosen(n_existing: int, n_delta: int) -> bool {
    n_existing == 0 || n_delta * 50 >= n_existing + n_delta
}

/// Picks the update path for a field holding `n_existing` leaves and a
/// batch touching `n_delta` distinct leaves.
pub fn choose_update_method(n_existing: u64, n_delta: u64) -> (m: UpdateMethod)
    ensures
        m == (if bulk_chosen(n_existing as int, n_delta as int) {
            UpdateMethod::Bulk
        } else {
            UpdateMethod::Incremental
        }),
{
    let scaled: u128 = n_delta as u128 * 50;
    let total: u128 = n_existing as u128 + n_delta as u128;
    if n_existing == 0 || scaled >= total {
        UpdateMethod::Bulk
    } else {
        UpdateMethod::Incremental
    }
}

/// A change to the leaf of one value: ids to delete, then ids to add.
pub struct LeafDelta {
    pub bound: Vec<u8>,
    pub del: RoaringBitmap,
    pub add: RoaringBitmap,
}

impl LeafDelta {
    pub open spec fn view(&self) -> (Seq<u8>, Set<u32>, Set<u32>) {
        (self.bound@, docids_of(self.del), docids_of(self.add))
    }
}

/// Level 0 after one delta, stated over its entries alone.
pub open spec fn apply_delta(
    e: Seq<(Seq<u8>, Set<u32>)>,
    d: (Seq<u8>, Set<u32>, Set<u32>),
) -> Seq<(Seq<u8>, Set<u32>)> {
    let p = count_below(e, d.0);
    if p < e.len() && e[p].0 == d.0 {
        let s = e[p].1.difference(d.1).union(d.2);
        if s == Set::<u32>::empty() {
            e.remove(p)
        } else {
            e.update(p, (d.0, s))
        }
    } else if d.2 == Set::<u32>::empty() {
        e
    } else {
        e.insert(p, (d.0, d.2))
    }
}

/// Level 0 after the deltas, applied in order.
pub open spec fn apply_deltas(
    e: Seq<(Seq<u8>, Set<u32>)>,
    ds: Seq<(Seq<u8>, Set<u32>, Set<u32>)>,
) -> Seq<(Seq<u8>, Set<u32>)>
    decreases ds.len(),
{
    if ds.len() == 0 {
        e
    } else {
        apply_delta(apply_deltas(e, ds.drop_last()), ds.last())
    }
}

/// The views of a batch of deltas.
pub open spec fn deltas_view(ds: Seq<LeafDelta>) -> Seq<(Seq<u8>, Set<u32>, Set<u32>)> {
    ds.map_values(|d: LeafDelta| d@)
}

/// One delta applied to a well-formed level 0 gives what `apply_delta` states.
proof fn lemma_apply_leaf_delta_matches(
    level: Seq<FacetNode>,
    after: Seq<FacetNode>,
    d: (Seq<u8>, Set<u32>, Set<u32>),
    p: int,
)
    requires
        leaves_ok(level),
        is_position(level, d.0, p),
        entries(after) == entries_after(level, d.0, p, d.1, d.2),
    ensures
        entries(after) == apply_delta(entries(level), d),
{
    lemma_count_below(level, d.0, p);
}

impl FacetTree {
    /// A tree with no value: level 0 only, and empty.
    pub fn new_empty() -> (t: FacetTree)
        ensures
            t.view_levels() == seq![Seq::<FacetNode>::empty()],
    {
        let mut levels: Vec<Vec<FacetNode>> = Vec::new();
        levels.push(Vec::new());
        let t = FacetTree { levels };
        assert(t.view_levels() =~= seq![Seq::<FacetNode>::empty()]);
        t
    }

    /// The number of leaves.
    pub fn leaf_count(&self) -> (n: usize)
        requires
            self.view_levels().len() >= 1,
        ensures
            n == self.view_levels()[0].len(),
    {
        self.levels[0].len()
    }

    /// Takes level 0 out, leaving the tree empty.
    fn take_leaves(&mut self) -> (leaves: Vec<FacetNode>)
        requires
            old(self).view_levels().len() >= 1,
        ensures
            leaves@ == old(self).view_levels()[0],
    {
        let mut levels: Vec<Vec<FacetNode>> = Vec::new();
        std::mem::swap(&mut levels, &mut self.levels);
        let ghost all = levels@;
        let mut leaves: Vec<FacetNode> = Vec::new();
        let mut first = levels;
        first.truncate(1);
        assert(first@.len() == 1);
        let mut one = first;
        std::mem::swap(&mut leaves, &mut one[0]);
        assert(leaves@ == all[0]@);
        leaves
    }

    /// Bulk path: drops the levels above 0, applies the deltas to level 0 in
    /// order, then rebuilds every level above it by groups of `group_size`.
    pub fn bulk_update(&mut self, deltas: &Vec<LeafDelta>, c: TreeConfig)
        requires
            config_ok(c),
            tree_ok(old(self).view_levels(), c),
        ensures
            tree_ok(final(self).view_levels(), c),
            bulk_shaped(final(self).view_levels(), c.group_size as int),
            entries(final(self).view_levels()[0]) == apply_deltas(
                entries(old(self).view_levels()[0]),
                deltas_view(deltas@),
            ),
    {
        let mut leaves = self.take_leaves();
        let ghost start = entries(leaves@);
        let mut i: usize = 0;
        while i < deltas.len()
            invariant
                i <= deltas.len(),
                leaves_ok(leaves@),
                entries(leaves@) == apply_deltas(start, deltas_view(deltas@.subrange(0, i as int))),
            decreases deltas.len() - i,
        {
            let ghost level = leaves@;
            let d = &deltas[i];
            let p = apply_leaf_delta(&mut leaves, &d.bound, &d.del, &d.add);
            proof {
                lemma_apply_leaf_delta_matches(level, leaves@, d@, p as int);
                let ds = deltas_view(deltas@.subrange(0, i + 1));
                assert(ds.drop_last() =~= deltas_view(deltas@.subrange(0, i as int)));
                assert(ds.last() == d@);
            }
            i = i + 1;
        }
        assert(deltas@.subrange(0, deltas.len() as int) =~= deltas@);
        *self = build_levels(leaves, c);
    }

    /// Incremental path for one delta: changes the value's leaf in place.
    /// When the leaf neither appears nor disappears, only its ancestors,
    /// one per level, have their documents recomputed; otherwise the
    /// levels above 0 are regrouped.
    pub fn incremental_update(&mut self, delta: &LeafDelta, c: TreeConfig)
        requires
            config_ok(c),
            tree_ok(old(self).view_levels(), c),
            bulk_shaped(old(self).view_levels(), c.group_size as int),
        ensures
            tree_ok(final(self).view_levels(), c),
            bulk_shaped(final(self).view_levels(), c.group_size as int),
            entries(final(self).view_levels()[0]) == apply_delta(
                entries(old(self).view_levels()[0]),
                delta@,
            ),
    {
        let ghost t0 = self.view_levels();
        let g = c.group_size;
        let mut levels: Vec<Vec<FacetNode>> = Vec::new();
        std::mem::swap(&mut levels, &mut self.levels);
        assert(levels@.len() == t0.len());
        let mut leaves: Vec<FacetNode> = Vec::new();
        std::mem::swap(&mut leaves, &mut levels[0]);
        assert(leaves@ == t0[0]);
        let n0 = leaves.len();
        let p = apply_leaf_delta(&mut leaves, &delta.bound, &delta.del, &delta.add);
        proof {
            lemma_apply_leaf_delta_matches(t0[0], leaves@, delta@, p as int);
        }
        if leaves.len() != n0 || p >= n0 {
            *self = build_levels(leaves, c);
            return;
        }
        proof {
            let e0 = entries(t0[0]);
            let e1 = entries(leaves@);
            assert(e0.len() == t0[0].len() && e1.len() == leaves@.len());
            assert forall|i: int| 0 <= i < leaves@.len() implies (#[trigger] leaves@[i]).bound@ == t0[0][i].bound@
                && leaves@[i].size == t0[0][i].size && (i != p ==> docids_of(leaves@[i].docids) == docids_of(t0[0][i].docids)) by {
                assert(e1[i].0 == leaves@[i].bound@ && e0[i].0 == t0[0][i].bound@);
                assert(e1[i].1 == docids_of(leaves@[i].docids) && e0[i].1 == docids_of(t0[0][i].docids));
                assert(leaves@[i].size == 0 && t0[0][i].size == 0);
            }
            assert(same_but_docids(t0[0], leaves@, p as int));
        }
        std::mem::swap(&mut leaves, &mut levels[0]);
        let ghost fixed0 = levels@[0]@;
        let mut k: usize = p;
        let mut l: usize = 1;
        while l < levels.len()
            invariant
                config_ok(c),
                g == c.group_size,
                tree_ok(t0, c),
                bulk_shaped(t0, g as int),
                levels@.len() == t0.len(),
                1 <= l <= levels@.len(),
                levels@[0]@ == fixed0,
                forall|q: int| l <= q < t0.len() ==> (#[trigger] levels@[q])@ == t0[q],
                k < t0[l - 1].len(),
                same_but_docids(t0[l - 1], levels@[l - 1]@, k as int),
                leaves_ok(fixed0),
                forall|q: int| 1 <= q < l ==> {
                    &&& groups_ok(#[trigger] levels@[q]@, levels@[q - 1]@)
                    &&& shaped_level(levels@[q]@, g as int)
                    &&& exists|a: int| #[trigger] same_but_docids(t0[q], levels@[q]@, a)
                },
            decreases levels.len() - l,
        {
            let mut upper: Vec<FacetNode> = Vec::new();
            std::mem::swap(&mut upper, &mut levels[l]);
            assert(upper@ == t0[l as int]);
            proof {
                assert(groups_ok(t0[l as int], t0[l - 1]));
                assert(shaped_level(t0[l as int], g as int));
                lemma_parent_frame(t0[l as int], t0[l - 1], levels@[l - 1]@, g as int, k as int);
            }
            let a = k / (g as usize);
            refresh_node(&mut upper, &levels[l - 1], g, a);
            std::mem::swap(&mut upper, &mut levels[l]);
            proof {
                assert(same_but_docids(t0[l as int], levels@[l as int]@, a as int));
            }
            k = a;
            l = l + 1;
        }
        proof {
            let t = Seq::new(levels@.len(), |q: int| levels@[q]@);
            assert(t[0] == fixed0);
            assert forall|q: int| 1 <= q < t.len() implies {
                &&& groups_ok(#[trigger] t[q], t[q - 1])
                &&& sorted_level(t[q])
                &&& t[q - 1].len() >= c.min_level_size
                &&& forall|i: int| 0 <= i < t[q].len() ==> (#[trigger] t[q][i]).size <= c.max_group_size
            } by {
                assert(groups_ok(t0[q], t0[q - 1]));
                assert(sorted_level(t0[q]));
                let a = choose|a: int| #[trigger] same_but_docids(t0[q], levels@[q]@, a);
                assert(same_but_docids(t0[q], t[q], a));
                assert forall|i: int, j: int| 0 <= i < j < t[q].len() implies #[trigger] bytes_lt(t[q][i].bound@, t[q][j].bound@) by {
                    assert(bytes_lt(t0[q][i].bound@, t0[q][j].bound@));
                }
                assert forall|i: int| 0 <= i < t[q].len() implies (#[trigger] t[q][i]).size <= c.max_group_size by {
                    assert(t0[q][i].size <= c.max_group_size);
                }
                if q - 1 == 0 {
                    assert(t[0].len() == t0[0].len());
                } else {
                    let b = choose|b: int| #[trigger] same_but_docids(t0[q - 1], levels@[q - 1]@, b);
                    assert(same_but_docids(t0[q - 1], t[q - 1], b));
                }
            }
            assert(levels_ok(t, c));
            let top = t.len() - 1;
            if top == 0 {
                assert(t[0].len() == t0[0].len());
            } else {
                let b = choose|b: int| #[trigger] same_but_docids(t0[top], levels@[top]@, b);
                assert(same_but_docids(t0[top], t[top], b));
            }
            assert forall|q: int| 1 <= q < t.len() implies #[trigger] shaped_level(t[q], g as int) by {}
        }
        self.levels = levels;
        assert(self.view_levels() =~= Seq::new(self.levels@.len(), |q: int| self.levels@[q]@));
    }

    /// Applies a batch of deltas that touch distinct values, by the path
    /// that `choose_update_method` picks.
    pub fn update(&mut self, deltas: &Vec<LeafDelta>, c: TreeConfig)
        requires
            config_ok(c),
            tree_ok(old(self).view_levels(), c),
            bulk_shaped(old(self).view_levels(), c.group_size as int),
        ensures
            tree_ok(final(self).view_levels(), c),
            bulk_shaped(final(self).view_levels(), c.group_size as int),
            entries(final(self).view_levels()[0]) == apply_deltas(
                entries(old(self).view_levels()[0]),
                deltas_view(deltas@),
            ),
    {
        let n = self.leaf_count();
        let m = choose_update_method(n as u64, deltas.len() as u64);
        match m {
            UpdateMethod::Bulk => self.bulk_update(deltas, c),
            UpdateMethod::Incremental => {
                let ghost start = entries(self.view_levels()[0]);
                let mut i: usize = 0;
                while i < deltas.len()
                    invariant
                        config_ok(c),
                        i <= deltas.len(),
                        tree_ok(self.view_levels(), c),
                        bulk_shaped(self.view_levels(), c.group_size as int),
                        entries(self.view_levels()[0]) == apply_deltas(
                            start,
                            deltas_view(deltas@.subrange(0, i as int)),
                        ),
                    decreases deltas.len() - i,
                {
                    self.incremental_update(&deltas[i], c);
                    proof {
                        let ds = deltas_view(deltas@.subrange(0, i + 1));
                        assert(ds.drop_last() =~= deltas_view(deltas@.subrange(0, i as int)));
                        assert(ds.last() == deltas@[i as int]@);
                    }
                    i = i + 1;
                }
                assert(deltas@.subrange(0, deltas.len() as int) =~= deltas@);
            },
        }
    }
}

/// Entries whose bounds strictly increase.
pub open spec fn entries_sorted(e: Seq<(Seq<u8>, Set<u32>)>) -> bool {
    forall|i: int, j: int| 0 <= i < j < e.len() ==> #[trigger] bytes_lt(e[i].0, e[j].0)
}

/// In sorted entries the bounds below `b` are exactly the first
/// `count_below(e, b)` ones.
pub proof fn lemma_count_below_split(e: Seq<(Seq<u8>, Set<u32>)>, b: Seq<u8>)
    requires
        entries_sorted(e),
    ensures
        0 <= count_below(e, b) <= e.len(),
        forall|k: int| 0 <= k < e.len() ==> (bytes_lt(#[trigger] e[k].0, b) <==> k < count_below(e, b)),
    decreases e.len(),
{
    if e.len() > 0 {
        let d = e.drop_last();
        assert forall|i: int, j: int| 0 <= i < j < d.len() implies #[trigger] bytes_lt(d[i].0, d[j].0) by {
            assert(bytes_lt(e[i].0, e[j].0));
        }
        lemma_count_below_split(d, b);
        let n = e.len() - 1;
        if bytes_lt(e[n].0, b) {
            assert forall|k: int| 0 <= k < n implies bytes_lt(#[trigger] d[k].0, b) by {
                assert(bytes_lt(e[k].0, e[n].0));
                lemma_bytes_lt_transitive(e[k].0, e[n].0, b);
            }
            if count_below(d, b) < n {
                let c = count_below(d, b);
                assert(bytes_lt(d[c].0, b));
            }
        }
        assert forall|k: int| 0 <= k < e.len() implies (bytes_lt(#[trigger] e[k].0, b) <==> k < count_below(e, b)) by {
            if k < n {
                assert(e[k] == d[k]);
            }
        }
    }
}

/// Adding a document to a value's leaf, then deleting it, gives back
/// level 0 as it was, when the document was not in that leaf.
pub proof fn lemma_add_then_delete_restores(e: Seq<(Seq<u8>, Set<u32>)>, v: Seq<u8>, d: u32)
    requires
        entries_sorted(e),
        forall|k: int| 0 <= k < e.len() ==> (#[trigger] e[k]).1 != Set::<u32>::empty(),
        forall|k: int| 0 <= k < e.len() && (#[trigger] e[k]).0 == v ==> !e[k].1.contains(d),
    ensures
        apply_delta(
            apply_delta(e, (v, Set::<u32>::empty(), set![d])),
            (v, set![d], Set::<u32>::empty()),
        ) == e,
{
    let none = Set::<u32>::empty();
    let one = set![d];
    lemma_count_below_split(e, v);
    let p = count_below(e, v);
    lemma_bytes_lt_irreflexive(v);
    if p < e.len() && e[p].0 == v {
        let s = e[p].1;
        let s1 = s.difference(none).union(one);
        assert(s1.contains(d));
        assert(s1 != none);
        let e1 = e.update(p, (v, s1));
        assert(apply_delta(e, (v, none, one)) == e1);
        assert forall|k: int| 0 <= k < e1.len() implies (bytes_lt(#[trigger] e1[k].0, v) <==> k < p) by {
            assert(e1[k].0 == e[k].0);
        }
        lemma_count_prefix(e1, v, p);
        assert(s1.difference(one).union(none) =~= s);
        assert(e1.update(p, (v, s)) =~= e);
    } else {
        let e1 = e.insert(p, (v, one));
        assert(one != none) by {
            assert(one.contains(d));
        }
        assert(apply_delta(e, (v, none, one)) == e1);
        assert forall|k: int| 0 <= k < e1.len() implies (bytes_lt(#[trigger] e1[k].0, v) <==> k < p) by {
            if k < p {
                assert(e1[k] == e[k]);
            } else if k > p {
                assert(e1[k] == e[k - 1]);
            }
        }
        lemma_count_prefix(e1, v, p);
        assert(e1[p].1.difference(one).union(none) =~= none);
        assert(e1.remove(p) =~= e);
    }
}

/// A level 0 of leaves is given by its entries: sizes are all 0.
pub proof fn lemma_leaves_view(a: Seq<FacetNode>, b: Seq<FacetNode>)
    requires
        leaves_ok(a),
        leaves_ok(b),
        entries(a) == entries(b),
    ensures
        level_view(a) == level_view(b),
{
    assert(a.len() == entries(a).len());
    assert(b.len() == entries(b).len());
    assert forall|i: int| 0 <= i < a.len() implies #[trigger] level_view(a)[i] == level_view(b)[i] by {
        assert(entries(a)[i] == entries(b)[i]);
        assert(a[i].size == 0 && b[i].size == 0);
    }
    assert(level_view(a) =~= level_view(b));
}

/// Adding a document to a value and deleting it again, by the update
/// paths, gives back the same tree, node for node at every level, when
/// the tree was built by them and the document was not in that value's
/// leaf.
pub proof fn lemma_add_then_delete_restores_tree(
    t0: Seq<Seq<FacetNode>>,
    t1: Seq<Seq<FacetNode>>,
    t2: Seq<Seq<FacetNode>>,
    c: TreeConfig,
    v: Seq<u8>,
    d: u32,
)
    requires
        config_ok(c),
        tree_ok(t0, c),
        bulk_shaped(t0, c.group_size as int),
        forall|k: int| 0 <= k < t0[0].len() && (#[trigger] t0[0][k]).bound@ == v ==> !docids_of(t0[0][k].docids).contains(d),
        tree_ok(t1, c),
        entries(t1[0]) == apply_delta(entries(t0[0]), (v, Set::<u32>::empty(), set![d])),
        tree_ok(t2, c),
        bulk_shaped(t2, c.group_size as int),
        entries(t2[0]) == apply_delta(entries(t1[0]), (v, set![d], Set::<u32>::empty())),
    ensures
        t2.len() == t0.len(),
        forall|l: int| 0 <= l < t0.len() ==> #[trigger] level_view(t2[l]) == level_view(t0[l]),
{
    let e = entries(t0[0]);
    assert(t0[0].len() == e.len());
    assert forall|i: int, j: int| 0 <= i < j < e.len() implies #[trigger] bytes_lt(e[i].0, e[j].0) by {
        assert(bytes_lt(t0[0][i].bound@, t0[0][j].bound@));
    }
    assert forall|k: int| 0 <= k < e.len() implies (#[trigger] e[k]).1 != Set::<u32>::empty() by {
        assert(t0[0][k].size == 0);
    }
    assert forall|k: int| 0 <= k < e.len() && (#[trigger] e[k]).0 == v implies !e[k].1.contains(d) by {
        assert(t0[0][k].bound@ == v);
    }
    lemma_add_then_delete_restores(e, v, d);
    lemma_leaves_view(t2[0], t0[0]);
    lemma_same_leaves_same_tree(t2, t0, c);
}

} // verus!
