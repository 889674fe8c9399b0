//! A facet index: one tree per field for each value type, the normalized
//! mirror of the string values and one prefix set per string field, and
//! the batch update that keeps them current.

use crate::codec::MAX_FACET_VALUE_LENGTH;
use crate::error::FacetError;
use crate::leaves::entries;
use crate::mirror::{
    build_mirror, field_norms, fst_set_bytes, pairs_view, prefix_set_of_field, NormalizedMirror,
};
use crate::sorted::{bytes_seq, strictly_sorted};
use crate::tree::{
    bulk_shaped, config_ok, tree_ok, FacetNode, FacetTree, TreeConfig, FACET_GROUP_SIZE, FACET_MAX_GROUP_SIZE,
    FACET_MIN_LEVEL_SIZE,
};
use crate::update::{apply_deltas, deltas_view, LeafDelta};
use vstd::prelude::*;

verus! {

/// The value type of a field, which selects its database.
#[derive(Clone, Copy, Debug, PartialEq, Eq, Structural)]
pub enum FacetType {
    String,
    Number,
}

/// The tree of one field.
pub struct FieldTree {
    pub fid: u16,
    pub tree: FacetTree,
}

/// The deltas of one field in a batch, sorted by value.
pub struct FieldDeltas {
    pub fid: u16,
    pub deltas: Vec<LeafDelta>,
}

/// Every tree is well formed and no two trees share a field id.
pub open spec fn fields_ok(fs: Seq<FieldTree>, c: TreeConfig) -> bool {
    &&& forall|k: int| 0 <= k < fs.len() ==> tree_ok((#[trigger] fs[k]).tree.view_levels(), c)
        && bulk_shaped(fs[k].tree.view_levels(), c.group_size as int)
    &&& forall|k: int, l: int| 0 <= k < l < fs.len() ==> (#[trigger] fs[k]).fid != (#[trigger] fs[l]).fid
}

/// What level 0 of field `fid` holds: nothing when the field has no tree.
pub open spec fn field_entries(fs: Seq<FieldTree>, fid: u16) -> Seq<(Seq<u8>, Set<u32>)> {
    if exists|k: int| 0 <= k < fs.len() && (#[trigger] fs[k]).fid == fid {
        let k = choose|k: int| 0 <= k < fs.len() && (#[trigger] fs[k]).fid == fid;
        entries(fs[k].tree.view_levels()[0])
    } else {
        Seq::empty()
    }
}

proof fn lemma_field_entries_at(fs: Seq<FieldTree>, c: TreeConfig, k: int)
    requires
        fields_ok(fs, c),
        0 <= k < fs.len(),
    ensures
        field_entries(fs, fs[k].fid) == entries(fs[k].tree.view_levels()[0]),
{
    let fid = fs[k].fid;
    assert(fs[k].fid == fid);
    let q = choose|q: int| 0 <= q < fs.len() && (#[trigger] fs[q]).fid == fid;
    if q != k {
        if q < k {
            assert(fs[q].fid != fs[k].fid);
        } else {
            assert(fs[k].fid != fs[q].fid);
        }
    }
}

proof fn lemma_field_entries_absent(fs: Seq<FieldTree>, fid: u16)
    requires
        forall|k: int| 0 <= k < fs.len() ==> (#[trigger] fs[k]).fid != fid,
    ensures
        field_entries(fs, fid) == Seq::<(Seq<u8>, Set<u32>)>::empty(),
{
}

/// The tree configuration used by default.
pub open spec fn default_config() -> TreeConfig {
    TreeConfig {
        group_size: FACET_GROUP_SIZE,
        min_level_size: FACET_MIN_LEVEL_SIZE,
        max_group_size: FACET_MAX_GROUP_SIZE,
    }
}

/// Brings the tree of `fid` up to date with `deltas`, creating it when the
/// field had none.
pub fn update_field(fields: &mut Vec<FieldTree>, fid: u16, deltas: &Vec<LeafDelta>, c: TreeConfig)
    requires
        config_ok(c),
        fields_ok(old(fields)@, c),
    ensures
        fields_ok(final(fields)@, c),
        field_entries(final(fields)@, fid) == apply_deltas(
            field_entries(old(fields)@, fid),
            deltas_view(deltas@),
        ),
        forall|f: u16| f != fid ==> #[trigger] field_entries(final(fields)@, f) == field_entries(old(fields)@, f),
{
    let ghost before = fields@;
    let mut k: usize = 0;
    while k < fields.len() && fields[k].fid != fid
        invariant
            k <= fields@.len(),
            forall|q: int| 0 <= q < k ==> (#[trigger] fields@[q]).fid != fid,
        decreases fields.len() - k,
    {
        k = k + 1;
    }
    if k == fields.len() {
        let tree = FacetTree::new_empty();
        assert(tree_ok(tree.view_levels(), c));
        assert(bulk_shaped(tree.view_levels(), c.group_size as int));
        proof {
            lemma_field_entries_absent(before, fid);
        }
        fields.push(FieldTree { fid, tree });
        proof {
            assert(fields@ =~= before.push(fields@[k as int]));
            assert forall|f: u16| f != fid implies #[trigger] field_entries(fields@, f) == field_entries(before, f) by {
                if exists|q: int| 0 <= q < before.len() && (#[trigger] before[q]).fid == f {
                    let q = choose|q: int| 0 <= q < before.len() && (#[trigger] before[q]).fid == f;
                    lemma_field_entries_at(before, c, q);
                    assert(fields@[q] == before[q]);
                    lemma_field_entries_at(fields@, c, q);
                } else {
                    assert forall|q: int| 0 <= q < fields@.len() implies (#[trigger] fields@[q]).fid != f by {
                        if q < before.len() {
                            assert(fields@[q] == before[q]);
                        }
                    }
                }
            }
            lemma_field_entries_at(fields@, c, k as int);
            assert(fields@[k as int].tree.view_levels()[0] == Seq::<FacetNode>::empty());
            assert(entries(fields@[k as int].tree.view_levels()[0]) =~= Seq::<(Seq<u8>, Set<u32>)>::empty());
        }
    } else {
        proof {
            lemma_field_entries_at(before, c, k as int);
        }
    }
    let ghost mid = fields@;
    let mut ft = fields.remove(k);
    ft.tree.update(deltas, c);
    fields.insert(k, ft);
    proof {
        assert(fields@ =~= mid.update(k as int, fields@[k as int]));
        assert forall|a: int, b: int| 0 <= a < b < fields@.len() implies (#[trigger] fields@[a]).fid != (#[trigger] fields@[b]).fid by {
            assert(fields@[a].fid == mid[a].fid);
            assert(fields@[b].fid == mid[b].fid);
        }
        assert forall|q: int| 0 <= q < fields@.len() implies tree_ok((#[trigger] fields@[q]).tree.view_levels(), c)
            && bulk_shaped(fields@[q].tree.view_levels(), c.group_size as int) by {
            if q != k {
                assert(fields@[q] == mid[q]);
            }
        }
        lemma_field_entries_at(mid, c, k as int);
        lemma_field_entries_at(fields@, c, k as int);
        assert forall|f: u16| f != fid implies #[trigger] field_entries(fields@, f) == field_entries(mid, f) by {
            if exists|q: int| 0 <= q < mid.len() && (#[trigger] mid[q]).fid == f {
                let q = choose|q: int| 0 <= q < mid.len() && (#[trigger] mid[q]).fid == f;
                assert(q != k);
                lemma_field_entries_at(mid, c, q);
                assert(fields@[q] == mid[q]);
                lemma_field_entries_at(fields@, c, q);
            } else {
                assert forall|q: int| 0 <= q < fields@.len() implies (#[trigger] fields@[q]).fid != f by {
                    assert(fields@[q].fid == mid[q].fid);
                }
            }
        }
    }
}

/// Applies a batch to the trees of one value type, field by field.
pub fn apply_batch(fields: &mut Vec<FieldTree>, batch: &Vec<FieldDeltas>, c: TreeConfig)
    requires
        config_ok(c),
        fields_ok(old(fields)@, c),
        forall|a: int, b: int| 0 <= a < b < batch@.len() ==> (#[trigger] batch@[a]).fid != (#[trigger] batch@[b]).fid,
    ensures
        fields_ok(final(fields)@, c),
        forall|i: int| 0 <= i < batch@.len() ==> #[trigger] field_entries(final(fields)@, batch@[i].fid) == apply_deltas(
            field_entries(old(fields)@, batch@[i].fid),
            deltas_view(batch@[i].deltas@),
        ),
        forall|f: u16| (forall|i: int| 0 <= i < batch@.len() ==> (#[trigger] batch@[i]).fid != f) ==> #[trigger] field_entries(final(fields)@, f) == field_entries(old(fields)@, f),
{
    let ghost start = fields@;
    let mut i: usize = 0;
    while i < batch.len()
        invariant
            config_ok(c),
            i <= batch@.len(),
            fields_ok(fields@, c),
            forall|a: int, b: int| 0 <= a < b < batch@.len() ==> (#[trigger] batch@[a]).fid != (#[trigger] batch@[b]).fid,
            forall|q: int| 0 <= q < i ==> #[trigger] field_entries(fields@, batch@[q].fid) == apply_deltas(
                field_entries(start, batch@[q].fid),
                deltas_view(batch@[q].deltas@),
            ),
            forall|f: u16| (forall|q: int| 0 <= q < i ==> (#[trigger] batch@[q]).fid != f) ==> #[trigger] field_entries(fields@, f) == field_entries(start, f),
        decreases batch.len() - i,
    {
        let ghost before = fields@;
        let b = &batch[i];
        update_field(fields, b.fid, &b.deltas, c);
        proof {
            assert forall|q: int| 0 <= q < i implies batch@[q].fid != b.fid by {
                assert(batch@[q].fid != batch@[i as int].fid);
            }
            assert(field_entries(before, b.fid) == field_entries(start, b.fid));
            assert forall|q: int| 0 <= q < i + 1 implies #[trigger] field_entries(fields@, batch@[q].fid) == apply_deltas(
                field_entries(start, batch@[q].fid),
                deltas_view(batch@[q].deltas@),
            ) by {
                if q < i {
                    assert(batch@[q].fid != b.fid);
                }
            }
            assert forall|f: u16| (forall|q: int| 0 <= q < i + 1 ==> (#[trigger] batch@[q]).fid != f) implies #[trigger] field_entries(fields@, f) == field_entries(start, f) by {
                assert(batch@[i as int].fid != f);
            }
        }
        i = i + 1;
    }
}

/// The `(field id, value)` pairs of the leaves of the first `n` trees, in
/// order.
pub open spec fn leaf_values(fs: Seq<FieldTree>, n: int) -> Seq<(u16, Seq<u8>)>
    decreases n,
{
    if n <= 0 {
        Seq::empty()
    } else {
        leaf_values(fs, n - 1) + fs[n - 1].tree.view_levels()[0].map_values(
            |x: FacetNode| (fs[n - 1].fid, x.bound@),
        )
    }
}

/// Lists the `(field id, value)` pair of every leaf.
pub fn collect_leaf_values(fields: &Vec<FieldTree>) -> (vals: Vec<(u16, Vec<u8>)>)
    requires
        forall|k: int| 0 <= k < fields@.len() ==> (#[trigger] fields@[k]).tree.view_levels().len() >= 1,
    ensures
        pairs_view(vals@) == leaf_values(fields@, fields@.len() as int),
{
    let mut vals: Vec<(u16, Vec<u8>)> = Vec::new();
    let mut k: usize = 0;
    while k < fields.len()
        invariant
            k <= fields@.len(),
            forall|q: int| 0 <= q < fields@.len() ==> (#[trigger] fields@[q]).tree.view_levels().len() >= 1,
            pairs_view(vals@) == leaf_values(fields@, k as int),
        decreases fields.len() - k,
    {
        let fid = fields[k].fid;
        let leaves = &fields[k].tree.levels[0];
        assert(leaves@ == fields@[k as int].tree.view_levels()[0]);
        let ghost base = pairs_view(vals@);
        let mut i: usize = 0;
        while i < leaves.len()
            invariant
                i <= leaves@.len(),
                pairs_view(vals@) == base + leaves@.subrange(0, i as int).map_values(
                    |x: FacetNode| (fid, x.bound@),
                ),
            decreases leaves.len() - i,
        {
            let ghost old_vals = vals@;
            let ghost e0 = leaves@.subrange(0, i as int).map_values(|x: FacetNode| (fid, x.bound@));
            let b = leaves[i].bound.clone();
            vals.push((fid, b));
            proof {
                let e1 = leaves@.subrange(0, i + 1).map_values(|x: FacetNode| (fid, x.bound@));
                assert(e1 =~= e0.push((fid, leaves@[i as int].bound@)));
                assert(pairs_view(vals@) =~= pairs_view(old_vals).push((fid, b@)));
                assert(pairs_view(vals@) =~= base + e1);
            }
            i = i + 1;
        }
        assert(leaves@.subrange(0, leaves@.len() as int) =~= leaves@);
        k = k + 1;
    }
    vals
}

/// The facet databases of an index.
pub struct FacetIndex {
    /// One tree per string field.
    pub string_docids: Vec<FieldTree>,
    /// One tree per number field.
    pub f64_docids: Vec<FieldTree>,
    /// Normalized string values and their originals.
    pub mirror: NormalizedMirror,
    /// One serialized prefix set per string field, in the order of
    /// `string_docids`.
    pub prefix_sets: Vec<(u16, Vec<u8>)>,
}

impl FacetIndex {
    /// Both families of trees are well formed.
    pub open spec fn wf(&self, c: TreeConfig) -> bool {
        &&& fields_ok(self.string_docids@, c)
        &&& fields_ok(self.f64_docids@, c)
    }

    /// The mirror and prefix sets are those of the current string trees.
    pub open spec fn mirror_current(&self) -> bool {
        let vals = leaf_values(self.string_docids@, self.string_docids@.len() as int);
        &&& self.mirror.holds(vals, vals.len() as int, MAX_FACET_VALUE_LENGTH as int)
        &&& self.prefix_sets@.len() == self.string_docids@.len()
        &&& forall|i: int| 0 <= i < self.prefix_sets@.len() ==> {
            &&& (#[trigger] self.prefix_sets@[i]).0 == self.string_docids@[i].fid
            &&& self.prefix_sets@[i].1@ == fst_set_bytes(
                field_norms(
                    bytes_seq(self.mirror.keys@),
                    self.string_docids@[i].fid,
                    self.mirror.keys@.len() as int,
                ),
            )
        }
    }

    /// An index with no field.
    pub fn new() -> (r: FacetIndex)
        ensures
            r.wf(default_config()),
            r.string_docids@.len() == 0,
            r.f64_docids@.len() == 0,
            r.mirror.keys@.len() == 0,
            r.prefix_sets@.len() == 0,
    {
        FacetIndex {
            string_docids: Vec::new(),
            f64_docids: Vec::new(),
            mirror: NormalizedMirror { keys: Vec::new(), originals: Vec::new() },
            prefix_sets: Vec::new(),
        }
    }

    /// Rebuilds the mirror and the prefix sets from the string trees.
    pub fn rebuild_mirror(&mut self) -> (r: Result<(), FacetError>)
        requires
            forall|k: int| 0 <= k < old(self).string_docids@.len() ==> (#[trigger] old(self).string_docids@[k]).tree.view_levels().len() >= 1,
        ensures
            final(self).string_docids == old(self).string_docids,
            final(self).f64_docids == old(self).f64_docids,
            r is Ok,
            final(self).mirror_current(),
    {
        let vals = collect_leaf_values(&self.string_docids);
        let mirror = build_mirror(&vals, MAX_FACET_VALUE_LENGTH);
        let mut sets: Vec<(u16, Vec<u8>)> = Vec::new();
        let mut i: usize = 0;
        while i < self.string_docids.len()
            invariant
                i <= self.string_docids@.len(),
                strictly_sorted(bytes_seq(mirror.keys@)),
                sets@.len() == i,
                forall|q: int| 0 <= q < i ==> {
                    &&& (#[trigger] sets@[q]).0 == self.string_docids@[q].fid
                    &&& sets@[q].1@ == fst_set_bytes(
                        field_norms(
                            bytes_seq(mirror.keys@),
                            self.string_docids@[q].fid,
                            mirror.keys@.len() as int,
                        ),
                    )
                },
            decreases self.string_docids.len() - i,
        {
            let fid = self.string_docids[i].fid;
            match prefix_set_of_field(&mirror, fid) {
                Ok(b) => sets.push((fid, b)),
                Err(e) => {
                    return Err(e);
                },
            }
            i = i + 1;
        }
        self.mirror = mirror;
        self.prefix_sets = sets;
        Ok(())
    }
}

/// A batch of facet deltas of one value type, with the tree constants to
/// apply it with.
pub struct FacetsUpdate {
    pub facet_type: FacetType,
    pub delta_data: Vec<FieldDeltas>,
    pub group_size: u8,
    pub min_level_size: u8,
}

impl FacetsUpdate {
    /// The tree constants of this update; splits happen above twice the
    /// group size.
    pub open spec fn config(&self) -> TreeConfig {
        TreeConfig {
            group_size: self.group_size,
            min_level_size: self.min_level_size,
            max_group_size: (2 * self.group_size) as u8,
        }
    }

    /// The trees of the update's value type in `index`.
    pub open spec fn target(&self, index: FacetIndex) -> Seq<FieldTree> {
        match self.facet_type {
            FacetType::String => index.string_docids@,
            FacetType::Number => index.f64_docids@,
        }
    }

    /// An update of the given type with the default tree constants.
    pub fn new(facet_type: FacetType, delta_data: Vec<FieldDeltas>) -> (u: FacetsUpdate)
        ensures
            u.facet_type == facet_type,
            u.delta_data == delta_data,
            u.config() == default_config(),
    {
        FacetsUpdate {
            facet_type,
            delta_data,
            group_size: FACET_GROUP_SIZE,
            min_level_size: FACET_MIN_LEVEL_SIZE,
        }
    }

    /// Applies the batch to the trees of its value type, then rebuilds the
    /// normalized mirror and the prefix sets. An empty batch changes nothing.
    /// String bounds fit in `MAX_FACET_VALUE_LENGTH` bytes: callers cut
    /// longer values with `truncate_value`.
    pub fn execute(self, index: &mut FacetIndex) -> (r: Result<(), FacetError>)
        requires
            config_ok(self.config()),
            old(index).wf(self.config()),
            forall|a: int, b: int|
                0 <= a < b < self.delta_data@.len() ==> (#[trigger] self.delta_data@[a]).fid
                    != (#[trigger] self.delta_data@[b]).fid,
            self.facet_type == FacetType::String ==> forall|a: int, j: int|
                0 <= a < self.delta_data@.len() && 0 <= j < self.delta_data@[a].deltas@.len()
                    ==> (#[trigger] self.delta_data@[a].deltas@[j]).bound@.len() <= MAX_FACET_VALUE_LENGTH,
        ensures
            final(index).wf(self.config()),
            self.delta_data@.len() == 0 ==> r is Ok && *final(index) == *old(index),
            forall|i: int| 0 <= i < self.delta_data@.len() ==> #[trigger] field_entries(
                self.target(*final(index)),
                self.delta_data@[i].fid,
            ) == apply_deltas(
                field_entries(self.target(*old(index)), self.delta_data@[i].fid),
                deltas_view(self.delta_data@[i].deltas@),
            ),
            forall|f: u16| (forall|i: int| 0 <= i < self.delta_data@.len() ==> (#[trigger] self.delta_data@[i]).fid != f) ==> #[trigger] field_entries(self.target(*final(index)), f) == field_entries(self.target(*old(index)), f),
            self.facet_type == FacetType::String ==> final(index).f64_docids == old(index).f64_docids,
            self.facet_type == FacetType::Number ==> final(index).string_docids == old(index).string_docids,
            r is Ok,
            self.delta_data@.len() > 0 ==> final(index).mirror_current(),
    {
        if self.delta_data.len() == 0 {
            return Ok(());
        }
        let c = TreeConfig {
            group_size: self.group_size,
            min_level_size: self.min_level_size,
            max_group_size: 2 * self.group_size,
        };
        match self.facet_type {
            FacetType::String => apply_batch(&mut index.string_docids, &self.delta_data, c),
            FacetType::Number => apply_batch(&mut index.f64_docids, &self.delta_data, c),
        }
        proof {
            assert forall|k: int| 0 <= k < index.string_docids@.len() implies (#[trigger] index.string_docids@[k]).tree.view_levels().len() >= 1 by {
                assert(tree_ok(index.string_docids@[k].tree.view_levels(), c));
            }
        }
        index.rebuild_mirror()
    }
}

} // verus!
