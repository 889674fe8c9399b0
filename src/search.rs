//! Queries on the index. Facet search returns the values of a field whose
//! normalized form starts with the normalized query, each with the number
//! of candidate documents that hold it. A range filter on a number field
//! checks that the field is filterable and of the right type.

use crate::codec::MAX_FACET_VALUE_LENGTH;
use crate::docids::{common_count, docids_len, docids_of, empty_docids};
use crate::query::{opt_view, range_docids};
use crate::error::FacetError;
use crate::index::{fields_ok, FacetIndex, FieldTree};
use crate::leaves::find_position;
use crate::codec::{truncate_value, truncated};
use crate::mirror::{field_norms, field_prefix, fst_set_bytes, lossy_normalized, normalize_lossy};
use fst::automaton::Levenshtein;
use fst::{Automaton, IntoStreamer};
use crate::order::{bytes_lt, compare_bytes, lemma_bytes_lt_irreflexive};
use crate::sorted::{bytes_seq, position_of, strictly_sorted};
use crate::tree::{leaves_ok, tree_ok, FacetNode, TreeConfig};
use roaring::RoaringBitmap;
use vstd::prelude::*;

verus! {

/// The index settings that facet search reads.
pub struct SearchSettings {
    /// Whether facet search is switched on.
    pub facet_search: bool,
    /// The fields that may be filtered on.
    pub filterable: Vec<u16>,
    /// The largest number of hits returned.
    pub max_values: usize,
    /// Order hits by decreasing count rather than by value.
    pub sort_by_count: bool,
    /// Whether a query may match values with typos.
    pub typo_tolerance: bool,
    /// Normalized queries that never match with typos.
    pub disable_on_words: Vec<Vec<u8>>,
}

/// A value and the number of candidate documents that hold it.
pub type FacetHit = (Vec<u8>, u64);

/// The view of a list of hits.
pub open spec fn hits_view(h: Seq<FacetHit>) -> Seq<(Seq<u8>, int)> {
    h.map_values(|x: FacetHit| (x.0@, x.1 as int))
}

/// The string trees can be searched: one per field, each with a
/// well-formed level 0.
pub open spec fn search_ready(fs: Seq<FieldTree>) -> bool {
    &&& forall|k: int| 0 <= k < fs.len() ==> (#[trigger] fs[k]).tree.view_levels().len() >= 1
        && leaves_ok(fs[k].tree.view_levels()[0])
    &&& forall|k: int, l: int| 0 <= k < l < fs.len() ==> (#[trigger] fs[k]).fid != (#[trigger] fs[l]).fid
}

/// Well-formed trees can be searched.
pub proof fn lemma_search_ready(fs: Seq<FieldTree>, c: TreeConfig)
    requires
        fields_ok(fs, c),
    ensures
        search_ready(fs),
{
    assert forall|k: int| 0 <= k < fs.len() implies (#[trigger] fs[k]).tree.view_levels().len() >= 1
        && leaves_ok(fs[k].tree.view_levels()[0]) by {
        assert(tree_ok(fs[k].tree.view_levels(), c));
    }
}

/// Level 0 of field `fid`, empty when the field has no tree.
pub open spec fn field_leaves(fs: Seq<FieldTree>, fid: u16) -> Seq<FacetNode> {
    if exists|k: int| 0 <= k < fs.len() && (#[trigger] fs[k]).fid == fid {
        let k = choose|k: int| 0 <= k < fs.len() && (#[trigger] fs[k]).fid == fid;
        fs[k].tree.view_levels()[0]
    } else {
        Seq::empty()
    }
}

/// The number of candidates holding value `o`: documents of its leaf,
/// restricted to the candidates when there are some; 0 without a leaf.
pub open spec fn value_count(leaves: Seq<FacetNode>, o: Seq<u8>, cands: Option<Set<u32>>) -> int {
    if exists|i: int| 0 <= i < leaves.len() && (#[trigger] leaves[i]).bound@ == o {
        let i = choose|i: int| 0 <= i < leaves.len() && (#[trigger] leaves[i]).bound@ == o;
        match cands {
            None => docids_of(leaves[i].docids).len() as int,
            Some(c) => docids_of(leaves[i].docids).intersect(c).len() as int,
        }
    } else {
        0
    }
}

/// The hits among the first `n` originals of one key: those with a
/// positive count, in order.
pub open spec fn key_hits(
    origs: Seq<Seq<u8>>,
    n: int,
    leaves: Seq<FacetNode>,
    cands: Option<Set<u32>>,
) -> Seq<(Seq<u8>, int)>
    decreases n,
{
    if n <= 0 {
        Seq::empty()
    } else if value_count(leaves, origs[n - 1], cands) > 0 {
        key_hits(origs, n - 1, leaves, cands).push((origs[n - 1], value_count(leaves, origs[n - 1], cands)))
    } else {
        key_hits(origs, n - 1, leaves, cands)
    }
}

/// `p` is a prefix of `s`.
pub open spec fn starts_with(s: Seq<u8>, p: Seq<u8>) -> bool {
    p.len() <= s.len() && s.subrange(0, p.len() as int) == p
}

/// The hits of the first `n` mirror keys that start with `q`, key after
/// key, in the order of the mirror.
pub open spec fn search_hits(
    keys: Seq<Seq<u8>>,
    origs: Seq<Seq<Seq<u8>>>,
    q: Seq<u8>,
    n: int,
    leaves: Seq<FacetNode>,
    cands: Option<Set<u32>>,
) -> Seq<(Seq<u8>, int)>
    decreases n,
{
    if n <= 0 {
        Seq::empty()
    } else if starts_with(keys[n - 1], q) {
        search_hits(keys, origs, q, n - 1, leaves, cands) + key_hits(
            origs[n - 1],
            origs[n - 1].len() as int,
            leaves,
            cands,
        )
    } else {
        search_hits(keys, origs, q, n - 1, leaves, cands)
    }
}

/// Inserts `h` after every hit whose count is at least its own.
pub open spec fn insert_by_count(s: Seq<(Seq<u8>, int)>, h: (Seq<u8>, int)) -> Seq<(Seq<u8>, int)>
    decreases s.len(),
{
    if s.len() == 0 {
        seq![h]
    } else if s.last().1 >= h.1 {
        s.push(h)
    } else {
        insert_by_count(s.drop_last(), h).push(s.last())
    }
}

/// Hits by decreasing count; hits of equal count keep their order.
pub open spec fn sort_by_count(s: Seq<(Seq<u8>, int)>) -> Seq<(Seq<u8>, int)>
    decreases s.len(),
{
    if s.len() == 0 {
        s
    } else {
        insert_by_count(sort_by_count(s.drop_last()), s.last())
    }
}

/// The first `max` hits, after sorting by count when asked.
pub open spec fn ranked_hits(s: Seq<(Seq<u8>, int)>, max: int, by_count: bool) -> Seq<(Seq<u8>, int)> {
    let r = if by_count { sort_by_count(s) } else { s };
    if r.len() <= max { r } else { r.take(max) }
}

/// The view of optional candidates.
pub open spec fn cands_view(c: Option<&RoaringBitmap>) -> Option<Set<u32>> {
    match c {
        Some(b) => Some(docids_of(*b)),
        None => None,
    }
}

fn count_value(leaves: &Vec<FacetNode>, o: &Vec<u8>, cands: Option<&RoaringBitmap>) -> (r: u64)
    requires
        leaves_ok(leaves@),
    ensures
        r as int == value_count(leaves@, o@, cands_view(cands)),
{
    let p = find_position(leaves, o);
    if p < leaves.len() && compare_bytes(leaves[p].bound.as_slice(), o.as_slice()) == 0 {
        proof {
            assert(leaves@[p as int].bound@ == o@);
            let i = choose|i: int| 0 <= i < leaves@.len() && (#[trigger] leaves@[i]).bound@ == o@;
            if i != p {
                lemma_bytes_lt_irreflexive(o@);
                if i < p {
                    assert(bytes_lt(leaves@[i].bound@, leaves@[p as int].bound@));
                } else {
                    assert(bytes_lt(leaves@[p as int].bound@, leaves@[i].bound@));
                }
            }
        }
        match cands {
            Some(c) => common_count(&leaves[p].docids, c),
            None => docids_len(&leaves[p].docids),
        }
    } else {
        proof {
            if exists|i: int| 0 <= i < leaves@.len() && (#[trigger] leaves@[i]).bound@ == o@ {
                let i = choose|i: int| 0 <= i < leaves@.len() && (#[trigger] leaves@[i]).bound@ == o@;
                lemma_bytes_lt_irreflexive(o@);
                if i > p {
                    assert(bytes_lt(leaves@[p as int].bound@, leaves@[i].bound@));
                    assert(false);
                }
            }
        }
        0
    }
}

pub fn has_prefix(s: &[u8], p: &[u8]) -> (r: bool)
    ensures
        r == starts_with(s@, p@),
{
    if p.len() > s.len() {
        return false;
    }
    let mut i: usize = 0;
    while i < p.len()
        invariant
            p@.len() <= s@.len(),
            i <= p@.len(),
            s@.subrange(0, i as int) == p@.subrange(0, i as int),
        decreases p.len() - i,
    {
        if s[i] != p[i] {
            assert(s@.subrange(0, p@.len() as int)[i as int] != p@[i as int]);
            return false;
        }
        i = i + 1;
        assert(s@.subrange(0, i as int) =~= s@.subrange(0, i - 1).push(s@[i - 1]));
        assert(p@.subrange(0, i as int) =~= p@.subrange(0, i - 1).push(p@[i - 1]));
    }
    assert(p@.subrange(0, p@.len() as int) =~= p@);
    true
}

proof fn lemma_insert_by_count(s: Seq<(Seq<u8>, int)>, h: (Seq<u8>, int), p: int)
    requires
        0 <= p <= s.len(),
        forall|k: int| p <= k < s.len() ==> (#[trigger] s[k]).1 < h.1,
        p > 0 ==> s[p - 1].1 >= h.1,
    ensures
        insert_by_count(s, h) == s.insert(p, h),
    decreases s.len(),
{
    if s.len() == 0 {
        assert(s.insert(p, h) =~= seq![h]);
    } else if s.last().1 >= h.1 {
        assert(s.insert(p, h) =~= s.push(h));
    } else {
        lemma_insert_by_count(s.drop_last(), h, p);
        assert(s.insert(p, h) =~= s.drop_last().insert(p, h).push(s.last()));
    }
}

/// Orders hits by decreasing count, hits of equal count in their order.
pub(crate) fn order_by_count(hits: &Vec<FacetHit>) -> (r: Vec<FacetHit>)
    ensures
        hits_view(r@) == sort_by_count(hits_view(hits@)),
{
    let mut sorted: Vec<FacetHit> = Vec::new();
    let mut t: usize = 0;
    while t < hits.len()
        invariant
            t <= hits@.len(),
            hits_view(sorted@) == sort_by_count(hits_view(hits@).take(t as int)),
        decreases hits.len() - t,
    {
        let count = hits[t].1;
        let mut p: usize = sorted.len();
        while p > 0 && sorted[p - 1].1 < count
            invariant
                p <= sorted@.len(),
                forall|k: int| p <= k < sorted@.len() ==> (#[trigger] sorted@[k]).1 < count,
            decreases p,
        {
            p = p - 1;
        }
        let ghost before = hits_view(sorted@);
        let h = (hits[t].0.clone(), count);
        sorted.insert(p, h);
        proof {
            let hv = (hits[t as int].0@, count as int);
            assert forall|k: int| p <= k < before.len() implies (#[trigger] before[k]).1 < hv.1 by {
                assert(before[k].1 == sorted@[k + 1].1 as int);
            }
            lemma_insert_by_count(before, hv, p as int);
            assert(hits_view(sorted@) =~= before.insert(p as int, hv));
            let x = hits_view(hits@).take(t + 1);
            assert(x.drop_last() =~= hits_view(hits@).take(t as int));
            assert(x.last() == hv);
        }
        t = t + 1;
    }
    assert(hits_view(hits@).take(hits@.len() as int) =~= hits_view(hits@));
    sorted
}

/// The originals of each mirror key, as byte strings.
pub open spec fn originals_view(m: Seq<Vec<Vec<u8>>>) -> Seq<Seq<Seq<u8>>> {
    m.map_values(|v: Vec<Vec<u8>>| bytes_seq(v@))
}

/// The text that UTF-8 bytes encode; `None` when they are not UTF-8.
pub uninterp spec fn utf8_text(bytes: Seq<u8>) -> Option<Seq<char>>;

/// Relies on `String::from_utf8`: the characters depend on the bytes
/// alone, and bytes that are not UTF-8 are refused.
#[verifier::external_body]
fn decode_utf8(bytes: &[u8]) -> (r: Option<String>)
    ensures
        r is Some <==> utf8_text(bytes@) is Some,
        r matches Some(t) ==> Some(t@) == utf8_text(bytes@),
{
    String::from_utf8(bytes.to_vec()).ok()
}

/// The keys of an ordered set, serialized by the set builder, that begin
/// with a prefix within `typos` edits of `query`, in order; `None` when the
/// automaton for the query grows too large.
pub uninterp spec fn fuzzy_prefix_matches(set: Seq<u8>, query: Seq<char>, typos: u32) -> Option<Seq<Seq<u8>>>;

/// Relies on `fst::Set::new` to read bytes that the set builder wrote,
/// and on a search with the automaton
/// `fst::automaton::Levenshtein::new(query, typos).starts_with()`, which
/// refuses to build an automaton that grows too large: the keys found
/// depend on the set, the query and the distance alone.
#[verifier::external_body]
fn search_prefix_set(set: &[u8], query: &str, typos: u32) -> (r: Option<Vec<Vec<u8>>>)
    requires
        exists|keys: Seq<Seq<u8>>| set@ == fst_set_bytes(keys),
    ensures
        r is Some <==> fuzzy_prefix_matches(set@, query@, typos) is Some,
        r matches Some(v) ==> Some(bytes_seq(v@)) == fuzzy_prefix_matches(set@, query@, typos),
{
    let set = match fst::Set::new(set.to_vec()) { Ok(s) => s, Err(_) => return None };
    let automaton = match Levenshtein::new(query, typos) { Ok(a) => a, Err(_) => return None };
    Some(set.search(automaton.starts_with()).into_stream().into_bytes())
}

/// The normalized query: lossy-normalized, cut to the longest value a key
/// holds.
pub open spec fn normalized_query(query: Seq<u8>) -> Seq<u8> {
    truncated(lossy_normalized(query), MAX_FACET_VALUE_LENGTH as int)
}

/// Typos allowed for a normalized query: none when typo tolerance is off
/// or the query is one of the words that disable it; else none below 5
/// bytes, one below 9 and two from 9 on.
pub open spec fn typo_budget(nq: Seq<u8>, tolerant: bool, disabled: Seq<Seq<u8>>) -> u32 {
    if !tolerant || disabled.contains(nq) || nq.len() < 5 {
        0
    } else if nq.len() < 9 {
        1
    } else {
        2
    }
}

/// The prefix set stored for `fid`: the first entry of that field.
pub open spec fn field_set(sets: Seq<(u16, Vec<u8>)>, fid: u16, n: int) -> Option<Seq<u8>>
    decreases n,
{
    if n <= 0 {
        None
    } else if field_set(sets, fid, n - 1) is Some {
        field_set(sets, fid, n - 1)
    } else if sets[n - 1].0 == fid {
        Some(sets[n - 1].1@)
    } else {
        None
    }
}

/// The originals stored under `key` among the first `n` mirror keys;
/// none when the key is absent.
pub open spec fn originals_at(kv: Seq<Seq<u8>>, ov: Seq<Seq<Seq<u8>>>, key: Seq<u8>, n: int) -> Seq<Seq<u8>>
    decreases n,
{
    if n <= 0 {
        Seq::empty()
    } else if kv[n - 1] == key {
        ov[n - 1]
    } else {
        originals_at(kv, ov, key, n - 1)
    }
}

/// The hits of the first `n` matched normalized values of field `fid`, in
/// order.
pub open spec fn match_hits(
    kv: Seq<Seq<u8>>,
    ov: Seq<Seq<Seq<u8>>>,
    fid: u16,
    ms: Seq<Seq<u8>>,
    n: int,
    leaves: Seq<FacetNode>,
    cands: Option<Set<u32>>,
) -> Seq<(Seq<u8>, int)>
    decreases n,
{
    if n <= 0 {
        Seq::empty()
    } else {
        let os = originals_at(kv, ov, field_prefix(fid) + ms[n - 1], kv.len() as int);
        match_hits(kv, ov, fid, ms, n - 1, leaves, cands) + key_hits(os, os.len() as int, leaves, cands)
    }
}

/// The hits that facet search returns for `fid` and `query`: none when
/// the field has no prefix set or the normalized query is not UTF-8;
/// `None` when the ordered-set search fails.
pub open spec fn expected_hits(
    index: FacetIndex,
    settings: SearchSettings,
    fid: u16,
    query: Seq<u8>,
    cands: Option<Set<u32>>,
) -> Option<Seq<(Seq<u8>, int)>> {
    let nq = normalized_query(query);
    let typos = typo_budget(nq, settings.typo_tolerance, bytes_seq(settings.disable_on_words@));
    match field_set(index.prefix_sets@, fid, index.prefix_sets@.len() as int) {
        None => Some(Seq::empty()),
        Some(set) => match utf8_text(nq) {
            None => Some(Seq::empty()),
            Some(text) => match fuzzy_prefix_matches(set, text, typos) {
                None => None,
                Some(ms) => Some(
                    ranked_hits(
                        match_hits(
                            bytes_seq(index.mirror.keys@),
                            originals_view(index.mirror.originals@),
                            fid,
                            ms,
                            ms.len() as int,
                            field_leaves(index.string_docids@, fid),
                            cands,
                        ),
                        settings.max_values as int,
                        settings.sort_by_count,
                    ),
                ),
            },
        },
    }
}

proof fn lemma_originals_absent(kv: Seq<Seq<u8>>, ov: Seq<Seq<Seq<u8>>>, key: Seq<u8>, n: int)
    requires
        n <= kv.len(),
        forall|i: int| 0 <= i < n ==> kv[i] != key,
    ensures
        originals_at(kv, ov, key, n) == Seq::<Seq<u8>>::empty(),
    decreases n,
{
    if n > 0 {
        lemma_originals_absent(kv, ov, key, n - 1);
    }
}

proof fn lemma_originals_at(kv: Seq<Seq<u8>>, ov: Seq<Seq<Seq<u8>>>, i: int, n: int)
    requires
        0 <= i < n <= kv.len(),
        forall|j: int| i < j < n ==> kv[j] != kv[i],
    ensures
        originals_at(kv, ov, kv[i], n) == ov[i],
    decreases n,
{
    if n - 1 > i {
        lemma_originals_at(kv, ov, i, n - 1);
    }
}

/// The typos allowed for a normalized query.
fn typos_for(nq: &Vec<u8>, settings: &SearchSettings) -> (t: u32)
    ensures
        t == typo_budget(nq@, settings.typo_tolerance, bytes_seq(settings.disable_on_words@)),
{
    let mut disabled = false;
    let mut i: usize = 0;
    while i < settings.disable_on_words.len()
        invariant
            i <= settings.disable_on_words@.len(),
            disabled <==> exists|j: int| 0 <= j < i && (#[trigger] settings.disable_on_words@[j])@ == nq@,
        decreases settings.disable_on_words.len() - i,
    {
        if compare_bytes(settings.disable_on_words[i].as_slice(), nq.as_slice()) == 0 {
            disabled = true;
        }
        i = i + 1;
    }
    proof {
        let d = bytes_seq(settings.disable_on_words@);
        if disabled {
            let j = choose|j: int| 0 <= j < i && (#[trigger] settings.disable_on_words@[j])@ == nq@;
            assert(d[j] == nq@);
        }
        if d.contains(nq@) {
            let j = choose|j: int| 0 <= j < d.len() && d[j] == nq@;
            assert(settings.disable_on_words@[j]@ == nq@);
        }
    }
    if !settings.typo_tolerance || disabled || nq.len() < 5 {
        0
    } else if nq.len() < 9 {
        1
    } else {
        2
    }
}

/// Facet search on string field `fid`: refused when facet search is off
/// or the field is not filterable. Otherwise the field's prefix set is
/// searched for the normalized values that begin within the allowed typos
/// of the normalized query; each of their original values comes with its
/// number of candidate documents (all documents without candidates), in
/// value order or by decreasing count, at most `max_values` of them.
pub fn facet_search(
    index: &FacetIndex,
    settings: &SearchSettings,
    fid: u16,
    query: &[u8],
    cands: Option<&RoaringBitmap>,
) -> (r: Result<Vec<FacetHit>, FacetError>)
    requires
        search_ready(index.string_docids@),
        index.mirror_current(),
    ensures
        !settings.facet_search ==> r == Err::<Vec<FacetHit>, FacetError>(FacetError::SearchDisabled),
        settings.facet_search && !settings.filterable@.contains(fid) ==> r == Err::<Vec<FacetHit>, FacetError>(FacetError::NotFilterable),
        settings.facet_search && settings.filterable@.contains(fid) ==> match expected_hits(*index, *settings, fid, query@, cands_view(cands)) {
            None => r == Err::<Vec<FacetHit>, FacetError>(FacetError::Storage),
            Some(h) => r matches Ok(hits) && hits_view(hits@) == h,
        },
{
    if !settings.facet_search {
        return Err(FacetError::SearchDisabled);
    }
    let mut f: usize = 0;
    while f < settings.filterable.len() && settings.filterable[f] != fid
        invariant
            f <= settings.filterable@.len(),
            forall|q: int| 0 <= q < f ==> settings.filterable@[q] != fid,
        decreases settings.filterable.len() - f,
    {
        f = f + 1;
    }
    if f == settings.filterable.len() {
        return Err(FacetError::NotFilterable);
    }
    assert(settings.filterable@[f as int] == fid);
    let norm = normalize_lossy(query);
    let nq = truncate_value(norm.as_slice(), MAX_FACET_VALUE_LENGTH);
    let typos = typos_for(&nq, settings);
    let sets = &index.prefix_sets;
    let mut s: usize = 0;
    while s < sets.len() && sets[s].0 != fid
        invariant
            s <= sets@.len(),
            field_set(sets@, fid, s as int) is None,
        decreases sets.len() - s,
    {
        s = s + 1;
    }
    if s == sets.len() {
        return Ok(Vec::new());
    }
    assert(field_set(sets@, fid, s + 1) == Some(sets@[s as int].1@));
    proof {
        lemma_field_set_stays(sets@, fid, s + 1, sets@.len() as int);
    }
    let text = match decode_utf8(nq.as_slice()) {
        Some(t) => t,
        None => {
            return Ok(Vec::new());
        },
    };
    proof {
        let i = s as int;
        assert(index.prefix_sets@[i].1@ == fst_set_bytes(
            field_norms(bytes_seq(index.mirror.keys@), index.string_docids@[i].fid, index.mirror.keys@.len() as int),
        ));
    }
    let ms = match search_prefix_set(sets[s].1.as_slice(), text.as_str(), typos) {
        Some(ms) => ms,
        None => {
            return Err(FacetError::Storage);
        },
    };
    Ok(hits_of_matches(index, settings, fid, &ms, cands))
}

/// The hits of the normalized values `ms` of field `fid` that the prefix
/// set matched: each original value of each, in the order of `ms`, with
/// its number of candidate documents (all documents without candidates)
/// when positive; then in value order or by decreasing count, at most
/// `max_values` of them.
pub fn hits_of_matches(
    index: &FacetIndex,
    settings: &SearchSettings,
    fid: u16,
    ms: &Vec<Vec<u8>>,
    cands: Option<&RoaringBitmap>,
) -> (r: Vec<FacetHit>)
    requires
        search_ready(index.string_docids@),
        index.mirror.keys@.len() == index.mirror.originals@.len(),
        strictly_sorted(bytes_seq(index.mirror.keys@)),
    ensures
        hits_view(r@) == ranked_hits(
            match_hits(
                bytes_seq(index.mirror.keys@),
                originals_view(index.mirror.originals@),
                fid,
                bytes_seq(ms@),
                ms@.len() as int,
                field_leaves(index.string_docids@, fid),
                cands_view(cands),
            ),
            settings.max_values as int,
            settings.sort_by_count,
        ),
{
    let fields = &index.string_docids;
    let mut k: usize = 0;
    while k < fields.len() && fields[k].fid != fid
        invariant
            k <= fields@.len(),
            forall|q: int| 0 <= q < k ==> (#[trigger] fields@[q]).fid != fid,
        decreases fields.len() - k,
    {
        k = k + 1;
    }
    let none: Vec<FacetNode> = Vec::new();
    let leaves: &Vec<FacetNode> = if k < fields.len() {
        &fields[k].tree.levels[0]
    } else {
        &none
    };
    proof {
        if k < fields.len() {
            let c = choose|c: int| 0 <= c < fields@.len() && (#[trigger] fields@[c]).fid == fid;
            if c != k {
                if c < k {
                    assert(fields@[c].fid != fields@[k as int].fid);
                } else {
                    assert(fields@[k as int].fid != fields@[c].fid);
                }
            }
            assert(leaves@ == fields@[k as int].tree.view_levels()[0]);
        }
        assert(leaves@ == field_leaves(fields@, fid));
    }
    let keys = &index.mirror.keys;
    let origs = &index.mirror.originals;
    let ghost kv = bytes_seq(keys@);
    let ghost ov = originals_view(origs@);
    let ghost cv = cands_view(cands);
    let ghost msv = bytes_seq(ms@);
    let mut hits: Vec<FacetHit> = Vec::new();
    let mut i: usize = 0;
    while i < ms.len()
        invariant
            i <= ms@.len(),
            keys@.len() == origs@.len(),
            kv == bytes_seq(keys@),
            ov == originals_view(origs@),
            cv == cands_view(cands),
            msv == bytes_seq(ms@),
            strictly_sorted(kv),
            leaves_ok(leaves@),
            hits_view(hits@) == match_hits(kv, ov, fid, msv, i as int, leaves@, cv),
        decreases ms.len() - i,
    {
        let mut key: Vec<u8> = Vec::new();
        key.push((fid >> 8u16) as u8);
        key.push((fid & 0xffu16) as u8);
        let m = &ms[i];
        let mut q: usize = 0;
        while q < m.len()
            invariant
                q <= m@.len(),
                key@ == field_prefix(fid) + m@.subrange(0, q as int),
            decreases m.len() - q,
        {
            key.push(m[q]);
            q = q + 1;
            assert(m@.subrange(0, q as int) =~= m@.subrange(0, q - 1).push(m@[q - 1]));
        }
        assert(m@.subrange(0, m@.len() as int) =~= m@);
        assert(msv[i as int] == m@);
        let p = position_of(keys, key.as_slice());
        let ghost base = hits_view(hits@);
        if p < keys.len() && compare_bytes(keys[p].as_slice(), key.as_slice()) == 0 {
            let set = &origs[p];
            proof {
                assert(kv[p as int] == key@);
                assert forall|j: int| p < j < kv.len() implies kv[j] != kv[p as int] by {
                    assert(bytes_lt(kv[p as int], kv[j]));
                    lemma_bytes_lt_irreflexive(kv[p as int]);
                }
                lemma_originals_at(kv, ov, p as int, kv.len() as int);
                assert(ov[p as int] == bytes_seq(set@));
            }
            let mut j: usize = 0;
            while j < set.len()
                invariant
                    j <= set@.len(),
                    cv == cands_view(cands),
                    leaves_ok(leaves@),
                    hits_view(hits@) == base + key_hits(bytes_seq(set@), j as int, leaves@, cv),
                decreases set.len() - j,
            {
                let c = count_value(leaves, &set[j], cands);
                let ghost before = hits_view(hits@);
                let ghost os = bytes_seq(set@);
                let ghost jj = j as int;
                assert(os[jj] == set@[jj]@);
                if c > 0 {
                    hits.push((set[j].clone(), c));
                    let ghost x = (set@[jj]@, c as int);
                    let ghost a = key_hits(os, jj, leaves@, cv);
                    assert(hits_view(hits@) =~= before.push(x));
                    assert((base + a).push(x) =~= base + a.push(x));
                    assert(a.push(x) == key_hits(os, jj + 1, leaves@, cv));
                }
                j = j + 1;
            }
        } else {
            proof {
                assert forall|j: int| 0 <= j < kv.len() implies kv[j] != key@ by {
                    lemma_bytes_lt_irreflexive(key@);
                    if j > p {
                        assert(bytes_lt(kv[p as int], kv[j]));
                    }
                }
                lemma_originals_absent(kv, ov, key@, kv.len() as int);
                assert(base + key_hits(Seq::<Seq<u8>>::empty(), 0, leaves@, cv) =~= base);
            }
        }
        i = i + 1;
    }
    let mut ranked = if settings.sort_by_count {
        order_by_count(&hits)
    } else {
        hits
    };
    if ranked.len() > settings.max_values {
        let ghost full = hits_view(ranked@);
        ranked.truncate(settings.max_values);
        assert(hits_view(ranked@) =~= full.take(settings.max_values as int));
    }
    ranked
}

proof fn lemma_field_set_stays(sets: Seq<(u16, Vec<u8>)>, fid: u16, n: int, m: int)
    requires
        0 <= n <= m,
        field_set(sets, fid, n) is Some,
    ensures
        field_set(sets, fid, m) == field_set(sets, fid, n),
    decreases m - n,
{
    if n < m {
        lemma_field_set_stays(sets, fid, n, m - 1);
    }
}

/// Some tree of `fs` belongs to field `fid`.
pub open spec fn has_field(fs: Seq<FieldTree>, fid: u16) -> bool {
    exists|k: int| 0 <= k < fs.len() && (#[trigger] fs[k]).fid == fid
}

fn find_field(fs: &Vec<FieldTree>, fid: u16) -> (k: usize)
    ensures
        k <= fs@.len(),
        k < fs@.len() ==> fs@[k as int].fid == fid,
        k == fs@.len() ==> !has_field(fs@, fid),
{
    let mut k: usize = 0;
    while k < fs.len() && fs[k].fid != fid
        invariant
            k <= fs@.len(),
            forall|q: int| 0 <= q < k ==> (#[trigger] fs@[q]).fid != fid,
        decreases fs.len() - k,
    {
        k = k + 1;
    }
    k
}

/// Documents whose value of number field `fid` lies in `[lo, hi]`.
/// Refused when the field is not filterable, or when it holds strings and
/// no number.
pub fn range_filter(
    index: &FacetIndex,
    filterable: &Vec<u16>,
    fid: u16,
    lo: Option<&Vec<u8>>,
    hi: Option<&Vec<u8>>,
    c: TreeConfig,
) -> (r: Result<RoaringBitmap, FacetError>)
    requires
        fields_ok(index.f64_docids@, c),
    ensures
        !filterable@.contains(fid) ==> r == Err::<RoaringBitmap, FacetError>(FacetError::NotFilterable),
        filterable@.contains(fid) && !has_field(index.f64_docids@, fid) && has_field(index.string_docids@, fid)
            ==> r == Err::<RoaringBitmap, FacetError>(FacetError::WrongType),
        filterable@.contains(fid) && !has_field(index.f64_docids@, fid) && !has_field(index.string_docids@, fid)
            ==> (r matches Ok(b) && docids_of(b) == Set::<u32>::empty()),
        filterable@.contains(fid) && has_field(index.f64_docids@, fid) ==> (r matches Ok(b) && exists|k: int|
            0 <= k < index.f64_docids@.len() && (#[trigger] index.f64_docids@[k]).fid == fid && docids_of(b)
                == range_docids(
                index.f64_docids@[k].tree.view_levels()[0],
                opt_view(lo),
                opt_view(hi),
                index.f64_docids@[k].tree.view_levels()[0].len() as int,
            )),
{
    let mut f: usize = 0;
    while f < filterable.len() && filterable[f] != fid
        invariant
            f <= filterable@.len(),
            forall|q: int| 0 <= q < f ==> filterable@[q] != fid,
        decreases filterable.len() - f,
    {
        f = f + 1;
    }
    if f == filterable.len() {
        return Err(FacetError::NotFilterable);
    }
    assert(filterable@[f as int] == fid);
    let k = find_field(&index.f64_docids, fid);
    if k < index.f64_docids.len() {
        assert(tree_ok(index.f64_docids@[k as int].tree.view_levels(), c));
        let b = index.f64_docids[k].tree.filter(lo, hi, c);
        assert(index.f64_docids@[k as int].fid == fid);
        return Ok(b);
    }
    let s = find_field(&index.string_docids, fid);
    if s < index.string_docids.len() {
        assert(index.string_docids@[s as int].fid == fid);
        return Err(FacetError::WrongType);
    }
    Ok(empty_docids())
}

} // verus!
