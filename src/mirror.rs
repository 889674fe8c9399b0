//! The normalized mirror of string facet values: for each field, each
//! lossy-normalized value maps to the set of original values that
//! normalize to it.

use crate::codec::truncate_value;
use crate::codec::truncated;
use crate::order::{bytes_lt, compare_bytes, lemma_bytes_lt_asymmetric, lemma_bytes_lt_irreflexive};
use crate::sorted::{bytes_seq, insert_sorted, lemma_insert_sorted, position_of, strictly_sorted};
use crate::error::FacetError;
use charabia::normalizer::{Normalize, NormalizerOption};
use fst::SetBuilder;
use vstd::prelude::*;

verus! {

/// What lossy normalization (case folding, diacritics removed, widths
/// unified) makes of a UTF-8 value.
pub uninterp spec fn lossy_normalized(value: Seq<u8>) -> Seq<u8>;

/// Relies on charabia's `Normalize` for `&str` with the lossy option: the
/// normalized form depends on the value alone. Bytes that are not UTF-8
/// are read as U+FFFD first.
#[verifier::external_body]
pub(crate) fn normalize_lossy(value: &[u8]) -> (r: Vec<u8>)
    ensures
        r@ == lossy_normalized(value@),
{
    let s = String::from_utf8_lossy(value);
    let options = NormalizerOption { lossy: true, ..Default::default() };
    s.as_ref().normalize(&options).as_bytes().to_vec()
}

/// The two big-endian bytes of a field id.
pub open spec fn field_prefix(fid: u16) -> Seq<u8> {
    seq![(fid >> 8u16) as u8, (fid & 0xffu16) as u8]
}

/// The mirror key of an original value of field `fid`: the field id, then
/// the normalized value cut to `max` bytes on a character boundary.
pub open spec fn mirror_key(fid: u16, value: Seq<u8>, max: int) -> Seq<u8> {
    field_prefix(fid) + truncated(lossy_normalized(value), max)
}

/// Among the first `n` inputs, `o` is an original value whose mirror key
/// is `key`.
pub open spec fn sourced(vals: Seq<(u16, Seq<u8>)>, n: int, max: int, key: Seq<u8>, o: Seq<u8>) -> bool {
    exists|j: int| 0 <= j < n && vals[j].1 == o && #[trigger] mirror_key(vals[j].0, vals[j].1, max) == key
}

/// The views of `(field id, value)` pairs.
pub open spec fn pairs_view(vals: Seq<(u16, Vec<u8>)>) -> Seq<(u16, Seq<u8>)> {
    vals.map_values(|p: (u16, Vec<u8>)| (p.0, p.1@))
}

/// The mirror: sorted distinct keys, each with its sorted original values.
pub struct NormalizedMirror {
    pub keys: Vec<Vec<u8>>,
    pub originals: Vec<Vec<Vec<u8>>>,
}

impl NormalizedMirror {
    /// The mirror holds exactly the first `n` inputs, grouped by key.
    pub open spec fn holds(&self, vals: Seq<(u16, Seq<u8>)>, n: int, max: int) -> bool {
        &&& self.keys@.len() == self.originals@.len()
        &&& strictly_sorted(bytes_seq(self.keys@))
        &&& forall|i: int| 0 <= i < self.originals@.len() ==> strictly_sorted(bytes_seq(#[trigger] self.originals@[i]@))
            && self.originals@[i]@.len() > 0
        &&& forall|i: int, o: Seq<u8>|
            0 <= i < self.keys@.len() ==> (#[trigger] bytes_seq(self.originals@[i]@).contains(o) <==> sourced(
                vals,
                n,
                max,
                self.keys@[i]@,
                o,
            ))
        &&& forall|j: int| 0 <= j < n ==> #[trigger] bytes_seq(self.keys@).contains(mirror_key(vals[j].0, vals[j].1, max))
    }
}

/// Computes the mirror key of a value of field `fid`.
pub fn compute_mirror_key(fid: u16, value: &[u8], max: usize) -> (k: Vec<u8>)
    ensures
        k@ == mirror_key(fid, value@, max as int),
{
    let norm = normalize_lossy(value);
    let cut = truncate_value(norm.as_slice(), max);
    let mut k: Vec<u8> = Vec::new();
    k.push((fid >> 8u16) as u8);
    k.push((fid & 0xffu16) as u8);
    let mut i: usize = 0;
    while i < cut.len()
        invariant
            i <= cut@.len(),
            k@ == field_prefix(fid) + cut@.subrange(0, i as int),
        decreases cut.len() - i,
    {
        k.push(cut[i]);
        i = i + 1;
        assert(cut@.subrange(0, i as int) =~= cut@.subrange(0, i - 1).push(cut[i - 1]));
    }
    assert(cut@.subrange(0, cut@.len() as int) =~= cut@);
    k
}

/// Builds the mirror of the original string values `vals`, each given
/// with its field id.
pub fn build_mirror(vals: &Vec<(u16, Vec<u8>)>, max: usize) -> (m: NormalizedMirror)
    ensures
        m.holds(pairs_view(vals@), vals@.len() as int, max as int),
{
    let ghost vv = pairs_view(vals@);
    let mut m = NormalizedMirror { keys: Vec::new(), originals: Vec::new() };
    let mut j: usize = 0;
    while j < vals.len()
        invariant
            j <= vals@.len(),
            vv == pairs_view(vals@),
            m.holds(vv, j as int, max as int),
        decreases vals.len() - j,
    {
        let fid = vals[j].0;
        let v = &vals[j].1;
        let k = compute_mirror_key(fid, v.as_slice(), max);
        let p = position_of(&m.keys, k.as_slice());
        let ghost keys0 = bytes_seq(m.keys@);
        let ghost origs0 = m.originals@;
        let ghost n = j as int;
        let ghost mx = max as int;
        assert(vv[n].1 == v@);
        if p < m.keys.len() && compare_bytes(m.keys[p].as_slice(), k.as_slice()) == 0 {
            let mut set = m.originals.remove(p);
            insert_sorted(&mut set, v);
            m.originals.insert(p, set);
            proof {
                assert(keys0[p as int] == k@);
                assert forall|i: int| 0 <= i < m.originals@.len() implies strictly_sorted(
                    bytes_seq(#[trigger] m.originals@[i]@),
                ) && m.originals@[i]@.len() > 0 by {
                    if i != p {
                        assert(m.originals@[i] == origs0[i]);
                    } else {
                        assert(bytes_seq(m.originals@[i]@).contains(v@));
                    }
                }
                assert forall|i: int, o: Seq<u8>| 0 <= i < m.keys@.len() implies (
                #[trigger] bytes_seq(m.originals@[i]@).contains(o) <==> sourced(
                    vv,
                    n + 1,
                    mx,
                    m.keys@[i]@,
                    o,
                )) by {
                    let key = m.keys@[i]@;
                    assert(key == keys0[i]);
                    if i != p {
                        assert(m.originals@[i] == origs0[i]);
                        assert(bytes_lt(keys0[i], keys0[p as int]) || bytes_lt(keys0[p as int], keys0[i]));
                        lemma_bytes_lt_irreflexive(key);
                        assert(key != k@);
                    }
                    if sourced(vv, n + 1, mx, key, o) {
                        let w = choose|w: int| 0 <= w < n + 1 && vv[w].1 == o && #[trigger] mirror_key(vv[w].0, vv[w].1, mx) == key;
                        if w < n {
                            assert(sourced(vv, n, mx, key, o));
                        }
                    }
                    if sourced(vv, n, mx, key, o) {
                        let w = choose|w: int| 0 <= w < n && vv[w].1 == o && #[trigger] mirror_key(vv[w].0, vv[w].1, mx) == key;
                        assert(sourced(vv, n + 1, mx, key, o));
                    }
                    if i == p && o == v@ {
                        assert(mirror_key(vv[n].0, vv[n].1, mx) == key);
                        assert(sourced(vv, n + 1, mx, key, o));
                    }
                }
                assert forall|w: int| 0 <= w < n + 1 implies #[trigger] bytes_seq(m.keys@).contains(
                    mirror_key(vv[w].0, vv[w].1, mx),
                ) by {
                    if w == n {
                        assert(bytes_seq(m.keys@)[p as int] == k@);
                    }
                }
            }
        } else {
            let mut set: Vec<Vec<u8>> = Vec::new();
            set.push(v.clone());
            proof {
                assert(strictly_sorted(bytes_seq(set@)));
                if p < keys0.len() {
                    assert(keys0[p as int] != k@);
                }
                lemma_insert_sorted(keys0, k@, p as int);
                assert forall|q: int| 0 <= q < keys0.len() implies keys0[q] != k@ by {
                    if q < p {
                        lemma_bytes_lt_irreflexive(k@);
                    } else if q > p {
                        assert(bytes_lt(keys0[p as int], keys0[q]));
                        lemma_bytes_lt_asymmetric(keys0[p as int], keys0[q]);
                    }
                }
            }
            m.keys.insert(p, k);
            m.originals.insert(p, set);
            proof {
                assert(bytes_seq(m.keys@) =~= keys0.insert(p as int, k@));
                assert forall|i: int| 0 <= i < m.originals@.len() implies strictly_sorted(
                    bytes_seq(#[trigger] m.originals@[i]@),
                ) && m.originals@[i]@.len() > 0 by {
                    if i < p {
                        assert(m.originals@[i] == origs0[i]);
                    } else if i > p {
                        assert(m.originals@[i] == origs0[i - 1]);
                    }
                }
                assert forall|i: int, o: Seq<u8>| 0 <= i < m.keys@.len() implies (
                #[trigger] bytes_seq(m.originals@[i]@).contains(o) <==> sourced(
                    vv,
                    n + 1,
                    mx,
                    m.keys@[i]@,
                    o,
                )) by {
                    let key = m.keys@[i]@;
                    if i != p {
                        let i0 = if i < p { i } else { i - 1 };
                        assert(m.originals@[i] == origs0[i0]);
                        assert(key == keys0[i0]);
                        assert(key != k@);
                    } else {
                        assert(key == k@);
                        if sourced(vv, n, mx, key, o) {
                            let w = choose|w: int| 0 <= w < n && vv[w].1 == o && #[trigger] mirror_key(vv[w].0, vv[w].1, mx) == key;
                            assert(keys0.contains(mirror_key(vv[w].0, vv[w].1, mx)));
                        }
                        if bytes_seq(m.originals@[i]@).contains(o) {
                            assert(o == v@);
                            assert(mirror_key(vv[n].0, vv[n].1, mx) == key);
                        }
                        if o == v@ {
                            assert(bytes_seq(m.originals@[i]@)[0] == o);
                        }
                    }
                    if sourced(vv, n + 1, mx, key, o) {
                        let w = choose|w: int| 0 <= w < n + 1 && vv[w].1 == o && #[trigger] mirror_key(vv[w].0, vv[w].1, mx) == key;
                        if w < n {
                            assert(sourced(vv, n, mx, key, o));
                        }
                    }
                    if sourced(vv, n, mx, key, o) {
                        let w = choose|w: int| 0 <= w < n && vv[w].1 == o && #[trigger] mirror_key(vv[w].0, vv[w].1, mx) == key;
                        assert(sourced(vv, n + 1, mx, key, o));
                    }
                }
                assert forall|w: int| 0 <= w < n + 1 implies #[trigger] bytes_seq(m.keys@).contains(
                    mirror_key(vv[w].0, vv[w].1, mx),
                ) by {
                    if w == n {
                        assert(bytes_seq(m.keys@)[p as int] == k@);
                    } else {
                        let key = mirror_key(vv[w].0, vv[w].1, mx);
                        assert(keys0.contains(key));
                        let q = choose|q: int| 0 <= q < keys0.len() && keys0[q] == key;
                        if q < p {
                            assert(bytes_seq(m.keys@)[q] == key);
                        } else {
                            assert(bytes_seq(m.keys@)[q + 1] == key);
                        }
                    }
                }
            }
        }
        j = j + 1;
    }
    m
}

#[verifier::external_type_specification]
#[verifier::external_body]
#[verifier::reject_recursive_types(W)]
pub struct ExSetBuilder<W>(SetBuilder<W>);

#[verifier::external_type_specification]
#[verifier::external_body]
pub struct ExFstError(fst::Error);

/// The distinct keys inserted so far into an ordered-set builder, in order.
pub uninterp spec fn builder_keys(b: SetBuilder<Vec<u8>>) -> Seq<Seq<u8>>;

/// The serialized ordered set of the given sorted keys.
pub uninterp spec fn fst_set_bytes(keys: Seq<Seq<u8>>) -> Seq<u8>;

/// Relies on `fst::SetBuilder::memory`: a builder that holds no key yet.
#[verifier::external_body]
fn new_set_builder() -> (b: SetBuilder<Vec<u8>>)
    ensures
        builder_keys(b) == Seq::<Seq<u8>>::empty(),
{
    SetBuilder::memory()
}

/// Relies on `fst::SetBuilder::insert` on a `Vec` writer, which cannot
/// fail to write: a key below the last one is refused; a key equal to the
/// last one is accepted and changes nothing; any other key is appended.
#[verifier::external_body]
fn set_builder_insert(b: &mut SetBuilder<Vec<u8>>, key: &[u8]) -> (r: Result<(), fst::Error>)
    ensures
        builder_keys(*old(b)).len() > 0 && bytes_lt(key@, builder_keys(*old(b)).last()) ==> r is Err,
        builder_keys(*old(b)).len() > 0 && key@ == builder_keys(*old(b)).last() ==> (r is Ok
            && builder_keys(*final(b)) == builder_keys(*old(b))),
        (builder_keys(*old(b)).len() == 0 || bytes_lt(builder_keys(*old(b)).last(), key@)) ==> (r is Ok
            && builder_keys(*final(b)) == builder_keys(*old(b)).push(key@)),
{
    b.insert(key)
}

/// Relies on `fst::SetBuilder::into_inner` on a `Vec` writer, which
/// cannot fail to write: the bytes of the set, which depend on its keys
/// alone.
#[verifier::external_body]
fn finish_set_builder(b: SetBuilder<Vec<u8>>) -> (r: Result<Vec<u8>, fst::Error>)
    ensures
        r is Ok,
        r matches Ok(v) ==> v@ == fst_set_bytes(builder_keys(b)),
{
    b.into_inner()
}

/// The key belongs to field `fid`.
pub open spec fn of_field(key: Seq<u8>, fid: u16) -> bool {
    key.len() >= 2 && key.subrange(0, 2) == field_prefix(fid)
}

/// The normalized values of field `fid` among the first `n` keys, in order.
pub open spec fn field_norms(keys: Seq<Seq<u8>>, fid: u16, n: int) -> Seq<Seq<u8>>
    decreases n,
{
    if n <= 0 {
        Seq::empty()
    } else if of_field(keys[n - 1], fid) {
        field_norms(keys, fid, n - 1).push(keys[n - 1].skip(2))
    } else {
        field_norms(keys, fid, n - 1)
    }
}

/// Byte strings that share their first two bytes keep their order once
/// those are dropped.
proof fn lemma_lt_after_common_pair(a: Seq<u8>, b: Seq<u8>)
    requires
        a.len() >= 2,
        b.len() >= 2,
        a[0] == b[0],
        a[1] == b[1],
        bytes_lt(a, b),
    ensures
        bytes_lt(a.skip(2), b.skip(2)),
{
    let a1 = a.drop_first();
    let b1 = b.drop_first();
    assert(bytes_lt(a1, b1));
    assert(a1.len() > 0 && b1.len() > 0 && a1[0] == b1[0]);
    assert(a1.drop_first() =~= a.skip(2));
    assert(b1.drop_first() =~= b.skip(2));
    assert(bytes_lt(a1.drop_first(), b1.drop_first()));
}

/// Builds the prefix set of field `fid`: the ordered set of its normalized
/// values.
pub fn prefix_set_of_field(m: &NormalizedMirror, fid: u16) -> (r: Result<Vec<u8>, FacetError>)
    requires
        strictly_sorted(bytes_seq(m.keys@)),
    ensures
        r matches Ok(b) && b@ == fst_set_bytes(
            field_norms(bytes_seq(m.keys@), fid, m.keys@.len() as int),
        ),
{
    let hi = (fid >> 8u16) as u8;
    let lo = (fid & 0xffu16) as u8;
    let mut builder = new_set_builder();
    let mut i: usize = 0;
    while i < m.keys.len()
        invariant
            i <= m.keys@.len(),
            hi == (fid >> 8u16) as u8,
            lo == (fid & 0xffu16) as u8,
            strictly_sorted(bytes_seq(m.keys@)),
            builder_keys(builder) == field_norms(bytes_seq(m.keys@), fid, i as int),
            builder_keys(builder).len() > 0 ==> exists|j: int|
                0 <= j < i && of_field(#[trigger] bytes_seq(m.keys@)[j], fid) && builder_keys(builder).last()
                    == bytes_seq(m.keys@)[j].skip(2),
        decreases m.keys.len() - i,
    {
        let key = &m.keys[i];
        if key.len() >= 2 && key[0] == hi && key[1] == lo {
            let mut norm: Vec<u8> = Vec::new();
            let mut q: usize = 2;
            while q < key.len()
                invariant
                    2 <= q <= key@.len(),
                    norm@ == key@.subrange(2, q as int),
                decreases key.len() - q,
            {
                norm.push(key[q]);
                q = q + 1;
                assert(key@.subrange(2, q as int) =~= key@.subrange(2, q - 1).push(key[q - 1]));
            }
            assert(key@.subrange(0, 2) =~= field_prefix(fid));
            assert(norm@ =~= key@.skip(2));
            proof {
                let ks = bytes_seq(m.keys@);
                assert(ks[i as int] == key@);
                if builder_keys(builder).len() > 0 {
                    let j = choose|j: int| 0 <= j < i && of_field(#[trigger] ks[j], fid) && builder_keys(builder).last() == ks[j].skip(2);
                    assert(bytes_lt(ks[j], ks[i as int]));
                    assert(ks[j].subrange(0, 2)[0] == ks[j][0] && ks[j].subrange(0, 2)[1] == ks[j][1]);
                    assert(key@.subrange(0, 2)[0] == key@[0] && key@.subrange(0, 2)[1] == key@[1]);
                    lemma_lt_after_common_pair(ks[j], key@);
                }
                assert(builder_keys(builder).len() == 0 || bytes_lt(builder_keys(builder).last(), norm@));
            }
            match set_builder_insert(&mut builder, norm.as_slice()) {
                Ok(()) => {},
                Err(_) => {
                    return Err(FacetError::Storage);
                },
            }
            proof {
                let ks = bytes_seq(m.keys@);
                assert(ks[i as int] == key@);
                assert(of_field(ks[i as int], fid));
                assert(builder_keys(builder).last() == ks[i as int].skip(2));
            }
        } else {
            assert(!of_field(key@, fid)) by {
                if key@.len() >= 2 {
                    assert(key@.subrange(0, 2)[0] == key@[0]);
                    assert(key@.subrange(0, 2)[1] == key@[1]);
                }
            }
        }
        i = i + 1;
    }
    match finish_set_builder(builder) {
        Ok(b) => Ok(b),
        Err(_) => Err(FacetError::Storage),
    }
}

} // verus!
