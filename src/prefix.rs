//! Word-prefix databases: for each prefix, the union of the documents of
//! every word that starts with it.

use crate::docids::{docids_of, empty_docids, union_into};
use crate::order::{bytes_lt, compare_bytes, lemma_bytes_lt_irreflexive};
use crate::search::{has_prefix, starts_with};
use crate::sorted::{bytes_seq, lemma_insert_sorted, position_of, strictly_sorted};
use roaring::RoaringBitmap;
use vstd::prelude::*;

verus! {

/// A sorted key-value database from byte keys to document ids.
pub struct DocidsDatabase {
    pub keys: Vec<Vec<u8>>,
    pub values: Vec<RoaringBitmap>,
}

impl DocidsDatabase {
    /// Keys strictly increase, one value per key.
    pub open spec fn wf(&self) -> bool {
        &&& self.keys@.len() == self.values@.len()
        &&& strictly_sorted(bytes_seq(self.keys@))
    }

    /// The documents stored under `key`, if any.
    pub open spec fn get(&self, key: Seq<u8>) -> Option<Set<u32>> {
        lookup(self.keys@, self.values@, key, self.keys@.len() as int)
    }

    /// An empty database.
    pub fn new() -> (db: DocidsDatabase)
        ensures
            db.wf(),
            forall|k: Seq<u8>| #[trigger] db.get(k) is None,
    {
        let db = DocidsDatabase { keys: Vec::new(), values: Vec::new() };
        assert(bytes_seq(db.keys@) =~= Seq::<Seq<u8>>::empty());
        assert(db.keys@.len() == 0);
        assert forall|k: Seq<u8>| #[trigger] db.get(k) is None by {}
        db
    }
}

/// The value of the last of the first `n` keys equal to `key`.
pub open spec fn lookup(keys: Seq<Vec<u8>>, values: Seq<RoaringBitmap>, key: Seq<u8>, n: int) -> Option<Set<u32>>
    decreases n,
{
    if n <= 0 {
        None
    } else if keys[n - 1]@ == key {
        Some(docids_of(values[n - 1]))
    } else {
        lookup(keys, values, key, n - 1)
    }
}

proof fn lemma_lookup_absent(keys: Seq<Vec<u8>>, values: Seq<RoaringBitmap>, key: Seq<u8>, n: int)
    requires
        n <= keys.len(),
        forall|i: int| 0 <= i < n ==> (#[trigger] keys[i])@ != key,
    ensures
        lookup(keys, values, key, n) is None,
    decreases n,
{
    if n > 0 {
        lemma_lookup_absent(keys, values, key, n - 1);
    }
}

proof fn lemma_lookup_at(keys: Seq<Vec<u8>>, values: Seq<RoaringBitmap>, i: int, n: int)
    requires
        0 <= i < n <= keys.len(),
        forall|j: int| i < j < n ==> (#[trigger] keys[j])@ != keys[i]@,
    ensures
        lookup(keys, values, keys[i]@, n) == Some(docids_of(values[i])),
    decreases n,
{
    if n - 1 > i {
        lemma_lookup_at(keys, values, i, n - 1);
    }
}

/// In a well-formed database the value of the key at `i` is the one stored
/// there.
proof fn lemma_get_at(db: &DocidsDatabase, i: int)
    requires
        db.wf(),
        0 <= i < db.keys@.len(),
    ensures
        db.get(db.keys@[i]@) == Some(docids_of(db.values@[i])),
{
    assert forall|j: int| i < j < db.keys@.len() implies (#[trigger] db.keys@[j])@ != db.keys@[i]@ by {
        assert(bytes_lt(bytes_seq(db.keys@)[i], bytes_seq(db.keys@)[j]));
        lemma_bytes_lt_irreflexive(db.keys@[i]@);
    }
    lemma_lookup_at(db.keys@, db.values@, i, db.keys@.len() as int);
}

/// Documents of the first `n` keys that start with `p`.
pub open spec fn prefix_union(db: &DocidsDatabase, p: Seq<u8>, n: int) -> Set<u32>
    decreases n,
{
    if n <= 0 {
        Set::empty()
    } else if starts_with(db.keys@[n - 1]@, p) {
        prefix_union(db, p, n - 1).union(docids_of(db.values@[n - 1]))
    } else {
        prefix_union(db, p, n - 1)
    }
}

/// Union of the documents of every key that starts with `p`.
pub fn docids_with_prefix(db: &DocidsDatabase, p: &[u8]) -> (r: RoaringBitmap)
    requires
        db.wf(),
    ensures
        docids_of(r) == prefix_union(db, p@, db.keys@.len() as int),
{
    let mut r = empty_docids();
    let mut i: usize = 0;
    while i < db.keys.len()
        invariant
            db.wf(),
            i <= db.keys@.len(),
            docids_of(r) == prefix_union(db, p@, i as int),
        decreases db.keys.len() - i,
    {
        if has_prefix(db.keys[i].as_slice(), p) {
            union_into(&mut r, &db.values[i]);
        }
        i = i + 1;
    }
    r
}

/// Keys of `b` are those of `a`, shifted: `b` lacks the key at `p`, or
/// has one more at `p`.
proof fn lemma_get_frame(a: &DocidsDatabase, b: &DocidsDatabase, key: Seq<u8>, k: Seq<u8>)
    requires
        a.wf(),
        b.wf(),
        k != key,
        forall|i: int| 0 <= i < a.keys@.len() && (#[trigger] a.keys@[i])@ != key ==> exists|j: int|
            0 <= j < b.keys@.len() && (#[trigger] b.keys@[j])@ == a.keys@[i]@ && docids_of(b.values@[j])
                == docids_of(a.values@[i]),
        forall|j: int| 0 <= j < b.keys@.len() && (#[trigger] b.keys@[j])@ != key ==> exists|i: int|
            0 <= i < a.keys@.len() && (#[trigger] a.keys@[i])@ == b.keys@[j]@,
    ensures
        b.get(k) == a.get(k),
{
    if exists|i: int| 0 <= i < a.keys@.len() && (#[trigger] a.keys@[i])@ == k {
        let i = choose|i: int| 0 <= i < a.keys@.len() && (#[trigger] a.keys@[i])@ == k;
        lemma_get_at(a, i);
        let j = choose|j: int| 0 <= j < b.keys@.len() && (#[trigger] b.keys@[j])@ == a.keys@[i]@ && docids_of(b.values@[j]) == docids_of(a.values@[i]);
        lemma_get_at(b, j);
    } else {
        if exists|j: int| 0 <= j < b.keys@.len() && (#[trigger] b.keys@[j])@ == k {
            let j = choose|j: int| 0 <= j < b.keys@.len() && (#[trigger] b.keys@[j])@ == k;
            let i = choose|i: int| 0 <= i < a.keys@.len() && (#[trigger] a.keys@[i])@ == b.keys@[j]@;
            assert(false);
        }
        lemma_lookup_absent(a.keys@, a.values@, k, a.keys@.len() as int);
        lemma_lookup_absent(b.keys@, b.values@, k, b.keys@.len() as int);
    }
}

impl DocidsDatabase {
    /// Removes `key`; tells whether it was there.
    pub fn delete(&mut self, key: &[u8]) -> (r: bool)
        requires
            old(self).wf(),
        ensures
            final(self).wf(),
            r == old(self).get(key@) is Some,
            final(self).get(key@) is None,
            forall|k: Seq<u8>| k != key@ ==> #[trigger] final(self).get(k) == old(self).get(k),
    {
        let ghost before = *self;
        let p = position_of(&self.keys, key);
        if p < self.keys.len() && compare_bytes(self.keys[p].as_slice(), key) == 0 {
            proof {
                lemma_get_at(&before, p as int);
            }
            self.keys.remove(p);
            self.values.remove(p);
            proof {
                assert(bytes_seq(self.keys@) =~= bytes_seq(before.keys@).remove(p as int));
                assert forall|i: int, j: int| 0 <= i < j < bytes_seq(self.keys@).len() implies #[trigger] bytes_lt(
                    bytes_seq(self.keys@)[i],
                    bytes_seq(self.keys@)[j],
                ) by {
                    let i0 = if i < p { i } else { i + 1 };
                    let j0 = if j < p { j } else { j + 1 };
                    assert(bytes_lt(bytes_seq(before.keys@)[i0], bytes_seq(before.keys@)[j0]));
                }
                assert forall|i: int| 0 <= i < self.keys@.len() implies (#[trigger] self.keys@[i])@ != key@ by {
                    let i0 = if i < p { i } else { i + 1 };
                    assert(self.keys@[i] == before.keys@[i0]);
                    lemma_bytes_lt_irreflexive(key@);
                    if i0 < p {
                        assert(bytes_lt(bytes_seq(before.keys@)[i0], bytes_seq(before.keys@)[p as int]));
                    } else {
                        assert(bytes_lt(bytes_seq(before.keys@)[p as int], bytes_seq(before.keys@)[i0]));
                    }
                }
                lemma_lookup_absent(self.keys@, self.values@, key@, self.keys@.len() as int);
                assert forall|k: Seq<u8>| k != key@ implies #[trigger] self.get(k) == before.get(k) by {
                    assert forall|i: int| 0 <= i < before.keys@.len() && (#[trigger] before.keys@[i])@ != key@ implies exists|j: int|
                        0 <= j < self.keys@.len() && (#[trigger] self.keys@[j])@ == before.keys@[i]@ && docids_of(self.values@[j])
                            == docids_of(before.values@[i]) by {
                        let j = if i < p { i } else { i - 1 };
                        assert(self.keys@[j] == before.keys@[i]);
                    }
                    assert forall|j: int| 0 <= j < self.keys@.len() && (#[trigger] self.keys@[j])@ != key@ implies exists|i: int|
                        0 <= i < before.keys@.len() && (#[trigger] before.keys@[i])@ == self.keys@[j]@ by {
                        let i = if j < p { j } else { j + 1 };
                        assert(self.keys@[j] == before.keys@[i]);
                    }
                    lemma_get_frame(&before, self, key@, k);
                }
            }
            true
        } else {
            proof {
                assert forall|i: int| 0 <= i < before.keys@.len() implies (#[trigger] before.keys@[i])@ != key@ by {
                    lemma_bytes_lt_irreflexive(key@);
                    if i > p {
                        assert(bytes_lt(bytes_seq(before.keys@)[p as int], bytes_seq(before.keys@)[i]));
                    }
                }
                lemma_lookup_absent(before.keys@, before.values@, key@, before.keys@.len() as int);
            }
            false
        }
    }

    /// Adds `key`, which the database does not hold, with `value`.
    fn insert_new(&mut self, key: &Vec<u8>, value: RoaringBitmap)
        requires
            old(self).wf(),
            old(self).get(key@) is None,
        ensures
            final(self).wf(),
            final(self).get(key@) == Some(docids_of(value)),
            forall|k: Seq<u8>| k != key@ ==> #[trigger] final(self).get(k) == old(self).get(k),
    {
        let ghost before = *self;
        let p = position_of(&self.keys, key.as_slice());
        proof {
            if p < before.keys@.len() && before.keys@[p as int]@ == key@ {
                lemma_get_at(&before, p as int);
            }
            lemma_insert_sorted(bytes_seq(before.keys@), key@, p as int);
        }
        self.keys.insert(p, key.clone());
        self.values.insert(p, value);
        proof {
            assert(bytes_seq(self.keys@) =~= bytes_seq(before.keys@).insert(p as int, key@));
            lemma_get_at(self, p as int);
            assert forall|k: Seq<u8>| k != key@ implies #[trigger] self.get(k) == before.get(k) by {
                assert forall|i: int| 0 <= i < before.keys@.len() && (#[trigger] before.keys@[i])@ != key@ implies exists|j: int|
                    0 <= j < self.keys@.len() && (#[trigger] self.keys@[j])@ == before.keys@[i]@ && docids_of(self.values@[j])
                        == docids_of(before.values@[i]) by {
                    let j = if i < p { i } else { i + 1 };
                    assert(self.keys@[j] == before.keys@[i]);
                    assert(self.values@[j] == before.values@[i]);
                }
                assert forall|j: int| 0 <= j < self.keys@.len() && (#[trigger] self.keys@[j])@ != key@ implies exists|i: int|
                    0 <= i < before.keys@.len() && (#[trigger] before.keys@[i])@ == self.keys@[j]@ by {
                    let i = if j < p { j } else { j - 1 };
                    assert(self.keys@[j] == before.keys@[i]);
                }
                lemma_get_frame(&before, self, key@, k);
            }
        }
    }

    /// Stores `value` under `key`, replacing what was there.
    pub fn put(&mut self, key: &Vec<u8>, value: RoaringBitmap)
        requires
            old(self).wf(),
        ensures
            final(self).wf(),
            final(self).get(key@) == Some(docids_of(value)),
            forall|k: Seq<u8>| k != key@ ==> #[trigger] final(self).get(k) == old(self).get(k),
    {
        let ghost before = *self;
        self.delete(key.as_slice());
        let ghost mid = *self;
        self.insert_new(key, value);
        assert forall|k: Seq<u8>| k != key@ implies #[trigger] self.get(k) == before.get(k) by {
            assert(self.get(k) == mid.get(k));
            assert(mid.get(k) == before.get(k));
        }
    }
}

/// Deletes every prefix of `to_delete`, then stores under every prefix of
/// `to_compute` the union of the documents of the words that start with it.
fn update_prefixes(
    words: &DocidsDatabase,
    prefixes: &mut DocidsDatabase,
    to_compute: &Vec<Vec<u8>>,
    to_delete: &Vec<Vec<u8>>,
)
    requires
        words.wf(),
        old(prefixes).wf(),
        forall|a: int, b: int| 0 <= a < b < to_delete@.len() ==> (#[trigger] to_delete@[a])@ != (#[trigger] to_delete@[b])@,
        forall|a: int| 0 <= a < to_delete@.len() ==> old(prefixes).get((#[trigger] to_delete@[a])@) is Some,
    ensures
        final(prefixes).wf(),
        forall|a: int| 0 <= a < to_compute@.len() ==> final(prefixes).get((#[trigger] to_compute@[a])@) == Some(
            prefix_union(words, to_compute@[a]@, words.keys@.len() as int),
        ),
        forall|k: Seq<u8>| (forall|a: int| 0 <= a < to_compute@.len() ==> (#[trigger] to_compute@[a])@ != k) ==> #[trigger] final(prefixes).get(k) == if exists|a: int| 0 <= a < to_delete@.len() && (#[trigger] to_delete@[a])@ == k {
            None
        } else {
            old(prefixes).get(k)
        },
{
    let ghost start = *prefixes;
    let mut d: usize = 0;
    while d < to_delete.len()
        invariant
            prefixes.wf(),
            d <= to_delete@.len(),
            forall|a: int, b: int| 0 <= a < b < to_delete@.len() ==> (#[trigger] to_delete@[a])@ != (#[trigger] to_delete@[b])@,
            forall|a: int| d <= a < to_delete@.len() ==> prefixes.get((#[trigger] to_delete@[a])@) is Some,
            forall|k: Seq<u8>| #[trigger] prefixes.get(k) == if exists|a: int| 0 <= a < d && (#[trigger] to_delete@[a])@ == k {
                None
            } else {
                start.get(k)
            },
        decreases to_delete.len() - d,
    {
        let ghost before = *prefixes;
        let found = prefixes.delete(to_delete[d].as_slice());
        proof {
            let key = to_delete@[d as int]@;
            assert(found);
            assert forall|a: int| d + 1 <= a < to_delete@.len() implies prefixes.get((#[trigger] to_delete@[a])@) is Some by {
                assert(to_delete@[d as int]@ != to_delete@[a]@);
            }
            assert forall|k: Seq<u8>| #[trigger] prefixes.get(k) == if exists|a: int| 0 <= a < d + 1 && (#[trigger] to_delete@[a])@ == k {
                None
            } else {
                start.get(k)
            } by {
                if k != key {
                    assert(prefixes.get(k) == before.get(k));
                    if exists|a: int| 0 <= a < d + 1 && (#[trigger] to_delete@[a])@ == k {
                        let a = choose|a: int| 0 <= a < d + 1 && (#[trigger] to_delete@[a])@ == k;
                        assert(a < d);
                    }
                } else {
                    assert(to_delete@[d as int]@ == k);
                }
            }
        }
        d = d + 1;
    }
    let ghost after_delete = *prefixes;
    let mut c: usize = 0;
    while c < to_compute.len()
        invariant
            words.wf(),
            prefixes.wf(),
            c <= to_compute@.len(),
            forall|a: int| 0 <= a < c ==> prefixes.get((#[trigger] to_compute@[a])@) == Some(
                prefix_union(words, to_compute@[a]@, words.keys@.len() as int),
            ),
            forall|k: Seq<u8>| (forall|a: int| 0 <= a < c ==> (#[trigger] to_compute@[a])@ != k) ==> #[trigger] prefixes.get(k) == after_delete.get(k),
        decreases to_compute.len() - c,
    {
        let ghost before = *prefixes;
        let docids = docids_with_prefix(words, to_compute[c].as_slice());
        prefixes.put(&to_compute[c], docids);
        proof {
            let key = to_compute@[c as int]@;
            assert forall|a: int| 0 <= a < c + 1 implies prefixes.get((#[trigger] to_compute@[a])@) == Some(
                prefix_union(words, to_compute@[a]@, words.keys@.len() as int),
            ) by {
                if to_compute@[a]@ != key {
                    assert(prefixes.get(to_compute@[a]@) == before.get(to_compute@[a]@));
                }
            }
            assert forall|k: Seq<u8>| (forall|a: int| 0 <= a < c + 1 ==> (#[trigger] to_compute@[a])@ != k) implies #[trigger] prefixes.get(k) == after_delete.get(k) by {
                assert(to_compute@[c as int]@ != k);
                assert(prefixes.get(k) == before.get(k));
            }
        }
        c = c + 1;
    }
}

/// Brings the word-prefix database up to date: removes the prefixes of
/// `to_delete`, each of which it must hold, and recomputes those of
/// `to_compute` from the word database.
pub fn compute_word_prefix_docids(
    words: &DocidsDatabase,
    prefixes: &mut DocidsDatabase,
    to_compute: &Vec<Vec<u8>>,
    to_delete: &Vec<Vec<u8>>,
)
    requires
        words.wf(),
        old(prefixes).wf(),
        forall|a: int, b: int| 0 <= a < b < to_delete@.len() ==> (#[trigger] to_delete@[a])@ != (#[trigger] to_delete@[b])@,
        forall|a: int| 0 <= a < to_delete@.len() ==> old(prefixes).get((#[trigger] to_delete@[a])@) is Some,
    ensures
        final(prefixes).wf(),
        forall|a: int| 0 <= a < to_compute@.len() ==> final(prefixes).get((#[trigger] to_compute@[a])@) == Some(
            prefix_union(words, to_compute@[a]@, words.keys@.len() as int),
        ),
        forall|k: Seq<u8>| (forall|a: int| 0 <= a < to_compute@.len() ==> (#[trigger] to_compute@[a])@ != k) ==> #[trigger] final(prefixes).get(k) == if exists|a: int| 0 <= a < to_delete@.len() && (#[trigger] to_delete@[a])@ == k {
            None
        } else {
            old(prefixes).get(k)
        },
{
    update_prefixes(words, prefixes, to_compute, to_delete);
}

/// The same update for the database of prefixes by field: `words` maps
/// each word-and-field key to its documents.
pub fn compute_word_prefix_fid_docids(
    words: &DocidsDatabase,
    prefixes: &mut DocidsDatabase,
    to_compute: &Vec<Vec<u8>>,
    to_delete: &Vec<Vec<u8>>,
)
    requires
        words.wf(),
        old(prefixes).wf(),
        forall|a: int, b: int| 0 <= a < b < to_delete@.len() ==> (#[trigger] to_delete@[a])@ != (#[trigger] to_delete@[b])@,
        forall|a: int| 0 <= a < to_delete@.len() ==> old(prefixes).get((#[trigger] to_delete@[a])@) is Some,
    ensures
        final(prefixes).wf(),
        forall|a: int| 0 <= a < to_compute@.len() ==> final(prefixes).get((#[trigger] to_compute@[a])@) == Some(
            prefix_union(words, to_compute@[a]@, words.keys@.len() as int),
        ),
        forall|k: Seq<u8>| (forall|a: int| 0 <= a < to_compute@.len() ==> (#[trigger] to_compute@[a])@ != k) ==> #[trigger] final(prefixes).get(k) == if exists|a: int| 0 <= a < to_delete@.len() && (#[trigger] to_delete@[a])@ == k {
            None
        } else {
            old(prefixes).get(k)
        },
{
    update_prefixes(words, prefixes, to_compute, to_delete);
}

/// The same update for the database of prefixes by position: `words` maps
/// each word-and-position key to its documents.
pub fn compute_word_prefix_position_docids(
    words: &DocidsDatabase,
    prefixes: &mut DocidsDatabase,
    to_compute: &Vec<Vec<u8>>,
    to_delete: &Vec<Vec<u8>>,
)
    requires
        words.wf(),
        old(prefixes).wf(),
        forall|a: int, b: int| 0 <= a < b < to_delete@.len() ==> (#[trigger] to_delete@[a])@ != (#[trigger] to_delete@[b])@,
        forall|a: int| 0 <= a < to_delete@.len() ==> old(prefixes).get((#[trigger] to_delete@[a])@) is Some,
    ensures
        final(prefixes).wf(),
        forall|a: int| 0 <= a < to_compute@.len() ==> final(prefixes).get((#[trigger] to_compute@[a])@) == Some(
            prefix_union(words, to_compute@[a]@, words.keys@.len() as int),
        ),
        forall|k: Seq<u8>| (forall|a: int| 0 <= a < to_compute@.len() ==> (#[trigger] to_compute@[a])@ != k) ==> #[trigger] final(prefixes).get(k) == if exists|a: int| 0 <= a < to_delete@.len() && (#[trigger] to_delete@[a])@ == k {
            None
        } else {
            old(prefixes).get(k)
        },
{
    update_prefixes(words, prefixes, to_compute, to_delete);
}

} // verus!
