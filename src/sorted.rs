//! Sorted sets of byte strings held in a `Vec`.

use crate::order::{bytes_lt, compare_bytes, lemma_bytes_lt_total, lemma_bytes_lt_transitive};
use vstd::prelude::*;

verus! {

/// The byte strings of a vector of buffers.
pub open spec fn bytes_seq(v: Seq<Vec<u8>>) -> Seq<Seq<u8>> {
    v.map_values(|b: Vec<u8>| b@)
}

/// Strictly increasing, hence without repetition.
pub open spec fn strictly_sorted(s: Seq<Seq<u8>>) -> bool {
    forall|i: int, j: int| 0 <= i < j < s.len() ==> #[trigger] bytes_lt(s[i], s[j])
}

/// Finds where `x` belongs in a sorted sequence: every element before the
/// returned index sorts before `x`, the one at it (if any) does not.
pub fn position_of(s: &Vec<Vec<u8>>, x: &[u8]) -> (p: usize)
    ensures
        p <= s@.len(),
        forall|k: int| 0 <= k < p ==> #[trigger] bytes_lt(s@[k]@, x@),
        p < s@.len() ==> !bytes_lt(s@[p as int]@, x@),
{
    let mut p: usize = 0;
    while p < s.len() && compare_bytes(s[p].as_slice(), x) < 0
        invariant
            p <= s@.len(),
            forall|k: int| 0 <= k < p ==> #[trigger] bytes_lt(s@[k]@, x@),
        decreases s.len() - p,
    {
        p = p + 1;
    }
    p
}

/// Inserting `x` at a position found by `position_of`, where it is absent,
/// keeps a sorted sequence sorted.
pub proof fn lemma_insert_sorted(s: Seq<Seq<u8>>, x: Seq<u8>, p: int)
    requires
        strictly_sorted(s),
        0 <= p <= s.len(),
        forall|k: int| 0 <= k < p ==> #[trigger] bytes_lt(s[k], x),
        p < s.len() ==> !bytes_lt(s[p], x) && s[p] != x,
    ensures
        strictly_sorted(s.insert(p, x)),
{
    if p < s.len() {
        lemma_bytes_lt_total(s[p], x);
    }
    let t = s.insert(p, x);
    assert forall|i: int, j: int| 0 <= i < j < t.len() implies #[trigger] bytes_lt(t[i], t[j]) by {
        if j < p {
            assert(bytes_lt(s[i], s[j]));
        } else if j == p {
            assert(bytes_lt(s[i], x));
        } else if i == p {
            if j - 1 > p {
                assert(bytes_lt(s[p], s[j - 1]));
                lemma_bytes_lt_transitive(x, s[p], s[j - 1]);
            }
        } else if i < p {
            assert(bytes_lt(s[i], x));
            if j - 1 > p {
                assert(bytes_lt(s[p], s[j - 1]));
                lemma_bytes_lt_transitive(x, s[p], s[j - 1]);
            }
            lemma_bytes_lt_transitive(s[i], x, s[j - 1]);
        } else {
            assert(bytes_lt(s[i - 1], s[j - 1]));
        }
    }
}

/// Adds `x` to a sorted set of byte strings.
pub fn insert_sorted(set: &mut Vec<Vec<u8>>, x: &Vec<u8>)
    requires
        strictly_sorted(bytes_seq(old(set)@)),
    ensures
        strictly_sorted(bytes_seq(final(set)@)),
        forall|y: Seq<u8>|
            #[trigger] bytes_seq(final(set)@).contains(y) <==> bytes_seq(old(set)@).contains(y)
                || y == x@,
{
    let p = position_of(set, x.as_slice());
    let ghost before = bytes_seq(set@);
    if p < set.len() && compare_bytes(set[p].as_slice(), x.as_slice()) == 0 {
        assert(before[p as int] == x@);
        assert(before.contains(x@));
        return;
    }
    set.insert(p, x.clone());
    proof {
        assert(bytes_seq(set@) =~= before.insert(p as int, x@));
        lemma_insert_sorted(before, x@, p as int);
        assert forall|y: Seq<u8>| #[trigger] bytes_seq(set@).contains(y) <==> before.contains(y)
            || y == x@ by {
            let after = bytes_seq(set@);
            if after.contains(y) {
                let i = choose|i: int| 0 <= i < after.len() && after[i] == y;
                if i < p {
                    assert(before[i] == y);
                } else if i > p {
                    assert(before[i - 1] == y);
                }
            }
            if before.contains(y) {
                let i = choose|i: int| 0 <= i < before.len() && before[i] == y;
                if i < p {
                    assert(after[i] == y);
                } else {
                    assert(after[i + 1] == y);
                }
            }
            if y == x@ {
                assert(after[p as int] == y);
            }
        }
    }
}

} // verus!
