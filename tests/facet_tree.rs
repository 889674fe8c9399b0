use facet_index::codec::{encode_f64_bits, encode_key, decode_key, truncate_value};
use facet_index::order::compare_bytes;
use facet_index::tree::{FacetTree, TreeConfig, FACET_GROUP_SIZE, FACET_MIN_LEVEL_SIZE, FACET_MAX_GROUP_SIZE};
use facet_index::update::{choose_update_method, LeafDelta, UpdateMethod};
use roaring::RoaringBitmap;

fn config() -> TreeConfig {
    TreeConfig {
        group_size: FACET_GROUP_SIZE,
        min_level_size: FACET_MIN_LEVEL_SIZE,
        max_group_size: FACET_MAX_GROUP_SIZE,
    }
}

fn bitmap(ids: &[u32]) -> RoaringBitmap {
    let mut b = RoaringBitmap::new();
    for &i in ids {
        b.insert(i);
    }
    b
}

fn add(bound: Vec<u8>, ids: &[u32]) -> LeafDelta {
    LeafDelta { bound, del: RoaringBitmap::new(), add: bitmap(ids) }
}

fn del(bound: Vec<u8>, ids: &[u32]) -> LeafDelta {
    LeafDelta { bound, del: bitmap(ids), add: RoaringBitmap::new() }
}

fn num(x: f64) -> Vec<u8> {
    encode_f64_bits(x.to_bits())
}

/// Levels as (bound, size, docids) triples.
fn snapshot(t: &FacetTree) -> Vec<Vec<(Vec<u8>, u8, Vec<u32>)>> {
    t.levels
        .iter()
        .map(|l| l.iter().map(|n| (n.bound.clone(), n.size, n.docids.iter().collect())).collect())
        .collect()
}

fn price_tree() -> FacetTree {
    // a..f are documents 0..5
    let mut t = FacetTree::new_empty();
    let deltas = vec![
        add(num(1.0), &[0]),
        add(num(2.5), &[1, 2]),
        add(num(10.0), &[3, 4]),
        add(num(42.0), &[5]),
    ];
    t.bulk_update(&deltas, config());
    t
}

#[test]
fn numeric_filter_min_max() {
    let t = price_tree();
    let r = t.filter(Some(&num(2.0)), Some(&num(10.5)), config());
    assert_eq!(r.iter().collect::<Vec<u32>>(), vec![1, 2, 3, 4]);
    let cands = bitmap(&[0, 1, 5]);
    assert_eq!(t.min_value(&cands, config()), Some(num(1.0)));
    assert_eq!(t.max_value(&cands, config()), Some(num(42.0)));
    assert_eq!(t.min_value(&bitmap(&[9]), config()), None);
}

#[test]
fn filter_unbounded_and_inclusive_ends() {
    let t = price_tree();
    assert_eq!(t.filter(None, None, config()).len(), 6);
    assert_eq!(t.filter(Some(&num(2.5)), Some(&num(10.0)), config()).iter().collect::<Vec<u32>>(), vec![1, 2, 3, 4]);
    assert_eq!(t.filter(Some(&num(42.5)), None, config()).len(), 0);
    assert_eq!(t.filter(None, Some(&num(1.0)), config()).iter().collect::<Vec<u32>>(), vec![0]);
}

#[test]
fn bulk_build_groups_by_four() {
    let mut t = FacetTree::new_empty();
    let deltas: Vec<LeafDelta> = (0u8..10).map(|i| add(vec![b'a' + i], &[i as u32])).collect();
    t.bulk_update(&deltas, config());
    let s = snapshot(&t);
    assert_eq!(s.len(), 2);
    assert_eq!(s[0].len(), 10);
    assert_eq!(
        s[1],
        vec![
            (vec![b'a'], 4, vec![0, 1, 2, 3]),
            (vec![b'e'], 4, vec![4, 5, 6, 7]),
            (vec![b'i'], 2, vec![8, 9]),
        ]
    );
}

#[test]
fn bulk_build_three_levels() {
    let mut t = FacetTree::new_empty();
    let deltas: Vec<LeafDelta> = (0u32..20).map(|i| add(vec![(i / 10) as u8, (i % 10) as u8], &[i])).collect();
    t.bulk_update(&deltas, config());
    let s = snapshot(&t);
    assert_eq!(s.iter().map(|l| l.len()).collect::<Vec<usize>>(), vec![20, 5, 2]);
    assert_eq!(s[2][0].1, 4);
    assert_eq!(s[2][1].1, 1);
    assert_eq!(s[2][1].2, vec![16, 17, 18, 19]);
}

#[test]
fn small_field_has_only_leaves() {
    let mut t = FacetTree::new_empty();
    let deltas: Vec<LeafDelta> = (0u8..4).map(|i| add(vec![i], &[i as u32])).collect();
    t.bulk_update(&deltas, config());
    assert_eq!(t.levels.len(), 1);
    assert_eq!(t.leaf_count(), 4);
}

#[test]
fn deletions_before_additions_and_empty_leaf_removed() {
    let mut t = FacetTree::new_empty();
    t.bulk_update(&vec![add(b"x".to_vec(), &[1, 2]), add(b"y".to_vec(), &[3])], config());
    let d = LeafDelta { bound: b"x".to_vec(), del: bitmap(&[1, 2]), add: bitmap(&[2]) };
    t.bulk_update(&vec![d, del(b"y".to_vec(), &[3])], config());
    let s = snapshot(&t);
    assert_eq!(s, vec![vec![(b"x".to_vec(), 0, vec![2])]]);
}

#[test]
fn add_then_delete_restores_leaves() {
    let mut t = FacetTree::new_empty();
    let deltas: Vec<LeafDelta> = (0u8..12).map(|i| add(vec![i * 2], &[i as u32])).collect();
    t.bulk_update(&deltas, config());
    let before = snapshot(&t);
    t.incremental_update(&add(vec![5], &[99]), config());
    assert_eq!(t.leaf_count(), 13);
    t.incremental_update(&del(vec![5], &[99]), config());
    assert_eq!(snapshot(&t), before);
    t.incremental_update(&add(vec![4], &[77]), config());
    t.incremental_update(&del(vec![4], &[77]), config());
    assert_eq!(snapshot(&t), before);
}

#[test]
fn bulk_and_incremental_agree() {
    let values: Vec<(Vec<u8>, u32)> = (0u32..17).map(|i| (vec![(i * 7 % 17) as u8], i)).collect();
    let mut sorted = values.clone();
    sorted.sort();
    let mut bulk = FacetTree::new_empty();
    let deltas: Vec<LeafDelta> = sorted.iter().map(|(b, d)| add(b.clone(), &[*d])).collect();
    bulk.bulk_update(&deltas, config());
    let mut inc = FacetTree::new_empty();
    for (b, d) in &values {
        inc.incremental_update(&add(b.clone(), &[*d]), config());
    }
    assert_eq!(snapshot(&bulk), snapshot(&inc));
}

#[test]
fn update_selector_threshold() {
    assert_eq!(choose_update_method(0, 1), UpdateMethod::Bulk);
    assert_eq!(choose_update_method(49, 1), UpdateMethod::Bulk);
    assert_eq!(choose_update_method(50, 1), UpdateMethod::Incremental);
    assert_eq!(choose_update_method(98, 2), UpdateMethod::Bulk);
    assert_eq!(choose_update_method(99, 2), UpdateMethod::Incremental);
    assert_eq!(choose_update_method(u64::MAX, u64::MAX), UpdateMethod::Bulk);
}

#[test]
fn update_dispatches_both_ways() {
    let mut t = FacetTree::new_empty();
    let deltas: Vec<LeafDelta> = (0u8..100).map(|i| add(vec![i], &[i as u32])).collect();
    t.update(&deltas, config());
    assert_eq!(t.leaf_count(), 100);
    t.update(&vec![add(vec![200], &[500])], config());
    assert_eq!(t.leaf_count(), 101);
    let s = snapshot(&t);
    assert_eq!(s.last().unwrap().len() < 5, true);
}

#[test]
fn key_layout() {
    let k = encode_key(0x0102, 3, b"abc");
    assert_eq!(k, vec![1, 2, 3, b'a', b'b', b'c']);
    assert_eq!(decode_key(&k), Some((0x0102, 3, b"abc".to_vec())));
    assert_eq!(decode_key(&[1, 2]), None);
}

#[test]
fn float_bounds_sort_numerically() {
    let xs = [-1e300, -2.5, -1.0, -0.0, 0.0, 1e-300, 1.0, 2.5, 10.0, 1e300];
    for w in xs.windows(2) {
        let c = compare_bytes(&num(w[0]), &num(w[1]));
        if w[0] == w[1] {
            assert_eq!(c, 0);
        } else {
            assert!(c < 0, "{} {}", w[0], w[1]);
        }
    }
    assert_eq!(num(1.0), vec![0xbf, 0xf0, 0, 0, 0, 0, 0, 0]);
    assert_eq!(num(-0.0), num(0.0));
}

#[test]
fn truncation_on_char_boundary() {
    let s = "aé".as_bytes();
    assert_eq!(truncate_value(s, 2), b"a".to_vec());
    assert_eq!(truncate_value(s, 3), s.to_vec());
    assert_eq!(truncate_value(b"abcdef", 4), b"abcd".to_vec());
    assert_eq!(truncate_value("ééé".as_bytes(), 5), "éé".as_bytes().to_vec());
}

#[test]
fn distribution_in_value_and_count_order() {
    let t = price_tree();
    let cands = bitmap(&[0, 1, 2, 5]);
    assert_eq!(t.distribution(&cands, 10, false), vec![(num(1.0), 1), (num(2.5), 2), (num(42.0), 1)]);
    assert_eq!(t.distribution(&cands, 2, true), vec![(num(2.5), 2), (num(1.0), 1)]);
    assert_eq!(t.distribution(&cands, 1, false), vec![(num(1.0), 1)]);
    assert_eq!(t.distribution(&bitmap(&[7]), 10, false), vec![]);
}

#[test]
fn sorted_groups_follow_value_order() {
    let t = price_tree();
    let groups: Vec<Vec<u32>> =
        t.sorted_groups(&bitmap(&[0, 2, 4, 5, 9])).iter().map(|b| b.iter().collect()).collect();
    assert_eq!(groups, vec![vec![0], vec![2], vec![4], vec![5]]);
}

#[test]
fn filter_walks_many_levels() {
    let mut t = FacetTree::new_empty();
    let deltas: Vec<LeafDelta> = (0u32..100).map(|i| add(vec![i as u8], &[i, 1000 + i])).collect();
    t.bulk_update(&deltas, config());
    assert_eq!(t.levels.len(), 4);
    for (lo, hi) in [(17u8, 63u8), (0, 99), (4, 4), (3, 12), (96, 200), (50, 10)] {
        let r = t.filter(Some(&vec![lo]), Some(&vec![hi]), config());
        let mut expected = RoaringBitmap::new();
        for i in 0u32..100 {
            if lo as u32 <= i && i <= hi as u32 {
                expected.insert(i);
                expected.insert(1000 + i);
            }
        }
        assert_eq!(r, expected, "{} {}", lo, hi);
    }
    assert_eq!(t.filter(None, Some(&vec![9]), config()).len(), 20);
    assert_eq!(t.filter(Some(&vec![90]), None, config()).len(), 20);
}

#[test]
fn min_max_descend_many_levels() {
    let mut t = FacetTree::new_empty();
    let deltas: Vec<LeafDelta> = (0u32..100).map(|i| add(vec![i as u8], &[i])).collect();
    t.bulk_update(&deltas, config());
    assert_eq!(t.min_value(&bitmap(&[57, 23, 88]), config()), Some(vec![23]));
    assert_eq!(t.max_value(&bitmap(&[57, 23, 88]), config()), Some(vec![88]));
    assert_eq!(t.min_value(&bitmap(&[99]), config()), Some(vec![99]));
    assert_eq!(t.max_value(&bitmap(&[0]), config()), Some(vec![0]));
    assert_eq!(t.max_value(&bitmap(&[500]), config()), None);
}
