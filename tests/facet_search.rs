use facet_index::error::FacetError;
use facet_index::index::{FacetIndex, FacetType, FacetsUpdate, FieldDeltas};
use facet_index::codec::encode_f64_bits;
use facet_index::search::{facet_search, range_filter, SearchSettings};
use facet_index::tree::TreeConfig;
use facet_index::update::LeafDelta;
use roaring::RoaringBitmap;

const GENRES: u16 = 0;

fn corpus() -> Vec<(u32, Vec<&'static str>)> {
    vec![
        (287947, vec!["Action", "Adventure"]),
        (299537, vec!["Action", "Adventure"]),
        (522681, vec!["Horror", "Thriller", "Multiple Words"]),
        (166428, vec!["Action", "Comedy"]),
        (450465, vec!["Thriller"]),
    ]
}

fn load_index() -> FacetIndex {
    let mut values: Vec<&str> = Vec::new();
    for (_, genres) in corpus() {
        for g in genres {
            if !values.contains(&g) {
                values.push(g);
            }
        }
    }
    values.sort();
    let mut deltas = Vec::new();
    for v in values {
        let mut add = RoaringBitmap::new();
        for (id, genres) in corpus() {
            if genres.contains(&v) {
                add.insert(id);
            }
        }
        deltas.push(LeafDelta { bound: v.as_bytes().to_vec(), del: RoaringBitmap::new(), add });
    }
    let mut index = FacetIndex::new();
    let update =
        FacetsUpdate::new(FacetType::String, vec![FieldDeltas { fid: GENRES, deltas }]);
    update.execute(&mut index).unwrap();
    index
}

fn settings() -> SearchSettings {
    SearchSettings {
        facet_search: true,
        filterable: vec![GENRES],
        max_values: 100,
        sort_by_count: false,
        typo_tolerance: true,
        disable_on_words: vec![],
    }
}

fn hits(index: &FacetIndex, s: &SearchSettings, q: &str) -> Result<Vec<(String, u64)>, FacetError> {
    facet_search(index, s, GENRES, q.as_bytes(), None)
        .map(|h| h.into_iter().map(|(v, c)| (String::from_utf8(v).unwrap(), c)).collect())
}

#[test]
fn simple_facet_search() {
    let index = load_index();
    let s = settings();
    let h = hits(&index, &s, "a").unwrap();
    assert_eq!(h.len(), 2);
    assert_eq!(h, vec![("Action".to_string(), 3), ("Adventure".to_string(), 2)]);
    let h = hits(&index, &s, "adventure").unwrap();
    assert_eq!(h.len(), 1);
}

#[test]
fn advanced_facet_search() {
    let index = load_index();
    let mut s = settings();
    s.typo_tolerance = false;
    assert_eq!(hits(&index, &s, "adventre").unwrap().len(), 0);
    let h = hits(&index, &s, "àdventure").unwrap();
    assert_eq!(h, vec![("Adventure".to_string(), 2)]);
}

#[test]
fn more_advanced_facet_search() {
    let index = load_index();
    let mut s = settings();
    s.disable_on_words = vec![b"adventre".to_vec()];
    assert_eq!(hits(&index, &s, "adventre").unwrap().len(), 0);
    assert_eq!(hits(&index, &s, "adventure").unwrap().len(), 1);
}

#[test]
fn simple_facet_search_with_max_values() {
    let index = load_index();
    let mut s = settings();
    s.max_values = 1;
    let h = hits(&index, &s, "a").unwrap();
    assert_eq!(h.len(), 1);
}

#[test]
fn simple_facet_search_by_count_with_max_values() {
    let index = load_index();
    let mut s = settings();
    s.max_values = 1;
    s.sort_by_count = true;
    let h = hits(&index, &s, "a").unwrap();
    assert_eq!(h.len(), 1);
    assert_eq!(h, vec![("Action".to_string(), 3)]);
}

#[test]
fn non_filterable_facet_search_error() {
    let index = load_index();
    let mut s = settings();
    s.filterable = vec![];
    assert_eq!(hits(&index, &s, "a"), Err(FacetError::NotFilterable));
    assert_eq!(hits(&index, &s, "adv"), Err(FacetError::NotFilterable));
}

#[test]
fn facet_search_dont_support_words() {
    let index = load_index();
    let s = settings();
    assert_eq!(hits(&index, &s, "words").unwrap().len(), 0);
}

#[test]
fn simple_facet_search_with_sort_by_count() {
    let index = load_index();
    let mut s = settings();
    s.sort_by_count = true;
    let h = hits(&index, &s, "a").unwrap();
    assert_eq!(h.len(), 2);
    assert_eq!(h[0], ("Action".to_string(), 3));
    assert_eq!(h[1], ("Adventure".to_string(), 2));
}

#[test]
fn add_documents_and_deactivate_facet_search() {
    let index = load_index();
    let mut s = settings();
    s.facet_search = false;
    assert_eq!(hits(&index, &s, "a"), Err(FacetError::SearchDisabled));
}

#[test]
fn deactivate_facet_search_and_add_documents() {
    let mut s = settings();
    s.facet_search = false;
    let index = load_index();
    assert_eq!(hits(&index, &s, "a"), Err(FacetError::SearchDisabled));
}

#[test]
fn deactivate_facet_search_add_documents_and_activate_facet_search() {
    let mut s = settings();
    s.facet_search = false;
    let index = load_index();
    s.facet_search = true;
    assert_eq!(hits(&index, &s, "a").unwrap().len(), 2);
}

#[test]
fn deactivate_facet_search_add_documents_and_reset_facet_search() {
    let mut s = settings();
    s.facet_search = false;
    let index = load_index();
    s = settings();
    assert_eq!(hits(&index, &s, "a").unwrap().len(), 2);
}

#[test]
fn facet_search_counts_only_candidates() {
    let index = load_index();
    let s = settings();
    let mut cands = RoaringBitmap::new();
    cands.insert(166428);
    cands.insert(450465);
    let h: Vec<(String, u64)> = facet_search(&index, &s, GENRES, b"", Some(&cands))
        .unwrap()
        .into_iter()
        .map(|(v, c)| (String::from_utf8(v).unwrap(), c))
        .collect();
    assert_eq!(
        h,
        vec![("Action".to_string(), 1), ("Comedy".to_string(), 1), ("Thriller".to_string(), 1)]
    );
}

#[test]
fn mirror_groups_originals_by_normalized_form() {
    let mut index = FacetIndex::new();
    let mut deltas = Vec::new();
    for v in ["ACTION", "Action", "action"] {
        let mut add = RoaringBitmap::new();
        add.insert(v.len() as u32 + v.as_bytes()[1] as u32);
        deltas.push(LeafDelta { bound: v.as_bytes().to_vec(), del: RoaringBitmap::new(), add });
    }
    FacetsUpdate::new(FacetType::String, vec![FieldDeltas { fid: 7, deltas }])
        .execute(&mut index)
        .unwrap();
    assert_eq!(index.mirror.keys, vec![vec![0u8, 7, b'a', b'c', b't', b'i', b'o', b'n']]);
    assert_eq!(
        index.mirror.originals,
        vec![vec![b"ACTION".to_vec(), b"Action".to_vec(), b"action".to_vec()]]
    );
    assert_eq!(index.prefix_sets.len(), 1);
    assert_eq!(index.prefix_sets[0].0, 7);
    let set = fst::Set::new(index.prefix_sets[0].1.clone()).unwrap();
    assert!(set.contains(b"action"));
    assert_eq!(set.len(), 1);
}

#[test]
fn range_filter_checks_field_and_type() {
    let mut index = load_index();
    let price = |x: f64| encode_f64_bits(x.to_bits());
    let mut deltas = Vec::new();
    for (x, ids) in [(1.0, vec![0u32]), (2.5, vec![1, 2]), (10.0, vec![3, 4]), (42.0, vec![5])] {
        let mut add = RoaringBitmap::new();
        for i in ids {
            add.insert(i);
        }
        deltas.push(LeafDelta { bound: price(x), del: RoaringBitmap::new(), add });
    }
    FacetsUpdate::new(FacetType::Number, vec![FieldDeltas { fid: 1, deltas }])
        .execute(&mut index)
        .unwrap();
    let filterable = vec![GENRES, 1];
    let c = TreeConfig { group_size: 4, min_level_size: 5, max_group_size: 8 };
    let r = range_filter(&index, &filterable, 1, Some(&price(2.0)), Some(&price(10.5)), c).unwrap();
    assert_eq!(r.iter().collect::<Vec<u32>>(), vec![1, 2, 3, 4]);
    assert_eq!(
        range_filter(&index, &filterable, GENRES, None, None, c),
        Err(FacetError::WrongType)
    );
    assert_eq!(range_filter(&index, &vec![GENRES], 1, None, None, c), Err(FacetError::NotFilterable));
    assert!(range_filter(&index, &vec![9], 9, None, None, c).unwrap().is_empty());
    // the string field and its mirror are untouched by a number batch
    assert_eq!(hits(&index, &settings(), "a").unwrap().len(), 2);
}

#[test]
fn facet_search_with_typo_tolerance() {
    let index = load_index();
    let s = settings();
    assert_eq!(hits(&index, &s, "adventre").unwrap(), vec![("Adventure".to_string(), 2)]);
    assert_eq!(hits(&index, &s, "àdventure").unwrap(), vec![("Adventure".to_string(), 2)]);
    assert_eq!(hits(&index, &s, "thriler").unwrap(), vec![("Thriller".to_string(), 2)]);
    assert_eq!(hits(&index, &s, "acton").unwrap(), vec![("Action".to_string(), 3)]);
    let mut off = settings();
    off.typo_tolerance = false;
    assert_eq!(hits(&index, &off, "acton").unwrap().len(), 0);
}
