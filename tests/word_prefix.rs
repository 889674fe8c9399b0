use facet_index::prefix::{
    compute_word_prefix_docids, compute_word_prefix_fid_docids, compute_word_prefix_position_docids,
    DocidsDatabase,
};
use roaring::RoaringBitmap;

fn bitmap(ids: &[u32]) -> RoaringBitmap {
    let mut b = RoaringBitmap::new();
    for &i in ids {
        b.insert(i);
    }
    b
}

fn words() -> DocidsDatabase {
    let mut db = DocidsDatabase::new();
    db.put(&b"hello".to_vec(), bitmap(&[1, 2]));
    db.put(&b"help".to_vec(), bitmap(&[3]));
    db.put(&b"world".to_vec(), bitmap(&[4]));
    db.put(&b"he".to_vec(), bitmap(&[5]));
    db
}

fn get(db: &DocidsDatabase, key: &[u8]) -> Option<Vec<u32>> {
    db.keys.iter().position(|k| k.as_slice() == key).map(|i| db.values[i].iter().collect())
}

#[test]
fn database_keeps_keys_sorted() {
    let db = words();
    assert_eq!(db.keys, vec![b"he".to_vec(), b"hello".to_vec(), b"help".to_vec(), b"world".to_vec()]);
    let mut db = db;
    db.put(&b"help".to_vec(), bitmap(&[9]));
    assert_eq!(get(&db, b"help"), Some(vec![9]));
    assert!(db.delete(b"world"));
    assert!(!db.delete(b"world"));
    assert_eq!(db.keys.len(), 3);
}

#[test]
fn prefixes_recomputed_and_deleted() {
    let w = words();
    let mut prefixes = DocidsDatabase::new();
    prefixes.put(&b"wo".to_vec(), bitmap(&[4]));
    prefixes.put(&b"x".to_vec(), bitmap(&[8]));
    compute_word_prefix_docids(&w, &mut prefixes, &vec![b"hel".to_vec(), b"he".to_vec()], &vec![b"wo".to_vec()]);
    assert_eq!(get(&prefixes, b"hel"), Some(vec![1, 2, 3]));
    assert_eq!(get(&prefixes, b"he"), Some(vec![1, 2, 3, 5]));
    assert_eq!(get(&prefixes, b"wo"), None);
    assert_eq!(get(&prefixes, b"x"), Some(vec![8]));
}

#[test]
fn prefix_recomputed_after_delete_and_empty_prefix_stored() {
    let w = words();
    let mut prefixes = DocidsDatabase::new();
    prefixes.put(&b"wor".to_vec(), bitmap(&[1]));
    compute_word_prefix_fid_docids(&w, &mut prefixes, &vec![b"wor".to_vec(), b"zz".to_vec()], &vec![b"wor".to_vec()]);
    assert_eq!(get(&prefixes, b"wor"), Some(vec![4]));
    assert_eq!(get(&prefixes, b"zz"), Some(vec![]));
    compute_word_prefix_position_docids(&w, &mut prefixes, &vec![], &vec![b"zz".to_vec()]);
    assert_eq!(get(&prefixes, b"zz"), None);
}
