use lucid_runtime::sequences::{dict_from_pairs, enumerate_pairs, zip_rows, DictItem};

#[test]
fn zip_pairs_items_side_by_side() {
    let rows = zip_rows(&[vec![1i64, 2, 3], vec![10, 20, 30]]).unwrap();
    assert_eq!(rows, vec![vec![1, 10], vec![2, 20], vec![3, 30]]);
}

#[test]
fn zip_of_nothing_is_empty() {
    let rows = zip_rows::<i64>(&[]).unwrap();
    assert!(rows.is_empty());
    let rows = zip_rows::<i64>(&[vec![], vec![]]).unwrap();
    assert!(rows.is_empty());
}

#[test]
fn zip_rejects_different_lengths() {
    let err = zip_rows(&[vec![1i64, 2], vec![1]]).unwrap_err();
    assert_eq!(err.message, "zip() arguments have different lengths");
    let err = zip_rows(&[vec![1i64], vec![1], vec![]]).unwrap_err();
    assert_eq!(err.message, "zip() arguments have different lengths");
}

#[test]
fn enumerate_counts_from_start() {
    let pairs = enumerate_pairs(&["a", "b", "c"], 0);
    assert_eq!(pairs, vec![(0, "a"), (1, "b"), (2, "c")]);
    let pairs = enumerate_pairs(&[7i64, 8], -1);
    assert_eq!(pairs, vec![(-1, 7), (0, 8)]);
    assert!(enumerate_pairs::<i64>(&[], 5).is_empty());
}

#[test]
fn dict_keeps_the_last_pair_for_each_key() {
    let pair = |k: &str| DictItem::Pair(k.to_string());
    let kept = dict_from_pairs(&[pair("a"), pair("b"), pair("a"), pair("c")]).unwrap();
    assert_eq!(kept, vec![1, 2, 3]);
    assert!(dict_from_pairs(&[]).unwrap().is_empty());
    let err = dict_from_pairs(&[pair("a"), DictItem::NotPair]).unwrap_err();
    assert_eq!(err.message, "dict() sequence elements must each have length 2");
}

#[test]
fn test_strict_zip_rejects_mismatched_lengths() {
    assert!(zip_rows(&[vec![1i64, 2], vec![3, 4]]).is_ok());
    assert!(zip_rows(&[vec![1i64], vec![2, 3]]).is_err());
}
