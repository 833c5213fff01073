use vettore::distance::Distance;
use vettore::error::VettoreError;
use vettore::store::{matches_filter, Collection, Metadata};

fn signs_of(v: &[f32]) -> Vec<bool> {
    v.iter().map(|x| *x >= 0.0).collect()
}

fn md(pairs: &[(&str, &str)]) -> Metadata {
    pairs.iter().map(|(k, v)| (k.to_string(), v.to_string())).collect()
}

#[test]
fn create_parses_the_distance_name() {
    let c = Collection::create_with_distance(4, "Euclidean").unwrap();
    assert_eq!(c.dimension(), 4);
    assert_eq!(c.distance(), Distance::Euclidean);
    assert!(c.keep_embeddings());
    assert_eq!(c.row_count(), 0);
    assert!(matches!(Collection::create_with_distance(4, "cheb"), Err(VettoreError::UnknownDistance)));
}

#[test]
fn insert_then_lookup_by_value_and_by_vector() {
    let mut c = Collection::new(3, Distance::Euclidean, true);
    let row = c.insert("a".to_string(), &signs_of(&[1.0, -2.0, 3.0]), Some(md(&[("t", "x")])), 0).unwrap();
    assert_eq!(row, 0);
    let r = c.get_by_value("a").unwrap();
    assert_eq!(r.value, "a");
    assert_eq!(r.row, 0);
    assert_eq!(r.metadata, Some(md(&[("t", "x")])));
    let s = c.get_by_vector(&signs_of(&[5.0, -1.0, 0.0])).unwrap();
    assert_eq!(s.value, "a");
    assert_eq!(s.row, r.row);
    assert!(c.get_by_value("b").is_none());
    assert!(c.get_by_vector(&signs_of(&[-1.0, -1.0, -1.0])).is_none());
    assert!(c.get_by_vector(&signs_of(&[1.0, -2.0])).is_none());
}

#[test]
fn duplicates_are_refused_without_change() {
    let mut c = Collection::new(3, Distance::Euclidean, true);
    assert_eq!(c.insert("a".to_string(), &signs_of(&[1.0, 2.0, 3.0]), None, 0), Ok(0));
    assert_eq!(
        c.insert("a".to_string(), &signs_of(&[9.0, 9.0, 9.0]), None, 0),
        Err(VettoreError::DuplicateValue)
    );
    assert_eq!(
        c.insert("b".to_string(), &signs_of(&[1.0, 2.0, 3.0]), None, 0),
        Err(VettoreError::DuplicateVector)
    );
    assert_eq!(
        c.insert("c".to_string(), &signs_of(&[1.0, 2.0]), None, 0),
        Err(VettoreError::DimensionMismatch)
    );
    assert_eq!(c.row_count(), 1);
    assert_eq!(c.get_all().len(), 1);
    assert!(c.get_by_value("b").is_none());
}

#[test]
fn removal_frees_the_row_and_a_second_removal_fails() {
    let mut c = Collection::new(2, Distance::Binary, false);
    assert_eq!(c.insert("a".to_string(), &[true, true], None, 0), Ok(0));
    assert_eq!(c.insert("b".to_string(), &[true, false], None, 0), Ok(1));
    assert_eq!(c.remove("a"), Ok(0));
    assert_eq!(c.remove("a"), Err(VettoreError::ValueNotFound));
    assert!(c.get_by_value("a").is_none());
    assert!(c.get_by_vector(&[true, true]).is_none());
    assert_eq!(c.value_by_row(0), None);
    assert!(c.compressed_by_row(0).is_none());
    assert_eq!(c.insert("c".to_string(), &[true, true], None, 0), Ok(0));
    assert_eq!(c.insert("d".to_string(), &[false, false], None, 0), Ok(2));
    assert_eq!(c.row_count(), 3);
    assert_eq!(c.value_by_row(0).map(|s| s.as_str()), Some("c"));
}

#[test]
fn live_counts_agree_after_mixed_operations() {
    let mut c = Collection::new(4, Distance::Euclidean, true);
    let patterns: Vec<Vec<bool>> = (0..16u32).map(|m| (0..4).map(|b| m & (1 << b) != 0).collect()).collect();
    for (i, p) in patterns.iter().enumerate() {
        assert!(c.insert(format!("v{}", i), p, None, 0).is_ok());
    }
    for i in (0..16).step_by(3) {
        assert!(c.remove(&format!("v{}", i)).is_ok());
    }
    let all = c.get_all();
    let live = (0..c.row_count()).filter(|r| c.value_by_row(*r).is_some()).count();
    assert_eq!(all.len(), live);
    assert_eq!(all.len(), 16 - 6);
    let by_value = (0..16).filter(|i| c.get_by_value(&format!("v{}", i)).is_some()).count();
    let by_vector = patterns.iter().filter(|p| c.get_by_vector(p).is_some()).count();
    assert_eq!(by_value, live);
    assert_eq!(by_vector, live);
}

#[test]
fn get_all_lists_rows_in_order() {
    let mut c = Collection::new(2, Distance::Cosine, true);
    c.insert("x".to_string(), &[true, true], None, 0).unwrap();
    c.insert("y".to_string(), &[false, true], None, 0).unwrap();
    c.insert("z".to_string(), &[true, false], None, 0).unwrap();
    c.remove("y").unwrap();
    let all = c.get_all();
    let names: Vec<&str> = all.iter().map(|r| r.value.as_str()).collect();
    assert_eq!(names, vec!["x", "z"]);
    assert_eq!(all[1].row, 2);
}

#[test]
fn filter_selects_matching_metadata() {
    let mut c = Collection::new(2, Distance::Cosine, true);
    c.insert("a".to_string(), &[true, true], Some(md(&[("t", "x")])), 0).unwrap();
    c.insert("b".to_string(), &[true, false], Some(md(&[("t", "y")])), 0).unwrap();
    c.insert("c".to_string(), &[false, true], Some(md(&[("t", "x"), ("u", "z")])), 0).unwrap();
    c.insert("d".to_string(), &[false, false], None, 0).unwrap();
    assert_eq!(c.matching_rows(&md(&[("t", "x")])), vec![0, 2]);
    assert_eq!(c.matching_rows(&md(&[("t", "x"), ("u", "z")])), vec![2]);
    assert_eq!(c.matching_rows(&md(&[])), vec![0, 1, 2]);
    assert!(matches_filter(&Some(md(&[("k", "v")])), &md(&[("k", "v")])));
    assert!(!matches_filter(&Some(md(&[("k", "w")])), &md(&[("k", "v")])));
    assert!(!matches_filter(&None, &md(&[])));
}

#[test]
fn binary_search_ranks_by_hamming_distance() {
    let mut c = Collection::new(8, Distance::Binary, false);
    let p = [1.0, 1.0, 1.0, 1.0, -1.0, -1.0, -1.0, -1.0];
    let q = [-1.0, -1.0, -1.0, -1.0, 1.0, 1.0, 1.0, 1.0];
    c.insert("p".to_string(), &signs_of(&p), None, 0).unwrap();
    c.insert("q".to_string(), &signs_of(&q), None, 0).unwrap();
    let hits = c.nearest_by_hamming(&signs_of(&p), 2).unwrap();
    assert_eq!(hits, vec![(0, 0), (1, 8)]);
    let scores: Vec<f32> = hits.iter().map(|(_, d)| 1.0 - *d as f32 / 8.0).collect();
    assert_eq!(scores, vec![1.0, 0.0]);
    assert_eq!(c.nearest_by_hamming(&signs_of(&p), 1).unwrap(), vec![(0, 0)]);
    assert_eq!(c.nearest_by_hamming(&signs_of(&p[..4]), 2), Err(VettoreError::QueryDimMismatch));
}

#[test]
fn binary_search_breaks_ties_by_row() {
    let mut c = Collection::new(2, Distance::Binary, true);
    c.insert("a".to_string(), &[true, false], None, 0).unwrap();
    c.insert("b".to_string(), &[false, true], None, 0).unwrap();
    c.insert("c".to_string(), &[true, true], None, 0).unwrap();
    let hits = c.nearest_by_hamming(&[true, true], 3).unwrap();
    assert_eq!(hits, vec![(2, 0), (0, 1), (1, 1)]);
    assert_eq!(c.nearest_by_hamming(&[true, true], 0).unwrap(), vec![]);
}

#[test]
fn hnsw_collection_keeps_one_node_per_record() {
    let mut c = Collection::create_with_distance(2, "hnsw").unwrap();
    assert!(c.hnsw().is_some());
    assert!(Collection::new(2, Distance::Cosine, true).hnsw().is_none());
    c.insert("p".to_string(), &[true, true], None, 2).unwrap();
    c.insert("q".to_string(), &[false, true], None, 0).unwrap();
    c.insert("r".to_string(), &[true, false], None, 3).unwrap();
    {
        let h = c.hnsw().unwrap();
        assert_eq!(h.ids().id_of("q"), Some(1));
        assert!(h.index().contains(1));
        assert_eq!(h.index().entry(), Some(2));
    }
    assert_eq!(c.insert("s".to_string(), &[true, true], None, 5), Err(VettoreError::DuplicateVector));
    assert_eq!(c.hnsw().unwrap().ids().next_id(), 3);
    let dist = |n: usize| [5u64, 1, 3][n];
    let pair = |a: usize, b: usize| (a as u64).abs_diff(b as u64);
    c.hnsw_link(1, Some(0), &dist, &pair);
    c.hnsw_link(2, Some(0), &dist, &pair);
    assert_eq!(c.hnsw().unwrap().index().neighbours(1, 0), vec![0, 2]);
    assert_eq!(c.hnsw().unwrap().index().neighbours(0, 0), vec![1, 2]);
    assert_eq!(c.hnsw().unwrap().index().neighbours(2, 0), vec![1, 0]);
    c.remove("r").unwrap();
    let h = c.hnsw().unwrap();
    assert_eq!(h.ids().id_of("r"), None);
    assert!(!h.index().contains(2));
    assert_eq!(h.index().neighbours(0, 0), vec![1]);
    assert_eq!(h.index().entry(), Some(0));
}

#[test]
fn nearest_rows_follow_the_given_ranks() {
    let mut c = Collection::new(2, Distance::Euclidean, true);
    c.insert("a".to_string(), &[true, true], Some(md(&[("t", "x")])), 0).unwrap();
    c.insert("b".to_string(), &[true, false], Some(md(&[("t", "y")])), 0).unwrap();
    c.insert("c".to_string(), &[false, true], Some(md(&[("t", "x")])), 0).unwrap();
    c.insert("d".to_string(), &[false, false], None, 0).unwrap();
    c.remove("d").unwrap();
    let rank = |r: usize| [30u64, 10, 20, 0][r];
    assert_eq!(c.nearest_by(2, &rank), vec![(1, 10), (2, 20)]);
    assert_eq!(c.nearest_by(9, &rank), vec![(1, 10), (2, 20), (0, 30)]);
    assert_eq!(c.nearest_matching(&md(&[("t", "x")]), 5, &rank), vec![(2, 20), (0, 30)]);
    assert_eq!(c.nearest_matching(&md(&[("t", "z")]), 5, &rank), vec![]);
}

#[test]
fn empty_collection_finds_nothing() {
    let c = Collection::new(3, Distance::Binary, true);
    assert_eq!(c.nearest_by_hamming(&[true, true, false], 4).unwrap(), vec![]);
    assert_eq!(c.nearest_by(4, &|_r: usize| 0u64), vec![]);
    assert!(c.get_all().is_empty());
    assert!(c.get_by_value("x").is_none());
}

#[test]
fn search_checks_filter_and_query_length() {
    let h = Collection::create_with_distance(3, "hnsw").unwrap();
    assert_eq!(h.check_search(3, true), Err(VettoreError::FilterUnsupportedWithHnsw));
    assert_eq!(h.check_search(5, false), Ok(()));
    let c = Collection::new(3, Distance::Cosine, true);
    assert_eq!(c.check_search(2, false), Err(VettoreError::QueryDimMismatch));
    assert_eq!(c.check_search(2, true), Err(VettoreError::QueryDimMismatch));
    assert_eq!(c.check_search(3, true), Ok(()));
}
