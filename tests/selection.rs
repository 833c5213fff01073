use vettore::topk::select_best;

#[test]
fn best_k_in_rank_order() {
    let items = vec![(0, 5), (1, 2), (2, 9), (3, 2), (4, 0)];
    assert_eq!(select_best(&items, 3), vec![(4, 0), (1, 2), (3, 2)]);
}

#[test]
fn fewer_items_than_k() {
    let items = vec![(7, 3), (2, 3)];
    assert_eq!(select_best(&items, 10), vec![(2, 3), (7, 3)]);
}

#[test]
fn zero_k_and_empty_input() {
    assert_eq!(select_best(&[(0, 1)], 0), vec![]);
    assert_eq!(select_best(&[], 4), vec![]);
}

#[test]
fn repeated_candidates_are_listed_once() {
    let items = vec![(1, 4), (1, 4), (0, 6)];
    assert_eq!(select_best(&items, 3), vec![(1, 4), (0, 6)]);
}

#[test]
fn euclidean_top_two_excludes_the_far_point() {
    let points: [(&str, [f32; 4]); 3] =
        [("a", [1.0, 0.0, 0.0, 0.0]), ("b", [0.0, 1.0, 0.0, 0.0]), ("c", [1.0, 1.0, 0.0, 0.0])];
    let q = [1.0f32, 0.0, 0.0, 0.0];
    let ranked: Vec<(usize, u64)> = points
        .iter()
        .enumerate()
        .map(|(i, (_, v))| {
            let d: f32 = v.iter().zip(q.iter()).map(|(a, b)| (a - b) * (a - b)).sum::<f32>().sqrt();
            (i, (d * 1000.0) as u64)
        })
        .collect();
    let best = select_best(&ranked, 2);
    let names: Vec<&str> = best.iter().map(|(i, _)| points[*i].0).collect();
    assert_eq!(names, vec!["a", "c"]);
}
