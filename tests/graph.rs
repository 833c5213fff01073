use vettore::error::VettoreError;
use vettore::graph::{HnswIndex, M, M0, MAX_LEVEL};
use vettore::hnsw::HnswIndexWrapper;
use vettore::ids::NodeIds;

fn top_layer(g: &HnswIndex, ids: &[usize]) -> usize {
    ids.iter().filter_map(|i| g.layer_of(*i)).max().unwrap()
}

#[test]
fn first_node_becomes_the_entry() {
    let mut g = HnswIndex::new();
    assert_eq!(g.entry(), None);
    assert_eq!(g.add(5, 2), Ok(()));
    assert_eq!(g.entry(), Some(5));
    assert!(g.contains(5));
    assert!(!g.contains(4));
    assert_eq!(g.layer_of(5), Some(2));
    assert_eq!(g.neighbours(5, 0), Vec::<usize>::new());
    assert_eq!(g.neighbours(5, 3), Vec::<usize>::new());
}

#[test]
fn higher_node_is_promoted_to_entry() {
    let mut g = HnswIndex::new();
    g.add(0, 1).unwrap();
    g.add(1, 1).unwrap();
    assert_eq!(g.entry(), Some(0));
    g.add(2, 3).unwrap();
    assert_eq!(g.entry(), Some(2));
    g.add(3, 0).unwrap();
    assert_eq!(g.entry(), Some(2));
    assert_eq!(g.layer_of(g.entry().unwrap()), Some(top_layer(&g, &[0, 1, 2, 3])));
}

#[test]
fn duplicate_node_is_refused() {
    let mut g = HnswIndex::new();
    g.add(0, 0).unwrap();
    assert_eq!(g.add(0, 4), Err(VettoreError::DuplicateId));
    assert_eq!(g.layer_of(0), Some(0));
}

#[test]
fn links_keep_the_nearest_usable_candidates() {
    let mut g = HnswIndex::new();
    for id in 0..5 {
        g.add(id, if id == 3 { 0 } else { 1 }).unwrap();
    }
    // 3 does not reach layer 1, 9 does not exist, 0 is the node itself, 2 repeats.
    let ranked = vec![(2, 7), (3, 1), (9, 0), (0, 0), (4, 5), (1, 5), (2, 1)];
    g.set_links(0, 1, &ranked);
    assert_eq!(g.neighbours(0, 1), vec![1, 4, 2]);
    g.set_links(0, 0, &ranked);
    assert_eq!(g.neighbours(0, 0), vec![3, 1, 4, 2]);
}

#[test]
fn links_are_capped_per_layer() {
    let mut g = HnswIndex::new();
    for id in 0..50 {
        g.add(id, 1).unwrap();
    }
    let ranked: Vec<(usize, u64)> = (1..50).map(|i| (i, (50 - i) as u64)).collect();
    g.set_links(0, 0, &ranked);
    g.set_links(0, 1, &ranked);
    let ground = g.neighbours(0, 0);
    let upper = g.neighbours(0, 1);
    assert_eq!(ground.len(), M0);
    assert_eq!(upper.len(), M);
    assert_eq!(ground[0], 49);
    assert_eq!(upper[M - 1], 49 - (M - 1));
}

#[test]
fn removal_unlinks_and_repairs_the_entry() {
    let mut g = HnswIndex::new();
    g.add(0, 2).unwrap();
    g.add(1, 1).unwrap();
    g.add(2, 1).unwrap();
    g.add(3, 0).unwrap();
    g.set_links(1, 0, &[(0, 1), (2, 2), (3, 3)]);
    g.set_links(3, 0, &[(0, 1), (1, 2)]);
    assert_eq!(g.remove(0), Ok(()));
    assert!(!g.contains(0));
    assert_eq!(g.neighbours(1, 0), vec![2, 3]);
    assert_eq!(g.neighbours(3, 0), vec![1]);
    let e = g.entry().unwrap();
    assert_eq!(g.layer_of(e), Some(1));
    assert_eq!(g.remove(0), Err(VettoreError::IdNotFound));
    for id in 1..4 {
        g.remove(id).unwrap();
    }
    assert_eq!(g.entry(), None);
}

#[test]
fn entry_stays_on_top_through_inserts_and_removals() {
    let mut g = HnswIndex::new();
    let levels = [0usize, 3, 1, 3, 2, 0, MAX_LEVEL, 1];
    for (id, lvl) in levels.iter().enumerate() {
        g.add(id, *lvl).unwrap();
        let ids: Vec<usize> = (0..=id).collect();
        assert_eq!(g.layer_of(g.entry().unwrap()), Some(top_layer(&g, &ids)));
    }
    let mut alive: Vec<usize> = (0..levels.len()).collect();
    while let Some(e) = g.entry() {
        g.remove(e).unwrap();
        alive.retain(|x| *x != e);
        match g.entry() {
            Some(n) => assert_eq!(g.layer_of(n), Some(top_layer(&g, &alive))),
            None => assert!(alive.is_empty()),
        }
    }
}

#[test]
fn node_ids_are_handed_out_in_order() {
    let mut ids = NodeIds::new();
    assert_eq!(ids.next_id(), 0);
    assert_eq!(ids.bind("a"), Ok(0));
    assert_eq!(ids.bind("b"), Ok(1));
    assert_eq!(ids.bind("a"), Err(VettoreError::DuplicateValue));
    assert_eq!(ids.id_of("b"), Some(1));
    assert_eq!(ids.label_of(0).map(|s| s.as_str()), Some("a"));
    assert_eq!(ids.unbind("a"), Ok(0));
    assert_eq!(ids.unbind("a"), Err(VettoreError::IdNotFound));
    assert_eq!(ids.label_of(0), None);
    assert_eq!(ids.id_of("a"), None);
    assert_eq!(ids.bind("a"), Ok(2));
    assert_eq!(ids.next_id(), 3);
}

#[test]
fn labelled_index_keeps_labels_and_nodes_together() {
    let mut h = HnswIndexWrapper::new();
    let dist = |_: usize| 3u64;
    let pair = |_: usize, _: usize| 3u64;
    assert_eq!(h.add("a", 1), Ok(0));
    assert_eq!(h.insert("b", 0, &dist, &pair), Ok(1));
    assert_eq!(h.add("a", 0), Err(VettoreError::DuplicateValue));
    assert!(h.index().contains(0) && h.index().contains(1));
    assert_eq!(h.index().entry(), Some(0));
    assert_eq!(h.index().neighbours(1, 0), vec![0]);
    assert_eq!(h.index().neighbours(0, 0), vec![1]);
    assert_eq!(h.remove("a"), Ok(0));
    assert_eq!(h.remove("a"), Err(VettoreError::IdNotFound));
    assert!(!h.index().contains(0));
    assert_eq!(h.index().neighbours(1, 0), Vec::<usize>::new());
    assert_eq!(h.index().entry(), Some(1));
    assert_eq!(h.ids().id_of("b"), Some(1));
    assert_eq!(h.add("c", 2), Ok(2));
    assert_eq!(h.index().entry(), Some(2));
}

fn line_graph(n: usize) -> HnswIndex {
    let mut g = HnswIndex::new();
    for id in 0..n {
        g.add(id, 0).unwrap();
    }
    for id in 0..n {
        let mut ranked = Vec::new();
        if id > 0 {
            ranked.push((id - 1, 1));
        }
        if id + 1 < n {
            ranked.push((id + 1, 1));
        }
        g.set_links(id, 0, &ranked);
    }
    g
}

#[test]
fn beam_search_walks_to_the_nearest_nodes() {
    let g = line_graph(10);
    let target = 7i64;
    let dist = |n: usize| (n as i64 - target).unsigned_abs();
    let found = g.search_layer(0, 0, 3, &dist);
    assert_eq!(found, vec![(7, 0), (6, 1), (8, 1)]);
    assert_eq!(g.search_layer(42, 0, 3, &dist), vec![]);
    assert_eq!(g.search_layer(0, 0, 1, &dist), vec![(7, 0)]);
}

#[test]
fn search_descends_then_keeps_k() {
    let mut g = line_graph(6);
    g.add(6, 2).unwrap();
    g.set_links(6, 1, &[(0, 1)]);
    g.set_links(6, 0, &[(0, 1)]);
    g.set_links(0, 0, &[(1, 1), (6, 2)]);
    assert_eq!(g.entry(), Some(6));
    let dist = |n: usize| if n == 6 { 100 } else { (n as i64 - 4).unsigned_abs() };
    assert_eq!(g.search(2, 8, &dist), vec![(4, 0), (3, 1)]);
    assert_eq!(g.search(0, 8, &dist), vec![]);
    assert_eq!(HnswIndex::new().search(3, 8, &dist), vec![]);
}

fn circle_point(i: usize) -> [f32; 2] {
    let a = i as f32 * std::f32::consts::PI / 50.0;
    [a.cos(), a.sin()]
}

fn rank(d: f32) -> u64 {
    (d * 1_000_000.0) as u64
}

fn euclid(a: [f32; 2], b: [f32; 2]) -> f32 {
    ((a[0] - b[0]).powi(2) + (a[1] - b[1]).powi(2)).sqrt()
}

#[test]
fn circle_of_points_finds_the_nearest_angles() {
    let mut g = HnswIndex::new();
    let levels = [0usize, 1, 0, 2, 0, 0, 1, 0, 0, 3];
    for i in 0..100 {
        let p = circle_point(i);
        let dist = |n: usize| rank(euclid(circle_point(n), p));
        let pair = |a: usize, b: usize| rank(euclid(circle_point(a), circle_point(b)));
        assert_eq!(g.insert(i, levels[i % levels.len()], &dist, &pair), Ok(()));
    }
    for i in 0..100 {
        let top = g.layer_of(i).unwrap();
        for layer in 0..=top {
            let limit = if layer == 0 { M0 } else { M };
            assert!(g.neighbours(i, layer).len() <= limit);
        }
    }
    let q = [1.0f32, 0.0];
    let dist = |n: usize| rank(euclid(circle_point(n), q));
    let found = g.search(5, 64, &dist);
    assert_eq!(found.len(), 5);
    for w in found.windows(2) {
        assert!(w[0].1 <= w[1].1);
    }
    for (n, _) in &found {
        let steps = (*n).min(100 - *n);
        assert!(steps <= 5, "node {} is too far from angle 0", n);
    }
    assert_eq!(g.layer_of(g.entry().unwrap()), Some(3));
}

#[test]
fn descent_stops_at_a_local_minimum() {
    let g = line_graph(8);
    let dist = |n: usize| (n as i64 - 5).unsigned_abs();
    assert_eq!(g.descend(0, 0, &dist), (5, 0));
    let bumpy = |n: usize| [4u64, 3, 9, 0, 0, 0, 0, 0][n];
    assert_eq!(g.descend(0, 0, &bumpy), (1, 3));
    assert_eq!(g.descend(0, 1, &dist), (0, 5));
}

#[test]
fn beam_search_keeps_the_nearest_it_ranked() {
    let g = line_graph(12);
    let dist = |n: usize| (n as i64 - 6).unsigned_abs() * 10 + n as u64 % 2;
    let found = g.search_layer(0, 0, 4, &dist);
    assert_eq!(found.len(), 4);
    assert_eq!(found[0], (6, 0));
    let ids: Vec<usize> = found.iter().map(|(n, _)| *n).collect();
    assert!(ids.contains(&5) && ids.contains(&7));
}
