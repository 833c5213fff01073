use vettore::mmr::mmr_select;

#[test]
fn picks_by_rank_until_final_k() {
    let ranks = [5u64, 1, 3, 1];
    let picked = mmr_select(4, 3, &|c: usize, _: &Vec<usize>| ranks[c]);
    assert_eq!(picked, vec![1, 3, 2]);
}

#[test]
fn stops_when_candidates_run_out() {
    let picked = mmr_select(2, 5, &|c: usize, _: &Vec<usize>| c as u64);
    assert_eq!(picked, vec![0, 1]);
    assert_eq!(mmr_select(0, 3, &|_: usize, _: &Vec<usize>| 0u64), Vec::<usize>::new());
    assert_eq!(mmr_select(3, 0, &|_: usize, _: &Vec<usize>| 0u64), Vec::<usize>::new());
}

#[test]
fn redundancy_with_earlier_picks_changes_the_order() {
    // Candidates 0 and 1 are near duplicates; 2 is different but less relevant.
    let relevance = [0.9f32, 0.85, 0.5];
    let sim = |a: usize, b: usize| if a + b == 1 { 0.95f32 } else { 0.1 };
    let alpha = 0.5f32;
    let score = |c: usize, picked: &Vec<usize>| {
        let max_sim = picked.iter().map(|s| sim(c, *s)).fold(0.0f32, f32::max);
        let mmr = alpha * relevance[c] - (1.0 - alpha) * max_sim;
        ((1.0 - mmr) * 1_000_000.0) as u64
    };
    assert_eq!(mmr_select(3, 3, &score), vec![0, 2, 1]);
}
