use vstd::prelude::*;

verus! {

/// In round `i` of a greedy selection over candidates `0 .. n`, the pick
/// `picked[i]` was ranked by `score`, given the earlier picks, at least as well
/// as every candidate not picked before it (lower is better; of equal ranks
/// the lower index wins).
pub open spec fn best_in_round<F: Fn(usize, &Vec<usize>) -> u64>(
    score: F,
    n: nat,
    picked: Seq<usize>,
    i: int,
) -> bool {
    forall|c: usize|
        c < n && !picked.subrange(0, i).contains(c) && c != picked[i] ==> exists|
            v: Vec<usize>,
            rb: u64,
            rc: u64,
        |
            #![trigger score.ensures((c, &v), rc), score.ensures((picked[i], &v), rb)]
            v@ == picked.subrange(0, i) && score.ensures((c, &v), rc) && score.ensures(
                (picked[i], &v),
                rb,
            ) && (rb < rc || (rb == rc && picked[i] < c))
}

/// Greedy re-ranking of candidates `0 .. n` (indices into a first-pass list):
/// each round picks, among the candidates not picked yet, the one that `score`
/// ranks best given the picks so far (a lower rank is better; ties go to the
/// lower index), until `final_k` are picked or none is left.
pub fn mmr_select<F: Fn(usize, &Vec<usize>) -> u64>(n: usize, final_k: usize, score: &F) -> (r: Vec<
    usize,
>)
    requires
        forall|c: usize, v: &Vec<usize>| score.requires((c, v)),
    ensures
        r@.len() <= final_k,
        r@.no_duplicates(),
        forall|i: int| 0 <= i < r@.len() ==> #[trigger] r@[i] < n,
        r@.len() < final_k ==> forall|c: usize| c < n ==> r@.contains(c),
        forall|i: int| 0 <= i < r@.len() ==> #[trigger] best_in_round(*score, n as nat, r@, i),
{
    let mut picked: Vec<usize> = Vec::new();
    let mut taken: Vec<bool> = Vec::new();
    while taken.len() < n
        invariant
            taken@.len() <= n,
            forall|c: int| 0 <= c < taken@.len() ==> !#[trigger] taken@[c],
        decreases n - taken@.len(),
    {
        taken.push(false);
    }
    let mut exhausted = false;
    while !exhausted && picked.len() < final_k
        invariant
            forall|c: usize, v: &Vec<usize>| score.requires((c, v)),
            taken@.len() == n,
            picked@.len() <= final_k,
            picked@.no_duplicates(),
            forall|i: int| 0 <= i < picked@.len() ==> #[trigger] picked@[i] < n,
            forall|c: int| 0 <= c < n ==> (#[trigger] taken@[c] <==> picked@.contains(c as usize)),
            exhausted ==> forall|c: usize| c < n ==> picked@.contains(c),
            forall|i: int| 0 <= i < picked@.len() ==> #[trigger] best_in_round(*score, n as nat, picked@, i),
        decreases final_k - picked@.len(), if exhausted { 0int } else { 1int },
    {
        let ghost round = picked;
        let mut best: usize = n;
        let mut best_rank: u64 = 0;
        let ghost mut ranks: Map<usize, u64> = Map::empty();
        let mut c: usize = 0;
        while c < n
            invariant
                forall|c2: usize, v: &Vec<usize>| score.requires((c2, v)),
                round == picked,
                taken@.len() == n,
                c <= n,
                best <= n,
                forall|x: int| 0 <= x < n ==> (#[trigger] taken@[x] <==> picked@.contains(x as usize)),
                best == n ==> forall|x: usize| x < c ==> taken@[x as int],
                best < n ==> best < c && !taken@[best as int] && ranks.contains_key(best) && ranks[best]
                    == best_rank,
                forall|x: usize| #[trigger] ranks.contains_key(x) ==> x < c && !taken@[x as int]
                    && score.ensures((x, &round), ranks[x]),
                forall|x: usize| x < c && !taken@[x as int] ==> #[trigger] ranks.contains_key(x),
                best < n ==> forall|x: usize| #[trigger] ranks.contains_key(x) && x != best ==> (best_rank
                    < ranks[x] || (best_rank == ranks[x] && best < x)),
            decreases n - c,
        {
            if !taken[c] {
                let r = score(c, &picked);
                let ghost old_ranks = ranks;
                let ghost old_best = best;
                let ghost old_rank = best_rank;
                proof {
                    ranks = ranks.insert(c, r);
                }
                if best == n || r < best_rank {
                    best = c;
                    best_rank = r;
                }
                proof {
                    assert forall|x: usize| #[trigger] ranks.contains_key(x) && x != best implies (best_rank
                        < ranks[x] || (best_rank == ranks[x] && best < x)) by {
                        if old_best == n {
                            assert(x < c ==> taken@[x as int]);
                        } else if best == c {
                            if x != old_best {
                                assert(old_ranks.contains_key(x));
                            }
                        }
                    }
                }
            }
            c = c + 1;
        }
        if best == n {
            exhausted = true;
            proof {
                assert forall|x: usize| x < n implies picked@.contains(x) by {
                    assert(taken@[x as int]);
                }
            }
        } else {
            let ghost before = picked@;
            proof {
                assert forall|x: usize|
                    x < n && !before.subrange(0, before.len() as int).contains(x) && x != best implies exists|
                    v: Vec<usize>,
                    rb: u64,
                    rc: u64,
                |
                    #![trigger score.ensures((x, &v), rc), score.ensures((best, &v), rb)]
                    v@ == before.subrange(0, before.len() as int) && score.ensures((x, &v), rc)
                        && score.ensures((best, &v), rb) && (rb < rc || (rb == rc && best < x)) by {
                    assert(before.subrange(0, before.len() as int) =~= before);
                    assert(!taken@[x as int]);
                    assert(ranks.contains_key(x));
                    assert(score.ensures((x, &round), ranks[x]));
                    assert(score.ensures((best, &round), ranks[best]));
                }
            }
            let ghost before_taken = taken@;
            picked.push(best);
            taken[best] = true;
            proof {
                assert(taken@ == before_taken.update(best as int, true));
                let after = picked@;
                assert(after == before.push(best));
                assert forall|i: int| 0 <= i < after.len() implies #[trigger] best_in_round(
                    *score,
                    n as nat,
                    after,
                    i,
                ) by {
                    assert(after.subrange(0, i) =~= before.subrange(0, i));
                    if i < before.len() {
                        assert(best_in_round(*score, n as nat, before, i));
                        assert(after[i] == before[i]);
                    }
                }
                assert forall|x: int| 0 <= x < n implies (#[trigger] taken@[x] <==> after.contains(
                    x as usize,
                )) by {
                    assert(before_taken[x] <==> before.contains(x as usize));
                    if x as usize == best {
                        assert(after[before.len() as int] == best);
                    }
                    if after.contains(x as usize) && x as usize != best {
                        let k = choose|k: int| 0 <= k < after.len() && after[k] == x as usize;
                        assert(before[k] == x as usize);
                    }
                    if before.contains(x as usize) {
                        let k = choose|k: int| 0 <= k < before.len() && before[k] == x as usize;
                        assert(after[k] == x as usize);
                    }
                }
            }
        }
    }
    picked
}

} // verus!
