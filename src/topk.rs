use vstd::prelude::*;

verus! {

/// Candidate `a` (a row and its rank) comes before `b`: a lower rank is a better
/// match, and of two equal ranks the lower row comes first.
pub open spec fn ranks_before(a: (usize, u64), b: (usize, u64)) -> bool {
    a.1 < b.1 || (a.1 == b.1 && a.0 < b.0)
}

/// `r` lists the best `k` candidates of `items` (all of them if there are
/// fewer), best first.
pub open spec fn is_best_k(items: Seq<(usize, u64)>, k: nat, r: Seq<(usize, u64)>) -> bool {
    &&& r.len() <= k
    &&& forall|i: int, j: int| 0 <= i < j < r.len() ==> ranks_before(#[trigger] r[i], #[trigger] r[j])
    &&& forall|i: int| 0 <= i < r.len() ==> items.contains(#[trigger] r[i])
    &&& forall|x: (usize, u64)|
        items.contains(x) && !r.contains(x) ==> r.len() == k && forall|i: int|
            0 <= i < r.len() ==> ranks_before(#[trigger] r[i], x)
}

/// Whether candidate `a` comes before `b`.
pub(crate) fn precedes(a: (usize, u64), b: (usize, u64)) -> (r: bool)
    ensures
        r == ranks_before(a, b),
{
    a.1 < b.1 || (a.1 == b.1 && a.0 < b.0)
}

/// The best `k` candidates, best first: ascending rank, ties to the lower row.
pub fn select_best(items: &[(usize, u64)], k: usize) -> (r: Vec<(usize, u64)>)
    ensures
        is_best_k(items@, k as nat, r@),
{
    let mut out: Vec<(usize, u64)> = Vec::new();
    while out.len() < k
        invariant
            out@.len() <= k,
            forall|i: int, j: int|
                0 <= i < j < out@.len() ==> ranks_before(#[trigger] out@[i], #[trigger] out@[j]),
            forall|i: int| 0 <= i < out@.len() ==> items@.contains(#[trigger] out@[i]),
            forall|x: (usize, u64)|
                items@.contains(x) && out@.len() > 0 && !ranks_before(out@.last(), x)
                    ==> out@.contains(x),
        decreases k - out@.len(),
    {
        let mut best: Option<(usize, u64)> = None;
        let mut i: usize = 0;
        while i < items.len()
            invariant
                i <= items@.len(),
                match best {
                    None => forall|m: int|
                        0 <= m < i ==> !(out@.len() == 0 || ranks_before(
                            out@.last(),
                            #[trigger] items@[m],
                        )),
                    Some(b) => items@.contains(b) && (out@.len() == 0 || ranks_before(
                        out@.last(),
                        b,
                    )) && forall|m: int|
                        0 <= m < i && (out@.len() == 0 || ranks_before(
                            out@.last(),
                            #[trigger] items@[m],
                        )) ==> items@[m] == b || ranks_before(b, items@[m]),
                },
            decreases items@.len() - i,
        {
            let x = items[i];
            let open = out.len() == 0 || precedes(out[out.len() - 1], x);
            if open {
                match best {
                    None => {
                        best = Some(x);
                    },
                    Some(b) => {
                        if precedes(x, b) {
                            best = Some(x);
                        }
                    },
                }
            }
            i = i + 1;
        }
        match best {
            None => {
                proof {
                    assert forall|x: (usize, u64)|
                        items@.contains(x) && !out@.contains(x) implies out@.len() == k as nat
                        && forall|j: int| 0 <= j < out@.len() ==> ranks_before(#[trigger] out@[j], x)
                        by {
                        let m = choose|m: int| 0 <= m < items@.len() && items@[m] == x;
                        assert(!(out@.len() == 0 || ranks_before(out@.last(), items@[m])));
                    }
                }
                return out;
            },
            Some(b) => {
                let ghost prev = out@;
                out.push(b);
                proof {
                    assert forall|x: (usize, u64)|
                        items@.contains(x) && out@.len() > 0 && !ranks_before(out@.last(), x)
                            implies out@.contains(x) by {
                        let m = choose|m: int| 0 <= m < items@.len() && items@[m] == x;
                        if prev.len() == 0 || ranks_before(prev.last(), x) {
                            assert(items@[m] == b || ranks_before(b, items@[m]));
                            assert(out@[prev.len() as int] == b);
                        } else {
                            assert(prev.contains(x));
                            let j = choose|j: int| 0 <= j < prev.len() && prev[j] == x;
                            assert(out@[j] == x);
                        }
                    }
                    assert forall|i: int, j: int|
                        0 <= i < j < out@.len() implies ranks_before(
                        #[trigger] out@[i],
                        #[trigger] out@[j],
                    ) by {
                        if j == prev.len() && i < prev.len() - 1 {
                            assert(ranks_before(prev[i], prev.last()));
                        }
                    }
                    assert forall|i: int| 0 <= i < out@.len() implies items@.contains(
                        #[trigger] out@[i],
                    ) by {
                        if i < prev.len() {
                            assert(out@[i] == prev[i]);
                        }
                    }
                }
            },
        }
    }
    proof {
        assert forall|x: (usize, u64)| items@.contains(x) && !out@.contains(x) implies out@.len()
            == k as nat && forall|j: int|
            0 <= j < out@.len() ==> ranks_before(#[trigger] out@[j], x) by {
            if out@.len() > 0 {
                if !ranks_before(out@.last(), x) {
                    assert(out@.contains(x));
                }
                assert forall|j: int| 0 <= j < out@.len() implies ranks_before(
                    #[trigger] out@[j],
                    x,
                ) by {
                    if j < out@.len() - 1 {
                        assert(ranks_before(out@[j], out@.last()));
                    }
                }
            }
        }
    }
    out
}

/// The best `k` come in order of rank: along the result ranks never decrease,
/// so the similarities they stand for never increase.
pub proof fn lemma_best_k_ranks_ascending(items: Seq<(usize, u64)>, k: nat, r: Seq<(usize, u64)>)
    requires
        is_best_k(items, k, r),
    ensures
        forall|i: int, j: int| 0 <= i <= j < r.len() ==> #[trigger] r[i].1 <= #[trigger] r[j].1,
{
    assert forall|i: int, j: int| 0 <= i <= j < r.len() implies #[trigger] r[i].1 <= #[trigger] r[j].1 by {
        if i < j {
            assert(ranks_before(r[i], r[j]));
        }
    }
}

} // verus!
