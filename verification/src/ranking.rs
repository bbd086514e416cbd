//! Ranking by score. Scores enter as whole-number keys that order as the
//! scores do; a higher key is a better match.

use vstd::prelude::*;

verus! {

/// Whether candidate `a` is ranked before candidate `b`: it has the higher
/// key, or the same key and the lower position.
pub open spec fn precedes(keys: Seq<i64>, a: int, b: int) -> bool {
    keys[a] > keys[b] || (keys[a] == keys[b] && a < b)
}

/// Whether `order` is the ranking of the candidates with the given keys, cut
/// to `limit` places: it lists positions of `keys`, each before the next,
/// and every position left out comes after every one listed.
pub open spec fn is_ranking(keys: Seq<i64>, limit: int, order: Seq<usize>) -> bool {
    &&& order.len() == if limit <= keys.len() { limit } else { keys.len() as int }
    &&& forall|i: int| 0 <= i < order.len() ==> (#[trigger] order[i]) < keys.len()
    &&& forall|i: int, j: int|
        0 <= i < j < order.len() ==> precedes(keys, (#[trigger] order[i]) as int, (#[trigger] order[j]) as int)
    &&& forall|i: int, p: usize|
        0 <= i < order.len() && p < keys.len() && !(#[trigger] order.contains(p)) ==> precedes(
            keys,
            (#[trigger] order[i]) as int,
            p as int,
        )
}

/// Ranks candidates by descending key, equal keys by ascending position,
/// and keeps the first `limit` places.
pub fn rank(keys: &Vec<i64>, limit: usize) -> (order: Vec<usize>)
    ensures
        is_ranking(keys@, limit as int, order@),
{
    let mut best: Vec<usize> = Vec::new();
    if limit == 0 {
        return best;
    }
    let mut p: usize = 0;
    while p < keys.len()
        invariant
            limit > 0,
            p <= keys@.len(),
            best@.len() == if limit <= p { limit } else { p },
            forall|i: int| 0 <= i < best@.len() ==> (#[trigger] best@[i]) < p,
            forall|i: int, j: int|
                0 <= i < j < best@.len() ==> precedes(
                    keys@,
                    (#[trigger] best@[i]) as int,
                    (#[trigger] best@[j]) as int,
                ),
            best@.len() < limit ==> forall|q: usize| q < p ==> #[trigger] best@.contains(q),
            forall|i: int, q: usize|
                0 <= i < best@.len() && q < p && !(#[trigger] best@.contains(q)) ==> precedes(
                    keys@,
                    (#[trigger] best@[i]) as int,
                    q as int,
                ),
        decreases keys@.len() - p,
    {
        let key = keys[p];
        let mut at: usize = best.len();
        while at > 0 && keys[best[at - 1]] < key
            invariant
                at <= best@.len(),
                p < keys@.len(),
                key == keys@[p as int],
                forall|i: int| 0 <= i < best@.len() ==> (#[trigger] best@[i]) < p,
                forall|i: int| at <= i < best@.len() ==> keys@[(#[trigger] best@[i]) as int] < key,
            decreases at,
        {
            at -= 1;
        }
        let ghost before = best@;
        let full = best.len() == limit;
        best.insert(at, p);
        let ghost grown = best@;
        proof {
            assert(grown =~= before.insert(at as int, p));
            assert forall|i: int, j: int| 0 <= i < j < grown.len() implies precedes(
                keys@,
                (#[trigger] grown[i]) as int,
                (#[trigger] grown[j]) as int,
            ) by {
                if j < at {
                    assert(precedes(keys@, before[i] as int, before[j] as int));
                } else if j == at {
                    assert(before[i] < p);
                    assert(!(keys@[before[at - 1] as int] < key));
                    if i < at - 1 {
                        assert(precedes(keys@, before[i] as int, before[at - 1] as int));
                    }
                } else if i < at {
                    assert(precedes(keys@, before[i] as int, before[j - 1] as int));
                } else if i == at {
                    assert(keys@[before[j - 1] as int] < key);
                } else {
                    assert(precedes(keys@, before[i - 1] as int, before[j - 1] as int));
                }
            }
            assert forall|q: usize| #[trigger] before.contains(q) implies grown.contains(q) by {
                let k = choose|k: int| 0 <= k < before.len() && before[k] == q;
                if k < at {
                    assert(grown[k] == q);
                } else {
                    assert(grown[k + 1] == q);
                }
            }
            assert(grown[at as int] == p);
        }
        if full {
            let ghost dropped = grown[grown.len() - 1];
            best.pop();
            proof {
                let kept = best@;
                assert(kept =~= grown.drop_last());
                assert forall|i: int, q: usize|
                    0 <= i < kept.len() && q < p + 1 && !(#[trigger] kept.contains(
                        q,
                    )) implies precedes(keys@, (#[trigger] kept[i]) as int, q as int) by {
                    assert(kept[i] == grown[i]);
                    assert(precedes(keys@, grown[i] as int, dropped as int));
                    if q != dropped {
                        assert(!grown.contains(q)) by {
                            if grown.contains(q) {
                                let k = choose|k: int| 0 <= k < grown.len() && grown[k] == q;
                                assert(kept[k] == q);
                            }
                        }
                        assert(!before.contains(q));
                        assert(q != p);
                        if at as int == grown.len() - 1 {
                            assert(before[i] == grown[i]);
                            assert(precedes(keys@, before[i] as int, q as int));
                        } else {
                            let last = before[before.len() - 1];
                            assert(last == dropped);
                            assert(precedes(keys@, last as int, q as int));
                        }
                    }
                }
            }
        } else {
            proof {
                assert forall|q: usize| q < p + 1 implies #[trigger] grown.contains(q) by {
                    if q < p {
                        assert(before.contains(q));
                    }
                }
            }
        }
        p += 1;
    }
    best
}


/// In a ranking, the candidate in place `n` comes before the one that
/// another ranking of the same candidates has there, unless both have the
/// same, once the two agree on all places before `n`.
proof fn lemma_place_precedes(keys: Seq<i64>, limit: int, a: Seq<usize>, b: Seq<usize>, n: int)
    requires
        is_ranking(keys, limit, a),
        is_ranking(keys, limit, b),
        0 <= n < a.len(),
        forall|j: int| 0 <= j < n ==> a[j] == b[j],
        a[n] != b[n],
    ensures
        precedes(keys, b[n] as int, a[n] as int),
{
    if b.contains(a[n]) {
        let j = choose|j: int| 0 <= j < b.len() && b[j] == a[n];
        if j < n {
            assert(a[j] == b[j]);
            assert(precedes(keys, a[j] as int, a[n] as int));
        } else {
            assert(precedes(keys, b[n] as int, b[j] as int));
        }
    }
}

/// The candidates, the keys and the limit determine the ranking: there is
/// one order only that `is_ranking` accepts.
pub proof fn lemma_ranking_unique(keys: Seq<i64>, limit: int, a: Seq<usize>, b: Seq<usize>)
    requires
        is_ranking(keys, limit, a),
        is_ranking(keys, limit, b),
    ensures
        a == b,
{
    lemma_rankings_agree(keys, limit, a, b, a.len() as int);
    assert(a =~= b);
}

/// Two rankings of the same candidates agree on their first `n` places.
proof fn lemma_rankings_agree(keys: Seq<i64>, limit: int, a: Seq<usize>, b: Seq<usize>, n: int)
    requires
        is_ranking(keys, limit, a),
        is_ranking(keys, limit, b),
        0 <= n <= a.len(),
    ensures
        forall|j: int| 0 <= j < n ==> a[j] == b[j],
    decreases n,
{
    if n > 0 {
        lemma_rankings_agree(keys, limit, a, b, n - 1);
        if a[n - 1] != b[n - 1] {
            lemma_place_precedes(keys, limit, a, b, n - 1);
            lemma_place_precedes(keys, limit, b, a, n - 1);
        }
    }
}

} // verus!
