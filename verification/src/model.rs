use crate::order::strictly_ranked;
use crate::score::reciprocal_rank;
use vstd::prelude::*;

verus! {

/// What the first `n` entries of `list` give `id` under smoothing constant `k`: the
/// share of each position at which the list names `id`.
pub open spec fn list_credit_upto<T>(list: Seq<T>, k: nat, id: T, n: nat) -> real
    decreases n,
{
    if n == 0 {
        0real
    } else {
        list_credit_upto(list, k, id, (n - 1) as nat) + if list[n - 1] == id {
            reciprocal_rank(k, (n - 1) as nat)
        } else {
            0real
        }
    }
}

/// What `list` gives `id` under smoothing constant `k`.
pub open spec fn list_credit<T>(list: Seq<T>, k: nat, id: T) -> real {
    list_credit_upto(list, k, id, list.len())
}

/// The fused score of `id` over the first `n` lists: the sum of each list's credit,
/// scaled by the weight of the list.
pub open spec fn fused_score_upto<T>(
    lists: Seq<Seq<T>>,
    weights: Seq<real>,
    k: nat,
    id: T,
    n: nat,
) -> real
    decreases n,
{
    if n == 0 {
        0real
    } else {
        fused_score_upto(lists, weights, k, id, (n - 1) as nat) + weights[n - 1] * list_credit(
            lists[n - 1],
            k,
            id,
        )
    }
}

/// The fused score of `id`: over all lists that name it, the sum of
/// `weight / (k + rank + 1)`.
pub open spec fn fused_score<T>(lists: Seq<Seq<T>>, weights: Seq<real>, k: nat, id: T) -> real {
    fused_score_upto(lists, weights, k, id, lists.len())
}

/// The weight one for each of `n` lists.
pub open spec fn unit_weights(n: nat) -> Seq<real> {
    Seq::new(n, |i: int| 1real)
}

/// Whether one of the first `n` entries of `list` is `id`.
pub open spec fn listed_upto<T>(list: Seq<T>, id: T, n: nat) -> bool {
    exists|r: int| 0 <= r < n && #[trigger] list[r] == id
}

/// Whether one of the first `n` lists names `id`.
pub open spec fn named_upto<T>(lists: Seq<Seq<T>>, id: T, n: nat) -> bool {
    exists|i: int| 0 <= i < n && listed_upto(#[trigger] lists[i], id, lists[i].len())
}

/// Whether some list names `id`.
pub open spec fn named<T>(lists: Seq<Seq<T>>, id: T) -> bool {
    named_upto(lists, id, lists.len())
}

/// Whether no two entries of `ranking` have the same identifier.
pub open spec fn distinct_ids<T>(ranking: Seq<(T, real)>) -> bool {
    forall|i: int, j: int|
        0 <= i < j < ranking.len() ==> (#[trigger] ranking[i]).0 != (#[trigger] ranking[j]).0
}

/// Whether `ranking` has an entry for `id`.
pub open spec fn holds_id<T>(ranking: Seq<(T, real)>, id: T) -> bool {
    exists|j: int| 0 <= j < ranking.len() && (#[trigger] ranking[j]).0 == id
}

/// Whether `ranking` holds the identifiers that the lists name and no others, each
/// once and with its fused score under `weights` and smoothing constant `k`.
pub open spec fn holds_fused_scores<T>(
    ranking: Seq<(T, real)>,
    lists: Seq<Seq<T>>,
    weights: Seq<real>,
    k: nat,
) -> bool {
    &&& distinct_ids(ranking)
    &&& forall|id: T| holds_id(ranking, id) <==> named(lists, id)
    &&& forall|j: int|
        0 <= j < ranking.len() ==> (#[trigger] ranking[j]).1 == fused_score(
            lists,
            weights,
            k,
            ranking[j].0,
        )
}

/// Whether `ranking` is the fusion of `lists` under `weights` and smoothing constant `k`:
/// it holds the identifiers that the lists name and no others, each once and with its
/// fused score, by descending score and, among equal scores, by ascending identifier.
pub open spec fn is_fusion<T: Ord>(
    ranking: Seq<(T, real)>,
    lists: Seq<Seq<T>>,
    weights: Seq<real>,
    k: nat,
) -> bool {
    &&& holds_fused_scores(ranking, lists, weights, k)
    &&& strictly_ranked(ranking)
}

/// A list that does not name `id` gives it nothing.
pub proof fn lemma_unlisted_has_no_credit<T>(list: Seq<T>, k: nat, id: T, n: nat)
    requires
        !listed_upto(list, id, n),
    ensures
        list_credit_upto(list, k, id, n) == 0real,
    decreases n,
{
    if n > 0 {
        assert(!listed_upto(list, id, (n - 1) as nat)) by {
            if listed_upto(list, id, (n - 1) as nat) {
                let r = choose|r: int| 0 <= r < n - 1 && #[trigger] list[r] == id;
                assert(0 <= r < n && list[r] == id);
            }
        }
        lemma_unlisted_has_no_credit(list, k, id, (n - 1) as nat);
        assert(list[n - 1] != id) by {
            if list[n - 1] == id {
                assert(0 <= n - 1 < n && list[n - 1] == id);
            }
        }
    }
}

/// Lists that do not name `id` give it the score zero.
pub proof fn lemma_unnamed_has_no_score<T>(
    lists: Seq<Seq<T>>,
    weights: Seq<real>,
    k: nat,
    id: T,
    n: nat,
)
    requires
        !named_upto(lists, id, n),
    ensures
        fused_score_upto(lists, weights, k, id, n) == 0real,
    decreases n,
{
    if n > 0 {
        assert(!named_upto(lists, id, (n - 1) as nat)) by {
            if named_upto(lists, id, (n - 1) as nat) {
                let i = choose|i: int|
                    0 <= i < n - 1 && listed_upto(#[trigger] lists[i], id, lists[i].len());
                assert(0 <= i < n && listed_upto(lists[i], id, lists[i].len()));
            }
        }
        lemma_unnamed_has_no_score(lists, weights, k, id, (n - 1) as nat);
        let last = lists[n - 1];
        assert(!listed_upto(last, id, last.len())) by {
            if listed_upto(last, id, last.len()) {
                assert(0 <= n - 1 < n && listed_upto(lists[n - 1], id, lists[n - 1].len()));
            }
        }
        lemma_unlisted_has_no_credit(last, k, id, last.len());
        assert(weights[n - 1] * 0real == 0real) by (nonlinear_arith);
    }
}

} // verus!
