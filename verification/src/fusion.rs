use crate::error::FusionError;
use crate::identifier::sound_identifier;
use crate::model::distinct_ids;
use crate::model::fused_score_upto;
use crate::model::holds_fused_scores;
use crate::model::holds_id;
use crate::model::is_fusion;
use crate::model::lemma_unlisted_has_no_credit;
use crate::model::lemma_unnamed_has_no_score;
use crate::model::list_credit_upto;
use crate::model::listed_upto;
use crate::model::named_upto;
use crate::model::unit_weights;
use crate::ranking::lemma_rank_order_completes_fusion;
use crate::ranking::ranking_view;
use crate::ranking::sort_by_rank;
use crate::score::Score;
use crate::score::Weight;
use crate::score::reciprocal_rank;
use crate::tally::Tally;
use std::hash::Hash;
use vstd::prelude::*;

verus! {

/// The ranked lists as sequences of identifiers.
pub open spec fn lists_view<T>(lists: Seq<Vec<T>>) -> Seq<Seq<T>> {
    lists.map_values(|list: Vec<T>| list@)
}

/// The weights as real numbers.
pub open spec fn weights_view(weights: Seq<Weight>) -> Seq<real> {
    weights.map_values(|weight: Weight| weight@)
}

/// Whether `tally` holds the identifiers that the first `done` lists and the first
/// `rank` entries of the next list name, each with the score that those give it.
spec fn tallied_upto<T>(
    tally: Seq<(T, real)>,
    lists: Seq<Seq<T>>,
    weights: Seq<real>,
    k: nat,
    done: nat,
    rank: nat,
) -> bool {
    &&& forall|id: T|
        holds_id(tally, id) <==> named_upto(lists, id, done) || listed_upto(
            lists[done as int],
            id,
            rank,
        )
    &&& forall|j: int|
        0 <= j < tally.len() ==> (#[trigger] tally[j]).1 == fused_score_upto(
            lists,
            weights,
            k,
            tally[j].0,
            done,
        ) + weights[done as int] * list_credit_upto(lists[done as int], k, tally[j].0, rank)
}

/// Whether `tally` holds the identifiers that the first `done` lists name, each with
/// the score that those give it.
spec fn tallied<T>(
    tally: Seq<(T, real)>,
    lists: Seq<Seq<T>>,
    weights: Seq<real>,
    k: nat,
    done: nat,
) -> bool {
    &&& forall|id: T| holds_id(tally, id) <==> named_upto(lists, id, done)
    &&& forall|j: int|
        0 <= j < tally.len() ==> (#[trigger] tally[j]).1 == fused_score_upto(
            lists,
            weights,
            k,
            tally[j].0,
            done,
        )
}

/// A tally of the first `done` lists has taken nothing of the next list yet.
proof fn lemma_list_begins<T>(
    tally: Seq<(T, real)>,
    lists: Seq<Seq<T>>,
    weights: Seq<real>,
    k: nat,
    done: nat,
)
    requires
        tallied(tally, lists, weights, k, done),
    ensures
        tallied_upto(tally, lists, weights, k, done, 0),
{
    assert(weights[done as int] * 0real == 0real) by (nonlinear_arith);
}

/// A tally that has taken all of a list is a tally of the lists up to it.
proof fn lemma_list_ends<T>(
    tally: Seq<(T, real)>,
    lists: Seq<Seq<T>>,
    weights: Seq<real>,
    k: nat,
    done: nat,
)
    requires
        tallied_upto(tally, lists, weights, k, done, lists[done as int].len()),
    ensures
        tallied(tally, lists, weights, k, done + 1),
{
    let list = lists[done as int];
    assert forall|id: T| holds_id(tally, id) <==> named_upto(lists, id, done + 1) by {
        if named_upto(lists, id, done + 1) {
            let m = choose|m: int|
                0 <= m < done + 1 && listed_upto(#[trigger] lists[m], id, lists[m].len());
            if m < done {
                assert(named_upto(lists, id, done));
            }
        }
        if named_upto(lists, id, done) {
            let m = choose|m: int|
                0 <= m < done && listed_upto(#[trigger] lists[m], id, lists[m].len());
            assert(0 <= m < done + 1 && listed_upto(lists[m], id, lists[m].len()));
        }
        if listed_upto(list, id, list.len()) {
            assert(0 <= done < done + 1 && listed_upto(
                lists[done as int],
                id,
                lists[done as int].len(),
            ));
        }
    }
}

/// Crediting the identifier at `rank` of the next list with its share takes the tally
/// one entry further into that list.
proof fn lemma_entry_credited<T>(
    before: Seq<(T, real)>,
    after: Seq<(T, real)>,
    lists: Seq<Seq<T>>,
    weights: Seq<real>,
    k: nat,
    done: nat,
    rank: nat,
)
    requires
        rank < lists[done as int].len(),
        distinct_ids(before),
        tallied_upto(before, lists, weights, k, done, rank),
        ({
            let id = lists[done as int][rank as int];
            let share = weights[done as int] * reciprocal_rank(k, rank);
            &&& forall|j: int|
                0 <= j < before.len() && (#[trigger] before[j]).0 == id ==> after == before.update(
                    j,
                    (id, before[j].1 + share),
                )
            &&& !holds_id(before, id) ==> after == before.push((id, share))
        }),
    ensures
        tallied_upto(after, lists, weights, k, done, rank + 1),
{
    let list = lists[done as int];
    let weight = weights[done as int];
    let id = list[rank as int];
    let s = reciprocal_rank(k, rank);
    assert forall|x: T| listed_upto(list, x, rank + 1) <==> listed_upto(list, x, rank) || x
        == id by {
        if listed_upto(list, x, rank + 1) {
            let r = choose|r: int| 0 <= r < rank + 1 && #[trigger] list[r] == x;
            if r < rank {
                assert(listed_upto(list, x, rank));
            }
        }
        if listed_upto(list, x, rank) {
            let r = choose|r: int| 0 <= r < rank && #[trigger] list[r] == x;
            assert(0 <= r < rank + 1 && list[r] == x);
        }
        if x == id {
            assert(0 <= rank < rank + 1 && list[rank as int] == x);
        }
    }
    if holds_id(before, id) {
        let at = choose|at: int| 0 <= at < before.len() && (#[trigger] before[at]).0 == id;
        assert(after == before.update(at, (id, before[at].1 + weight * s)));
        assert forall|x: T| holds_id(after, x) <==> holds_id(before, x) by {
            if holds_id(after, x) {
                let j = choose|j: int| 0 <= j < after.len() && (#[trigger] after[j]).0 == x;
                assert(before[j].0 == x);
            }
            if holds_id(before, x) {
                let j = choose|j: int| 0 <= j < before.len() && (#[trigger] before[j]).0 == x;
                assert(after[j].0 == x);
            }
        }
        assert forall|j: int| 0 <= j < after.len() implies (#[trigger] after[j]).1
            == fused_score_upto(lists, weights, k, after[j].0, done) + weight * list_credit_upto(
            list,
            k,
            after[j].0,
            rank + 1,
        ) by {
            let c = list_credit_upto(list, k, before[j].0, rank);
            assert(after[j].0 == before[j].0);
            if j == at {
                assert(weight * (c + s) == weight * c + weight * s) by (nonlinear_arith);
            } else {
                assert(before[j].0 != before[at].0);
            }
        }
    } else {
        assert(after == before.push((id, weight * s)));
        lemma_unnamed_has_no_score(lists, weights, k, id, done);
        lemma_unlisted_has_no_credit(list, k, id, rank);
        assert(weight * (0real + s) == weight * s) by (nonlinear_arith);
        assert forall|x: T| holds_id(after, x) <==> holds_id(before, x) || x == id by {
            if holds_id(after, x) {
                let j = choose|j: int| 0 <= j < after.len() && (#[trigger] after[j]).0 == x;
                if j < before.len() {
                    assert(before[j].0 == x);
                }
            }
            if holds_id(before, x) {
                let j = choose|j: int| 0 <= j < before.len() && (#[trigger] before[j]).0 == x;
                assert(after[j].0 == x);
            }
            if x == id {
                assert(after[before.len() as int].0 == x);
            }
        }
        assert forall|j: int| 0 <= j < after.len() implies (#[trigger] after[j]).1
            == fused_score_upto(lists, weights, k, after[j].0, done) + weight * list_credit_upto(
            list,
            k,
            after[j].0,
            rank + 1,
        ) by {
            if j < before.len() {
                assert(after[j] == before[j]);
                assert(holds_id(before, before[j].0));
            }
        }
    }
}

/// Adds up, for each identifier that a list names, the weighted shares of its
/// positions.
fn accumulate<T: Clone + Eq + Hash + Ord>(
    ranked_lists: &[Vec<T>],
    weights: &[Weight],
    k: usize,
) -> (entries: Vec<(T, Score)>)
    requires
        sound_identifier::<T>(),
        ranked_lists.len() == weights.len(),
    ensures
        holds_fused_scores(
            ranking_view(entries@),
            lists_view(ranked_lists@),
            weights_view(weights@),
            k as nat,
        ),
{
    let ghost lists = lists_view(ranked_lists@);
    let ghost ws = weights_view(weights@);
    let mut tally: Tally<T> = Tally::new();
    let mut i: usize = 0;
    while i < ranked_lists.len()
        invariant
            sound_identifier::<T>(),
            ranked_lists.len() == weights.len(),
            lists == lists_view(ranked_lists@),
            ws == weights_view(weights@),
            i <= ranked_lists.len(),
            tally.well_formed(),
            tallied(tally@, lists, ws, k as nat, i as nat),
        decreases ranked_lists.len() - i,
    {
        let list: &Vec<T> = &ranked_lists[i];
        let weight: &Weight = &weights[i];
        let mut rank: usize = 0;
        proof {
            lemma_list_begins(tally@, lists, ws, k as nat, i as nat);
        }
        while rank < list.len()
            invariant
                sound_identifier::<T>(),
                i < ranked_lists.len(),
                ranked_lists.len() == weights.len(),
                lists == lists_view(ranked_lists@),
                ws == weights_view(weights@),
                lists[i as int] == list@,
                ws[i as int] == weight@,
                rank <= list.len(),
                tally.well_formed(),
                tallied_upto(tally@, lists, ws, k as nat, i as nat, rank as nat),
            decreases list.len() - rank,
        {
            let share: Score = Score::contribution(weight, k, rank);
            let ghost before = tally@;
            proof {
                tally.lemma_ids_are_distinct();
            }
            tally.credit(&list[rank], share);
            proof {
                lemma_entry_credited(before, tally@, lists, ws, k as nat, i as nat, rank as nat);
            }
            rank += 1;
        }
        proof {
            lemma_list_ends(tally@, lists, ws, k as nat, i as nat);
        }
        i += 1;
    }
    proof {
        tally.lemma_ids_are_distinct();
    }
    tally.into_entries()
}

/// The fusion of `ranked_lists` under `weights`, one for each list.
fn fuse_lists<T: Clone + Eq + Hash + Ord>(
    ranked_lists: &[Vec<T>],
    weights: &[Weight],
    k: usize,
) -> (ranking: Vec<(T, Score)>)
    requires
        sound_identifier::<T>(),
        ranked_lists.len() == weights.len(),
    ensures
        is_fusion(
            ranking_view(ranking@),
            lists_view(ranked_lists@),
            weights_view(weights@),
            k as nat,
        ),
{
    let entries = accumulate(ranked_lists, weights, k);
    let ranking = sort_by_rank(entries);
    proof {
        lemma_rank_order_completes_fusion(
            entries@,
            ranking@,
            lists_view(ranked_lists@),
            weights_view(weights@),
            k as nat,
        );
    }
    ranking
}

/// Fuses ranked lists of identifiers, each most relevant first, into one ranking by
/// reciprocal rank fusion with smoothing constant `k`.
///
/// The ranking holds each identifier that some list names, once, with the sum of
/// `1 / (k + rank + 1)` over its zero-based ranks, by descending score and, among equal
/// scores, by ascending identifier.
pub fn fuse<T: Clone + Eq + Hash + Ord>(ranked_lists: &[Vec<T>], k: usize) -> (ranking: Vec<
    (T, Score),
>)
    requires
        sound_identifier::<T>(),
    ensures
        is_fusion(
            ranking_view(ranking@),
            lists_view(ranked_lists@),
            unit_weights(ranked_lists@.len()),
            k as nat,
        ),
        ranked_lists@.len() == 0 ==> ranking@.len() == 0,
{
    let mut weights: Vec<Weight> = Vec::new();
    while weights.len() < ranked_lists.len()
        invariant
            weights.len() <= ranked_lists.len(),
            forall|i: int| 0 <= i < weights.len() ==> (#[trigger] weights[i])@ == 1real,
        decreases ranked_lists.len() - weights.len(),
    {
        weights.push(Weight::one());
    }
    proof {
        assert(weights_view(weights@) =~= unit_weights(ranked_lists@.len()));
    }
    let ranking = fuse_lists(ranked_lists, weights.as_slice(), k);
    proof {
        if ranked_lists@.len() == 0 && ranking@.len() > 0 {
            assert(holds_id(ranking_view(ranking@), ranking_view(ranking@)[0].0));
        }
    }
    ranking
}

/// Fuses ranked lists of identifiers as `fuse` does, with the shares of each list scaled
/// by the weight that stands at the list's place in `weights`.
///
/// Where the number of weights differs from the number of lists, the two are rejected.
pub fn fuse_weighted<T: Clone + Eq + Hash + Ord>(
    ranked_lists: &[Vec<T>],
    weights: &[Weight],
    k: usize,
) -> (result: Result<Vec<(T, Score)>, FusionError>)
    requires
        sound_identifier::<T>(),
    ensures
        ranked_lists@.len() != weights@.len() ==> result is Err && result->Err_0 == (
        FusionError::LengthMismatch { lists: ranked_lists.len(), weights: weights.len() }),
        ranked_lists@.len() == weights@.len() ==> result is Ok && is_fusion(
            ranking_view(result->Ok_0@),
            lists_view(ranked_lists@),
            weights_view(weights@),
            k as nat,
        ),
        ranked_lists@.len() == 0 && weights@.len() == 0 ==> result is Ok && result->Ok_0@.len()
            == 0,
{
    if ranked_lists.len() != weights.len() {
        return Err(
            FusionError::LengthMismatch { lists: ranked_lists.len(), weights: weights.len() },
        );
    }
    let ranking = fuse_lists(ranked_lists, weights, k);
    proof {
        if ranked_lists@.len() == 0 && ranking@.len() > 0 {
            assert(holds_id(ranking_view(ranking@), ranking_view(ranking@)[0].0));
        }
    }
    Ok(ranking)
}

} // verus!
