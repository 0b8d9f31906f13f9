use crate::identifier::total_order;
use crate::model::fused_score;
use crate::model::fused_score_upto;
use crate::model::holds_id;
use crate::model::is_fusion;
use crate::model::lemma_unlisted_has_no_credit;
use crate::model::lemma_unnamed_has_no_score;
use crate::model::list_credit;
use crate::model::list_credit_upto;
use crate::model::listed_upto;
use crate::model::named;
use crate::model::named_upto;
use crate::model::unit_weights;
use crate::order::lemma_rank_irreflexive;
use crate::order::lemma_rank_transitive;
use crate::order::ranks_before;
use crate::order::strictly_ranked;
use crate::score::reciprocal_rank;
use vstd::prelude::*;

verus! {

/// Whether `id` stands in `lists` at rank `rank` of list `at`.
pub open spec fn stands_at<T>(lists: Seq<Seq<T>>, id: T, at: int, rank: int) -> bool {
    0 <= at < lists.len() && 0 <= rank < lists[at].len() && lists[at][rank] == id
}

/// A weight times the share of a rank is the weight over `k + rank + 1`.
proof fn lemma_share_is_quotient(weight: real, k: nat, rank: nat)
    ensures
        weight * reciprocal_rank(k, rank) == weight / ((k + rank + 1) as real),
{
    let m = (k + rank + 1) as int;
    assert(weight * (1real / (m as real)) == weight / (m as real)) by (nonlinear_arith)
        requires
            m > 0,
    ;
}

/// The credit of a list that holds `id` at `rank` only, among its first `n` entries.
proof fn lemma_credit_of_one_place<T>(list: Seq<T>, k: nat, id: T, n: nat, rank: int)
    requires
        0 <= rank < n,
        list[rank] == id,
        forall|r: int| 0 <= r < n && list[r] == id ==> r == rank,
    ensures
        list_credit_upto(list, k, id, n) == reciprocal_rank(k, rank as nat),
    decreases n,
{
    if n - 1 == rank {
        assert(!listed_upto(list, id, (n - 1) as nat));
        lemma_unlisted_has_no_credit(list, k, id, (n - 1) as nat);
    } else {
        lemma_credit_of_one_place(list, k, id, (n - 1) as nat, rank);
    }
}

/// The credit of a list that holds `id` at `first` and `second` only, among its first
/// `n` entries.
proof fn lemma_credit_of_two_places<T>(
    list: Seq<T>,
    k: nat,
    id: T,
    n: nat,
    first: int,
    second: int,
)
    requires
        0 <= first < second < n,
        list[first] == id,
        list[second] == id,
        forall|r: int| 0 <= r < n && list[r] == id ==> r == first || r == second,
    ensures
        list_credit_upto(list, k, id, n) == reciprocal_rank(k, first as nat) + reciprocal_rank(
            k,
            second as nat,
        ),
    decreases n,
{
    if n - 1 == second {
        lemma_credit_of_one_place(list, k, id, (n - 1) as nat, first);
    } else {
        lemma_credit_of_two_places(list, k, id, (n - 1) as nat, first, second);
    }
}

/// The score, over the first `n` lists, of an identifier that stands in them at one
/// place only.
proof fn lemma_score_of_one_place<T>(
    lists: Seq<Seq<T>>,
    weights: Seq<real>,
    k: nat,
    id: T,
    n: nat,
    at: int,
    rank: int,
)
    requires
        n <= lists.len(),
        at < n,
        stands_at(lists, id, at, rank),
        forall|i: int, r: int| 0 <= i < n && stands_at(lists, id, i, r) ==> i == at && r == rank,
    ensures
        fused_score_upto(lists, weights, k, id, n) == weights[at] * reciprocal_rank(
            k,
            rank as nat,
        ),
    decreases n,
{
    let last = lists[n - 1];
    if n - 1 == at {
        assert(!named_upto(lists, id, (n - 1) as nat)) by {
            if named_upto(lists, id, (n - 1) as nat) {
                let i = choose|i: int|
                    0 <= i < n - 1 && listed_upto(#[trigger] lists[i], id, lists[i].len());
                let r = choose|r: int| 0 <= r < lists[i].len() && #[trigger] lists[i][r] == id;
                assert(stands_at(lists, id, i, r));
            }
        }
        lemma_unnamed_has_no_score(lists, weights, k, id, (n - 1) as nat);
        assert forall|r: int| 0 <= r < last.len() && last[r] == id implies r == rank by {
            assert(stands_at(lists, id, n - 1, r));
        }
        lemma_credit_of_one_place(last, k, id, last.len(), rank);
    } else {
        lemma_score_of_one_place(lists, weights, k, id, (n - 1) as nat, at, rank);
        assert(!listed_upto(last, id, last.len())) by {
            if listed_upto(last, id, last.len()) {
                let r = choose|r: int| 0 <= r < last.len() && #[trigger] last[r] == id;
                assert(stands_at(lists, id, n - 1, r));
            }
        }
        lemma_unlisted_has_no_credit(last, k, id, last.len());
        assert(weights[n - 1] * 0real == 0real) by (nonlinear_arith);
    }
}

/// The score, over the first `n` lists, of an identifier that stands in them at two
/// places only, the first of them in an earlier list or at a lower rank of the same.
proof fn lemma_score_of_two_places<T>(
    lists: Seq<Seq<T>>,
    weights: Seq<real>,
    k: nat,
    id: T,
    n: nat,
    at1: int,
    rank1: int,
    at2: int,
    rank2: int,
)
    requires
        n <= lists.len(),
        at2 < n,
        at1 < at2 || (at1 == at2 && rank1 < rank2),
        stands_at(lists, id, at1, rank1),
        stands_at(lists, id, at2, rank2),
        forall|i: int, r: int|
            0 <= i < n && stands_at(lists, id, i, r) ==> (i == at1 && r == rank1) || (i == at2 && r
                == rank2),
    ensures
        fused_score_upto(lists, weights, k, id, n) == weights[at1] * reciprocal_rank(
            k,
            rank1 as nat,
        ) + weights[at2] * reciprocal_rank(k, rank2 as nat),
    decreases n,
{
    let last = lists[n - 1];
    let s1 = reciprocal_rank(k, rank1 as nat);
    let s2 = reciprocal_rank(k, rank2 as nat);
    if n - 1 == at2 {
        if at1 == at2 {
            assert(!named_upto(lists, id, (n - 1) as nat)) by {
                if named_upto(lists, id, (n - 1) as nat) {
                    let i = choose|i: int|
                        0 <= i < n - 1 && listed_upto(#[trigger] lists[i], id, lists[i].len());
                    let r = choose|r: int| 0 <= r < lists[i].len() && #[trigger] lists[i][r] == id;
                    assert(stands_at(lists, id, i, r));
                }
            }
            lemma_unnamed_has_no_score(lists, weights, k, id, (n - 1) as nat);
            assert forall|r: int| 0 <= r < last.len() && last[r] == id implies r == rank1 || r
                == rank2 by {
                assert(stands_at(lists, id, n - 1, r));
            }
            lemma_credit_of_two_places(last, k, id, last.len(), rank1, rank2);
            assert(weights[at2] * (s1 + s2) == weights[at2] * s1 + weights[at2] * s2)
                by (nonlinear_arith);
        } else {
            lemma_score_of_one_place(lists, weights, k, id, (n - 1) as nat, at1, rank1);
            assert forall|r: int| 0 <= r < last.len() && last[r] == id implies r == rank2 by {
                assert(stands_at(lists, id, n - 1, r));
            }
            lemma_credit_of_one_place(last, k, id, last.len(), rank2);
        }
    } else {
        lemma_score_of_two_places(
            lists,
            weights,
            k,
            id,
            (n - 1) as nat,
            at1,
            rank1,
            at2,
            rank2,
        );
        assert(!listed_upto(last, id, last.len())) by {
            if listed_upto(last, id, last.len()) {
                let r = choose|r: int| 0 <= r < last.len() && #[trigger] last[r] == id;
                assert(stands_at(lists, id, n - 1, r));
            }
        }
        lemma_unlisted_has_no_credit(last, k, id, last.len());
        assert(weights[n - 1] * 0real == 0real) by (nonlinear_arith);
    }
}

/// An identifier that stands in the lists at one place only, at rank `rank` of a list
/// of weight `w`, has the fused score `w / (k + rank + 1)`.
pub proof fn lemma_single_occurrence_score<T>(
    lists: Seq<Seq<T>>,
    weights: Seq<real>,
    k: nat,
    id: T,
    at: int,
    rank: int,
)
    requires
        weights.len() == lists.len(),
        stands_at(lists, id, at, rank),
        forall|i: int, r: int| stands_at(lists, id, i, r) ==> i == at && r == rank,
    ensures
        fused_score(lists, weights, k, id) == weights[at] / ((k + rank + 1) as real),
{
    lemma_score_of_one_place(lists, weights, k, id, lists.len(), at, rank);
    lemma_share_is_quotient(weights[at], k, rank as nat);
}

/// An identifier that stands in the lists at two places only has as its fused score
/// the sum of what each place gives alone: `w1 / (k + rank1 + 1) + w2 / (k + rank2 + 1)`.
pub proof fn lemma_two_occurrences_add<T>(
    lists: Seq<Seq<T>>,
    weights: Seq<real>,
    k: nat,
    id: T,
    at1: int,
    rank1: int,
    at2: int,
    rank2: int,
)
    requires
        weights.len() == lists.len(),
        stands_at(lists, id, at1, rank1),
        stands_at(lists, id, at2, rank2),
        at1 != at2 || rank1 != rank2,
        forall|i: int, r: int|
            stands_at(lists, id, i, r) ==> (i == at1 && r == rank1) || (i == at2 && r == rank2),
    ensures
        fused_score(lists, weights, k, id) == weights[at1] / ((k + rank1 + 1) as real)
            + weights[at2] / ((k + rank2 + 1) as real),
{
    lemma_share_is_quotient(weights[at1], k, rank1 as nat);
    lemma_share_is_quotient(weights[at2], k, rank2 as nat);
    if at1 < at2 || (at1 == at2 && rank1 < rank2) {
        lemma_score_of_two_places(lists, weights, k, id, lists.len(), at1, rank1, at2, rank2);
    } else {
        lemma_score_of_two_places(lists, weights, k, id, lists.len(), at2, rank2, at1, rank1);
    }
}

/// No lists fuse to the empty ranking.
pub proof fn lemma_no_lists_fuse_to_nothing<T: Ord>(
    ranking: Seq<(T, real)>,
    lists: Seq<Seq<T>>,
    weights: Seq<real>,
    k: nat,
)
    requires
        lists.len() == 0,
        is_fusion(ranking, lists, weights, k),
    ensures
        ranking.len() == 0,
{
    if ranking.len() > 0 {
        assert(holds_id(ranking, ranking[0].0));
    }
}

/// Two rankings that are each in strict rank order and hold the same entries are the
/// same ranking.
pub proof fn lemma_strict_ranking_is_unique<T: Ord>(a: Seq<(T, real)>, b: Seq<(T, real)>)
    requires
        total_order::<T>(),
        strictly_ranked(a),
        strictly_ranked(b),
        forall|x: (T, real)| a.contains(x) <==> b.contains(x),
    ensures
        a == b,
    decreases a.len(),
{
    if a.len() == 0 {
        if b.len() > 0 {
            assert(b.contains(b[0]));
        }
        assert(a =~= b);
    } else {
        assert(a.contains(a[0]));
        assert(b.len() > 0);
        assert(b.contains(b[0]));
        let i = choose|i: int| 0 <= i < a.len() && a[i] == b[0];
        let j = choose|j: int| 0 <= j < b.len() && b[j] == a[0];
        assert(a[0] == b[0]) by {
            if i > 0 && j > 0 {
                assert(ranks_before(a[0], a[i]));
                assert(ranks_before(b[0], b[j]));
                lemma_rank_transitive(a[0], b[0], a[0]);
                lemma_rank_irreflexive(a[0]);
            }
        }
        let a_rest = a.drop_first();
        let b_rest = b.drop_first();
        assert forall|x: (T, real)| a_rest.contains(x) <==> b_rest.contains(x) by {
            if a_rest.contains(x) {
                let p = choose|p: int| 0 <= p < a_rest.len() && a_rest[p] == x;
                assert(a[p + 1] == x);
                assert(ranks_before(a[0], a[p + 1]));
                lemma_rank_irreflexive(a[0]);
                assert(a.contains(x));
                let q = choose|q: int| 0 <= q < b.len() && b[q] == x;
                assert(b_rest[q - 1] == x);
            }
            if b_rest.contains(x) {
                let p = choose|p: int| 0 <= p < b_rest.len() && b_rest[p] == x;
                assert(b[p + 1] == x);
                assert(ranks_before(b[0], b[p + 1]));
                lemma_rank_irreflexive(b[0]);
                assert(b.contains(x));
                let q = choose|q: int| 0 <= q < a.len() && a[q] == x;
                assert(a_rest[q - 1] == x);
            }
        }
        assert(strictly_ranked(a_rest)) by {
            assert forall|p: int, q: int| 0 <= p < q < a_rest.len() implies ranks_before(
                a_rest[p],
                a_rest[q],
            ) by {
                assert(ranks_before(a[p + 1], a[q + 1]));
            }
        }
        assert(strictly_ranked(b_rest)) by {
            assert forall|p: int, q: int| 0 <= p < q < b_rest.len() implies ranks_before(
                b_rest[p],
                b_rest[q],
            ) by {
                assert(ranks_before(b[p + 1], b[q + 1]));
            }
        }
        lemma_strict_ranking_is_unique(a_rest, b_rest);
        assert(a =~= seq![a[0]] + a_rest);
        assert(b =~= seq![b[0]] + b_rest);
    }
}

/// The lists, weights and smoothing constant decide the fused ranking: two fusions of
/// the same input are the same ranking.
pub proof fn lemma_fusion_is_unique<T: Ord>(
    first: Seq<(T, real)>,
    second: Seq<(T, real)>,
    lists: Seq<Seq<T>>,
    weights: Seq<real>,
    k: nat,
)
    requires
        total_order::<T>(),
        is_fusion(first, lists, weights, k),
        is_fusion(second, lists, weights, k),
    ensures
        first == second,
{
    assert forall|x: (T, real)| first.contains(x) <==> second.contains(x) by {
        if first.contains(x) {
            let p = choose|p: int| 0 <= p < first.len() && first[p] == x;
            assert(holds_id(first, first[p].0));
            assert(holds_id(second, x.0));
            let q = choose|q: int| 0 <= q < second.len() && (#[trigger] second[q]).0 == x.0;
            assert(second[q] == x);
        }
        if second.contains(x) {
            let p = choose|p: int| 0 <= p < second.len() && second[p] == x;
            assert(holds_id(second, second[p].0));
            assert(holds_id(first, x.0));
            let q = choose|q: int| 0 <= q < first.len() && (#[trigger] first[q]).0 == x.0;
            assert(first[q] == x);
        }
    }
    lemma_strict_ranking_is_unique(first, second);
}

/// Whether `order` holds each index below `n` once.
pub open spec fn is_permutation(order: Seq<int>, n: nat) -> bool {
    &&& order.len() == n
    &&& forall|j: int| 0 <= j < n ==> 0 <= #[trigger] order[j] < n
    &&& forall|i: int, j: int| 0 <= i < j < n ==> #[trigger] order[i] != #[trigger] order[j]
}

/// The items of `items` in the order `order`: the item at `order[0]` first.
pub open spec fn permuted<A>(items: Seq<A>, order: Seq<int>) -> Seq<A> {
    Seq::new(order.len(), |j: int| items[order[j]])
}

/// The sum of the first `n` of `terms`.
spec fn sum_upto(terms: Seq<real>, n: nat) -> real
    decreases n,
{
    if n == 0 {
        0real
    } else {
        sum_upto(terms, (n - 1) as nat) + terms[n - 1]
    }
}

proof fn lemma_sum_agrees(a: Seq<real>, b: Seq<real>, n: nat)
    requires
        forall|i: int| 0 <= i < n ==> a[i] == b[i],
    ensures
        sum_upto(a, n) == sum_upto(b, n),
    decreases n,
{
    if n > 0 {
        lemma_sum_agrees(a, b, (n - 1) as nat);
    }
}

proof fn lemma_sum_without(terms: Seq<real>, m: int, n: nat)
    requires
        0 <= m < n <= terms.len(),
    ensures
        sum_upto(terms, n) == sum_upto(terms.remove(m), (n - 1) as nat) + terms[m],
    decreases n,
{
    let rest = terms.remove(m);
    if m == n - 1 {
        lemma_sum_agrees(terms, rest, (n - 1) as nat);
    } else {
        lemma_sum_without(terms, m, (n - 1) as nat);
        assert(rest[n - 2] == terms[n - 1]);
        assert(sum_upto(rest, (n - 1) as nat) == sum_upto(rest, (n - 2) as nat) + rest[n - 2]);
    }
}

/// A sum does not depend on the order of its terms.
proof fn lemma_sum_permuted(terms: Seq<real>, order: Seq<int>, n: nat)
    requires
        terms.len() == n,
        is_permutation(order, n),
    ensures
        sum_upto(permuted(terms, order), n) == sum_upto(terms, n),
    decreases n,
{
    if n > 0 {
        let m = order[n - 1];
        let rest = terms.remove(m);
        let rest_order = Seq::new(
            (n - 1) as nat,
            |j: int|
                if order[j] > m {
                    order[j] - 1
                } else {
                    order[j]
                },
        );
        assert(is_permutation(rest_order, (n - 1) as nat)) by {
            assert forall|j: int| 0 <= j < n - 1 implies 0 <= #[trigger] rest_order[j] < n - 1 by {
                assert(order[j] != order[n - 1]);
            }
            assert forall|i: int, j: int| 0 <= i < j < n - 1 implies #[trigger] rest_order[i]
                != #[trigger] rest_order[j] by {
                assert(order[i] != order[j]);
                assert(order[i] != order[n - 1]);
                assert(order[j] != order[n - 1]);
            }
        }
        lemma_sum_permuted(rest, rest_order, (n - 1) as nat);
        assert forall|j: int| 0 <= j < n - 1 implies permuted(terms, order)[j] == permuted(
            rest,
            rest_order,
        )[j] by {
            assert(order[j] != order[n - 1]);
        }
        lemma_sum_agrees(permuted(terms, order), permuted(rest, rest_order), (n - 1) as nat);
        lemma_sum_without(terms, m, n);
    }
}

/// A permutation holds every index below `n`.
proof fn lemma_permutation_reaches(order: Seq<int>, n: nat, i: int)
    requires
        is_permutation(order, n),
        0 <= i < n,
    ensures
        exists|j: int| 0 <= j < n && order[j] == i,
{
    let held = order.to_set();
    let all = vstd::set_lib::set_int_range(0, n as int);
    assert(order.no_duplicates());
    order.unique_seq_to_set();
    vstd::seq_lib::seq_to_set_is_finite(order);
    vstd::set_lib::lemma_int_range(0, n as int);
    assert(held.subset_of(all)) by {
        assert forall|x: int| held.contains(x) implies all.contains(x) by {
            let j = choose|j: int| 0 <= j < order.len() && order[j] == x;
            assert(0 <= order[j] < n);
        }
    }
    vstd::set_lib::lemma_subset_equality(held, all);
    assert(all.contains(i));
    assert(held.contains(i));
    assert(order.contains(i));
}

/// What each list gives `id`, scaled by the weight of the list.
spec fn list_terms<T>(lists: Seq<Seq<T>>, weights: Seq<real>, k: nat, id: T) -> Seq<real> {
    Seq::new(lists.len(), |i: int| weights[i] * list_credit(lists[i], k, id))
}

proof fn lemma_score_is_sum<T>(lists: Seq<Seq<T>>, weights: Seq<real>, k: nat, id: T, n: nat)
    requires
        n <= lists.len(),
    ensures
        fused_score_upto(lists, weights, k, id, n) == sum_upto(
            list_terms(lists, weights, k, id),
            n,
        ),
    decreases n,
{
    if n > 0 {
        lemma_score_is_sum(lists, weights, k, id, (n - 1) as nat);
    }
}

/// The fused score of an identifier does not depend on the order in which the lists,
/// each with its weight, are given.
pub proof fn lemma_score_ignores_list_order<T>(
    lists: Seq<Seq<T>>,
    weights: Seq<real>,
    k: nat,
    order: Seq<int>,
    id: T,
)
    requires
        weights.len() == lists.len(),
        is_permutation(order, lists.len()),
    ensures
        fused_score(permuted(lists, order), permuted(weights, order), k, id) == fused_score(
            lists,
            weights,
            k,
            id,
        ),
{
    let n = lists.len();
    let terms = list_terms(lists, weights, k, id);
    let moved = list_terms(permuted(lists, order), permuted(weights, order), k, id);
    lemma_score_is_sum(lists, weights, k, id, n);
    lemma_score_is_sum(permuted(lists, order), permuted(weights, order), k, id, n);
    assert(moved =~= permuted(terms, order));
    lemma_sum_permuted(terms, order, n);
}

/// Which identifiers the lists name does not depend on the order of the lists.
pub proof fn lemma_naming_ignores_list_order<T>(lists: Seq<Seq<T>>, order: Seq<int>, id: T)
    requires
        is_permutation(order, lists.len()),
    ensures
        named(permuted(lists, order), id) <==> named(lists, id),
{
    let moved = permuted(lists, order);
    if named(lists, id) {
        let i = choose|i: int|
            0 <= i < lists.len() && listed_upto(#[trigger] lists[i], id, lists[i].len());
        lemma_permutation_reaches(order, lists.len(), i);
        let j = choose|j: int| 0 <= j < lists.len() && order[j] == i;
        assert(moved[j] == lists[i]);
        assert(0 <= j < moved.len() && listed_upto(moved[j], id, moved[j].len()));
    }
    if named(moved, id) {
        let j = choose|j: int|
            0 <= j < moved.len() && listed_upto(#[trigger] moved[j], id, moved[j].len());
        let i = order[j];
        assert(moved[j] == lists[i]);
        assert(0 <= i < lists.len() && listed_upto(lists[i], id, lists[i].len()));
    }
}

/// Giving the lists, each with its weight, in another order does not change the fused
/// ranking.
pub proof fn lemma_fusion_ignores_list_order<T: Ord>(
    ranking: Seq<(T, real)>,
    reordered: Seq<(T, real)>,
    lists: Seq<Seq<T>>,
    weights: Seq<real>,
    k: nat,
    order: Seq<int>,
)
    requires
        total_order::<T>(),
        weights.len() == lists.len(),
        is_permutation(order, lists.len()),
        is_fusion(ranking, lists, weights, k),
        is_fusion(reordered, permuted(lists, order), permuted(weights, order), k),
    ensures
        reordered == ranking,
{
    let moved_lists = permuted(lists, order);
    let moved_weights = permuted(weights, order);
    assert(is_fusion(reordered, lists, weights, k)) by {
        assert forall|j: int| 0 <= j < reordered.len() implies (#[trigger] reordered[j]).1
            == fused_score(lists, weights, k, reordered[j].0) by {
            lemma_score_ignores_list_order(lists, weights, k, order, reordered[j].0);
        }
        assert forall|id: T| holds_id(reordered, id) <==> named(lists, id) by {
            lemma_naming_ignores_list_order(lists, order, id);
            assert(holds_id(reordered, id) <==> named(moved_lists, id));
        }
    }
    lemma_fusion_is_unique(reordered, ranking, lists, weights, k);
}

/// Giving the lists in another order does not change their fusion under the weight one
/// for each.
pub proof fn lemma_unweighted_fusion_ignores_list_order<T: Ord>(
    ranking: Seq<(T, real)>,
    reordered: Seq<(T, real)>,
    lists: Seq<Seq<T>>,
    k: nat,
    order: Seq<int>,
)
    requires
        total_order::<T>(),
        is_permutation(order, lists.len()),
        is_fusion(ranking, lists, unit_weights(lists.len()), k),
        is_fusion(reordered, permuted(lists, order), unit_weights(lists.len()), k),
    ensures
        reordered == ranking,
{
    let weights = unit_weights(lists.len());
    assert(permuted(weights, order) =~= weights);
    lemma_fusion_ignores_list_order(ranking, reordered, lists, weights, k, order);
}

} // verus!
