use crate::bignat::Comparison;
use crate::identifier::id_precedes;
use crate::identifier::total_order;
use crate::model::fused_score;
use crate::model::holds_fused_scores;
use crate::model::holds_id;
use crate::model::is_fusion;
use crate::model::named;
use crate::order::lemma_rank_total;
use crate::order::ranks_before;
use crate::score::Score;
use vstd::multiset::Multiset;
use vstd::prelude::*;
use vstd::seq_lib::to_multiset_build;

verus! {

/// An entry with its score as a real number.
pub open spec fn entry_view<T>(entry: (T, Score)) -> (T, real) {
    (entry.0, entry.1@)
}

/// The entries of a ranking with their scores as real numbers.
pub open spec fn ranking_view<T>(entries: Seq<(T, Score)>) -> Seq<(T, real)> {
    entries.map_values(|entry: (T, Score)| entry_view(entry))
}

/// Whether no entry of `entries` is ranked before one that stands earlier.
pub open spec fn in_rank_order<T: Ord>(entries: Seq<(T, Score)>) -> bool {
    forall|i: int, j: int|
        0 <= i < j < entries.len() ==> !ranks_before(
            entry_view(#[trigger] entries[j]),
            entry_view(#[trigger] entries[i]),
        )
}

/// Whether no entry of `entries` is ranked before one that stands later.
spec fn in_falling_order<T: Ord>(entries: Seq<(T, Score)>) -> bool {
    forall|i: int, j: int|
        0 <= i < j < entries.len() ==> !ranks_before(
            entry_view(#[trigger] entries[i]),
            entry_view(#[trigger] entries[j]),
        )
}

/// Whether no entry of `later` is ranked before one of `earlier`.
spec fn all_follow<T: Ord>(earlier: Seq<(T, Score)>, later: Seq<(T, Score)>) -> bool {
    forall|i: int, j: int|
        0 <= i < earlier.len() && 0 <= j < later.len() ==> !ranks_before(
            entry_view(#[trigger] later[j]),
            entry_view(#[trigger] earlier[i]),
        )
}

/// Whether entry `a` is ranked before entry `b`: by the higher score, and among equal
/// scores by the identifier that comes first.
pub fn entry_ranks_before<T: Ord>(a: &(T, Score), b: &(T, Score)) -> (r: bool)
    requires
        total_order::<T>(),
    ensures
        r == ranks_before(entry_view(*a), entry_view(*b)),
{
    match a.1.compare(&b.1) {
        Comparison::Greater => true,
        Comparison::Less => false,
        Comparison::Equal => id_precedes(&a.0, &b.0),
    }
}

/// Merges two rankings that are in rank order into one.
fn merge<T: Ord>(left: Vec<(T, Score)>, right: Vec<(T, Score)>) -> (merged: Vec<(T, Score)>)
    requires
        total_order::<T>(),
        in_rank_order(left@),
        in_rank_order(right@),
    ensures
        in_rank_order(merged@),
        merged@.to_multiset() == left@.to_multiset().add(right@.to_multiset()),
{
    broadcast use vstd::multiset::group_multiset_axioms;

    let ghost all = left@.to_multiset().add(right@.to_multiset());
    let mut left = left;
    let mut right = right;
    let mut falling: Vec<(T, Score)> = Vec::new();
    proof {
        falling@.to_multiset_ensures();
        assert(falling@.to_multiset() =~= Multiset::empty());
        assert(left@.to_multiset().add(right@.to_multiset()).add(falling@.to_multiset()) =~= all);
    }
    while left.len() > 0 || right.len() > 0
        invariant
            total_order::<T>(),
            in_rank_order(left@),
            in_rank_order(right@),
            in_falling_order(falling@),
            all_follow(left@, falling@),
            all_follow(right@, falling@),
            left@.to_multiset().add(right@.to_multiset()).add(falling@.to_multiset()) == all,
        decreases left.len() + right.len(),
    {
        let from_right: bool = if right.len() == 0 {
            false
        } else if left.len() == 0 {
            true
        } else {
            !entry_ranks_before(&right[right.len() - 1], &left[left.len() - 1])
        };
        let ghost left_before = left@;
        let ghost right_before = right@;
        let ghost falling_before = falling@;
        if from_right {
            let entry = right.pop().unwrap();
            falling.push(entry);
            proof {
                assert(right_before =~= right@.push(entry));
                to_multiset_build(right@, entry);
                to_multiset_build(falling_before, entry);
                assert forall|i: int, j: int|
                    0 <= i < left@.len() && 0 <= j < falling@.len() implies !ranks_before(
                    entry_view(#[trigger] falling@[j]),
                    entry_view(#[trigger] left@[i]),
                ) by {
                    if j == falling_before.len() {
                        let last = left@.len() - 1;
                        assert(!ranks_before(entry_view(entry), entry_view(left@[last])));
                        if i < last {
                            assert(!ranks_before(entry_view(left@[last]), entry_view(left@[i])));
                        }
                    } else {
                        assert(falling@[j] == falling_before[j]);
                    }
                }
                assert forall|i: int, j: int|
                    0 <= i < right@.len() && 0 <= j < falling@.len() implies !ranks_before(
                    entry_view(#[trigger] falling@[j]),
                    entry_view(#[trigger] right@[i]),
                ) by {
                    assert(right@[i] == right_before[i]);
                    if j == falling_before.len() {
                        assert(entry == right_before[right_before.len() - 1]);
                    } else {
                        assert(falling@[j] == falling_before[j]);
                    }
                }
                assert forall|i: int, j: int| 0 <= i < j < falling@.len() implies !ranks_before(
                    entry_view(#[trigger] falling@[i]),
                    entry_view(#[trigger] falling@[j]),
                ) by {
                    assert(falling@[i] == falling_before[i]);
                    if j == falling_before.len() {
                        assert(entry == right_before[right_before.len() - 1]);
                    } else {
                        assert(falling@[j] == falling_before[j]);
                    }
                }
                assert forall|i: int, j: int| 0 <= i < j < right@.len() implies !ranks_before(
                    entry_view(#[trigger] right@[j]),
                    entry_view(#[trigger] right@[i]),
                ) by {
                    assert(right@[i] == right_before[i]);
                    assert(right@[j] == right_before[j]);
                }
                assert(left@.to_multiset().add(right@.to_multiset()).add(falling@.to_multiset())
                    =~= all);
            }
        } else {
            let entry = left.pop().unwrap();
            falling.push(entry);
            proof {
                assert(left_before =~= left@.push(entry));
                to_multiset_build(left@, entry);
                to_multiset_build(falling_before, entry);
                assert forall|i: int, j: int|
                    0 <= i < right@.len() && 0 <= j < falling@.len() implies !ranks_before(
                    entry_view(#[trigger] falling@[j]),
                    entry_view(#[trigger] right@[i]),
                ) by {
                    if j == falling_before.len() {
                        let last = right@.len() - 1;
                        assert(ranks_before(entry_view(right@[last]), entry_view(entry)));
                        if i < last {
                            assert(!ranks_before(entry_view(right@[last]), entry_view(right@[i])));
                        }
                    } else {
                        assert(falling@[j] == falling_before[j]);
                    }
                }
                assert forall|i: int, j: int|
                    0 <= i < left@.len() && 0 <= j < falling@.len() implies !ranks_before(
                    entry_view(#[trigger] falling@[j]),
                    entry_view(#[trigger] left@[i]),
                ) by {
                    assert(left@[i] == left_before[i]);
                    if j == falling_before.len() {
                        assert(entry == left_before[left_before.len() - 1]);
                    } else {
                        assert(falling@[j] == falling_before[j]);
                    }
                }
                assert forall|i: int, j: int| 0 <= i < j < falling@.len() implies !ranks_before(
                    entry_view(#[trigger] falling@[i]),
                    entry_view(#[trigger] falling@[j]),
                ) by {
                    assert(falling@[i] == falling_before[i]);
                    if j == falling_before.len() {
                        assert(entry == left_before[left_before.len() - 1]);
                    } else {
                        assert(falling@[j] == falling_before[j]);
                    }
                }
                assert forall|i: int, j: int| 0 <= i < j < left@.len() implies !ranks_before(
                    entry_view(#[trigger] left@[j]),
                    entry_view(#[trigger] left@[i]),
                ) by {
                    assert(left@[i] == left_before[i]);
                    assert(left@[j] == left_before[j]);
                }
                assert(left@.to_multiset().add(right@.to_multiset()).add(falling@.to_multiset())
                    =~= all);
            }
        }
    }
    let mut merged: Vec<(T, Score)> = Vec::new();
    proof {
        left@.to_multiset_ensures();
        right@.to_multiset_ensures();
        merged@.to_multiset_ensures();
        assert(left@.to_multiset() =~= Multiset::empty());
        assert(right@.to_multiset() =~= Multiset::empty());
        assert(merged@.to_multiset() =~= Multiset::empty());
        assert(merged@.to_multiset().add(falling@.to_multiset()) =~= all);
    }
    while falling.len() > 0
        invariant
            total_order::<T>(),
            in_rank_order(merged@),
            in_falling_order(falling@),
            all_follow(merged@, falling@),
            merged@.to_multiset().add(falling@.to_multiset()) == all,
        decreases falling.len(),
    {
        let ghost merged_before = merged@;
        let ghost falling_before = falling@;
        let entry = falling.pop().unwrap();
        merged.push(entry);
        proof {
            assert(falling_before =~= falling@.push(entry));
            to_multiset_build(falling@, entry);
            to_multiset_build(merged_before, entry);
            assert forall|i: int, j: int| 0 <= i < j < merged@.len() implies !ranks_before(
                entry_view(#[trigger] merged@[j]),
                entry_view(#[trigger] merged@[i]),
            ) by {
                assert(merged@[i] == merged_before[i]);
                if j == merged_before.len() {
                    assert(entry == falling_before[falling_before.len() - 1]);
                } else {
                    assert(merged@[j] == merged_before[j]);
                }
            }
            assert forall|i: int, j: int| 0 <= i < j < falling@.len() implies !ranks_before(
                entry_view(#[trigger] falling@[i]),
                entry_view(#[trigger] falling@[j]),
            ) by {
                assert(falling@[i] == falling_before[i]);
                assert(falling@[j] == falling_before[j]);
            }
            assert forall|i: int, j: int|
                0 <= i < merged@.len() && 0 <= j < falling@.len() implies !ranks_before(
                entry_view(#[trigger] falling@[j]),
                entry_view(#[trigger] merged@[i]),
            ) by {
                assert(falling@[j] == falling_before[j]);
                if i == merged_before.len() {
                    assert(entry == falling_before[falling_before.len() - 1]);
                    assert(!ranks_before(
                        entry_view(falling_before[j]),
                        entry_view(falling_before[falling_before.len() - 1]),
                    ));
                } else {
                    assert(merged@[i] == merged_before[i]);
                }
            }
            assert(merged@.to_multiset().add(falling@.to_multiset()) =~= all);
        }
    }
    proof {
        falling@.to_multiset_ensures();
        assert(falling@.to_multiset() =~= Multiset::empty());
        assert(merged@.to_multiset() =~= all);
    }
    merged
}

/// Entries that hold the fused scores, put in rank order, are the fusion.
pub proof fn lemma_rank_order_completes_fusion<T: Ord>(
    before: Seq<(T, Score)>,
    after: Seq<(T, Score)>,
    lists: Seq<Seq<T>>,
    weights: Seq<real>,
    k: nat,
)
    requires
        total_order::<T>(),
        holds_fused_scores(ranking_view(before), lists, weights, k),
        after.to_multiset() == before.to_multiset(),
        in_rank_order(after),
    ensures
        is_fusion(ranking_view(after), lists, weights, k),
{
    let was = ranking_view(before);
    let now = ranking_view(after);
    before.to_multiset_ensures();
    after.to_multiset_ensures();
    assert forall|j: int| 0 <= j < after.len() implies exists|p: int|
        0 <= p < before.len() && before[p] == #[trigger] after[j] by {
        assert(after.contains(after[j]));
        assert(after.to_multiset().count(after[j]) > 0);
        assert(before.to_multiset().count(after[j]) > 0);
        assert(before.contains(after[j]));
    }
    assert forall|p: int| 0 <= p < before.len() implies exists|j: int|
        0 <= j < after.len() && after[j] == #[trigger] before[p] by {
        assert(before.contains(before[p]));
        assert(before.to_multiset().count(before[p]) > 0);
        assert(after.to_multiset().count(before[p]) > 0);
        assert(after.contains(before[p]));
    }
    assert(before.no_duplicates()) by {
        assert forall|p: int, q: int|
            0 <= p < before.len() && 0 <= q < before.len() && p != q implies before[p]
            != before[q] by {
            assert(was[p].0 == before[p].0);
            assert(was[q].0 == before[q].0);
        }
    }
    before.lemma_multiset_has_no_duplicates();
    after.lemma_multiset_has_no_duplicates_conv();
    assert forall|j: int| 0 <= j < now.len() implies (#[trigger] now[j]).1 == fused_score(
        lists,
        weights,
        k,
        now[j].0,
    ) by {
        let p = choose|p: int| 0 <= p < before.len() && before[p] == after[j];
        assert(was[p] == now[j]);
    }
    assert forall|id: T| holds_id(now, id) <==> named(lists, id) by {
        if holds_id(now, id) {
            let j = choose|j: int| 0 <= j < now.len() && (#[trigger] now[j]).0 == id;
            let p = choose|p: int| 0 <= p < before.len() && before[p] == after[j];
            assert(was[p].0 == id);
            assert(holds_id(was, id));
        }
        if named(lists, id) {
            assert(holds_id(was, id));
            let p = choose|p: int| 0 <= p < was.len() && (#[trigger] was[p]).0 == id;
            let j = choose|j: int| 0 <= j < after.len() && after[j] == before[p];
            assert(now[j].0 == id);
        }
    }
    assert forall|i: int, j: int| 0 <= i < j < now.len() implies (#[trigger] now[i]).0 != (
    #[trigger] now[j]).0 by {
        let p = choose|p: int| 0 <= p < before.len() && before[p] == after[i];
        let q = choose|q: int| 0 <= q < before.len() && before[q] == after[j];
        assert(was[p].0 == now[i].0);
        assert(was[q].0 == now[j].0);
        if now[i].0 == now[j].0 {
            assert(p == q);
            assert(after[i] == after[j]);
        }
    }
    assert forall|i: int, j: int| 0 <= i < j < now.len() implies ranks_before(now[i], now[j]) by {
        assert(now[i].0 != now[j].0);
        lemma_rank_total(now[i], now[j]);
        assert(now[i] == entry_view(after[i]));
        assert(now[j] == entry_view(after[j]));
    }
}

/// Puts `entries` in rank order: descending score, and ascending identifier among
/// equal scores.
pub(crate) fn sort_by_rank<T: Ord>(entries: Vec<(T, Score)>) -> (sorted: Vec<(T, Score)>)
    requires
        total_order::<T>(),
    ensures
        in_rank_order(sorted@),
        sorted@.to_multiset() == entries@.to_multiset(),
    decreases entries.len(),
{
    if entries.len() <= 1 {
        return entries;
    }
    let ghost whole = entries@;
    let mut left = entries;
    let middle: usize = left.len() / 2;
    let right = left.split_off(middle);
    proof {
        assert(whole =~= left@ + right@);
        vstd::seq_lib::lemma_multiset_commutative(left@, right@);
    }
    let left = sort_by_rank(left);
    let right = sort_by_rank(right);
    merge(left, right)
}

} // verus!
