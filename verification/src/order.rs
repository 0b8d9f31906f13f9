use crate::identifier::precedes;
use crate::identifier::total_order;
use vstd::prelude::*;

verus! {

/// Whether entry `a` is ranked before entry `b`: by the higher score, and among equal
/// scores by the identifier that comes first.
pub open spec fn ranks_before<T: Ord>(a: (T, real), b: (T, real)) -> bool {
    a.1 > b.1 || (a.1 == b.1 && precedes(a.0, b.0))
}

/// Whether every entry of `ranking` is ranked before all that follow it.
pub open spec fn strictly_ranked<T: Ord>(ranking: Seq<(T, real)>) -> bool {
    forall|i: int, j: int| 0 <= i < j < ranking.len() ==> ranks_before(ranking[i], ranking[j])
}

/// No entry is ranked before itself.
pub proof fn lemma_rank_irreflexive<T: Ord>(a: (T, real))
    requires
        total_order::<T>(),
    ensures
        !ranks_before(a, a),
{
}

/// The ranking order is transitive.
pub proof fn lemma_rank_transitive<T: Ord>(a: (T, real), b: (T, real), c: (T, real))
    requires
        total_order::<T>(),
        ranks_before(a, b),
        ranks_before(b, c),
    ensures
        ranks_before(a, c),
{
}

/// Of two different entries one is ranked before the other.
pub proof fn lemma_rank_total<T: Ord>(a: (T, real), b: (T, real))
    requires
        total_order::<T>(),
        a != b,
    ensures
        ranks_before(a, b) || ranks_before(b, a),
{
}

} // verus!
