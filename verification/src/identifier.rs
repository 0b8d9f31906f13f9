use core::cmp::Ordering;
use std::hash::Hash;
use vstd::prelude::*;
use vstd::std_specs::cmp::OrdSpec;
use vstd::std_specs::hash::obeys_key_model;

verus! {

/// Whether `a` comes before `b` in the order of identifiers.
pub open spec fn precedes<T: Ord>(a: T, b: T) -> bool {
    a.cmp_spec(&b) == Ordering::Less
}

/// That `Ord` on `T` decides a strict total order on the values of `T`.
pub open spec fn total_order<T: Ord>() -> bool {
    &&& T::obeys_cmp_spec()
    &&& forall|a: T| !#[trigger] precedes(a, a)
    &&& forall|a: T, b: T| a != b ==> #[trigger] precedes(a, b) || precedes(b, a)
    &&& forall|a: T, b: T, c: T| #[trigger]
        precedes(a, b) && #[trigger] precedes(b, c) ==> precedes(a, c)
}

/// That hashing and `==` on `T` go by the value, and that `clone` returns the value.
pub open spec fn faithful_key<T: Clone + Eq + Hash>() -> bool {
    &&& obeys_key_model::<T>()
    &&& forall|a: T, b: T| #[trigger] cloned(a, b) ==> a == b
}

/// What fusion asks of an identifier type: hashing and `==` that go by the value,
/// `clone` that returns the value, and `Ord` that is a strict total order on the
/// values.
pub open spec fn sound_identifier<T: Clone + Eq + Hash + Ord>() -> bool {
    &&& faithful_key::<T>()
    &&& total_order::<T>()
}

/// The integer types are sound identifiers.
pub proof fn lemma_integers_are_sound_identifiers()
    ensures
        sound_identifier::<u8>(),
        sound_identifier::<u16>(),
        sound_identifier::<u32>(),
        sound_identifier::<u64>(),
        sound_identifier::<u128>(),
        sound_identifier::<usize>(),
        sound_identifier::<i8>(),
        sound_identifier::<i16>(),
        sound_identifier::<i32>(),
        sound_identifier::<i64>(),
        sound_identifier::<i128>(),
        sound_identifier::<isize>(),
{
    broadcast use vstd::std_specs::hash::group_hash_axioms;

}

/// Whether `a` comes before `b` in the order of identifiers.
pub fn id_precedes<T: Ord>(a: &T, b: &T) -> (r: bool)
    requires
        total_order::<T>(),
    ensures
        r == precedes(*a, *b),
{
    match a.cmp(b) {
        Ordering::Less => true,
        _ => false,
    }
}

} // verus!
