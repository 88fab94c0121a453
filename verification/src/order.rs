//! The order of the elements, stated over `Ord`.
use core::cmp::Ordering;
use vstd::prelude::*;
use vstd::std_specs::cmp::OrdSpec;

verus! {

/// The comparison of `T` is a total order that the verifier may rely on.
pub open spec fn total_order<T: Ord>() -> bool {
    vstd::laws_cmp::obeys_cmp::<T>()
}

/// `a` is not greater than `b`.
pub open spec fn le<T: Ord>(a: T, b: T) -> bool {
    a.cmp_spec(&b) != Ordering::Greater
}

/// `a` is strictly less than `b`.
pub open spec fn lt<T: Ord>(a: T, b: T) -> bool {
    !le(b, a)
}

/// `a` and `b` compare as equal.
pub open spec fn equiv<T: Ord>(a: T, b: T) -> bool {
    le(a, b) && le(b, a)
}

/// Elements that compare as equal are the same element: the order tells any
/// two different elements apart, as the order of the integers does.
pub open spec fn equal_is_same<T: Ord>() -> bool {
    forall|a: T, b: T| #[trigger] equiv(a, b) ==> a == b
}

/// Any two elements are comparable.
pub proof fn lemma_le_total<T: Ord>(a: T, b: T)
    requires
        total_order::<T>(),
    ensures
        le(a, b) || le(b, a),
{
    reveal(vstd::laws_cmp::obeys_partial_cmp_spec_properties);
    reveal(vstd::laws_cmp::obeys_cmp_ord);
}

/// Every element is not greater than itself.
pub proof fn lemma_le_refl<T: Ord>(a: T)
    requires
        total_order::<T>(),
    ensures
        le(a, a),
{
    lemma_le_total(a, a);
}

/// `le` is transitive.
pub proof fn lemma_le_trans<T: Ord>(a: T, b: T, c: T)
    requires
        total_order::<T>(),
        le(a, b),
        le(b, c),
    ensures
        le(a, c),
{
    reveal(vstd::laws_cmp::obeys_partial_cmp_spec_properties);
    reveal(vstd::laws_eq::obeys_eq_spec_properties);
    reveal(vstd::laws_cmp::obeys_cmp_ord);
}

/// What compares as equal to the same element compares as equal.
pub proof fn lemma_equiv_trans<T: Ord>(a: T, b: T, c: T)
    requires
        total_order::<T>(),
        equiv(a, b),
        equiv(b, c),
    ensures
        equiv(a, c),
{
    lemma_le_trans(a, b, c);
    lemma_le_trans(c, b, a);
}

/// Whether `a` is not greater than `b`, by one comparison.
pub(crate) fn not_greater<T: Ord>(a: &T, b: &T) -> (r: bool)
    requires
        total_order::<T>(),
    ensures
        r == le(*a, *b),
{
    proof {
        reveal(vstd::laws_cmp::obeys_cmp_ord);
    }
    match a.cmp(b) {
        Ordering::Greater => false,
        _ => true,
    }
}

} // verus!
