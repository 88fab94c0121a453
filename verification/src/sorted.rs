//! Sorted sequences and the places where a value stands in them.
use crate::order::{equiv, le, lemma_le_total, lemma_le_trans, lt, not_greater, total_order};
use vstd::prelude::*;

verus! {

/// The elements of `s` never decrease.
pub open spec fn is_sorted<T: Ord>(s: Seq<T>) -> bool {
    forall|i: int, j: int| 0 <= i < j < s.len() ==> le(#[trigger] s[i], #[trigger] s[j])
}

/// `x` stands at or after the place of `v`: not before `v` when `strict` is
/// false, after `v` when it is true.
pub open spec fn beyond<T: Ord>(x: T, v: T, strict: bool) -> bool {
    if strict {
        lt(v, x)
    } else {
        le(v, x)
    }
}

/// Whether `x` is beyond `v`, by one comparison.
pub(crate) fn is_beyond<T: Ord>(x: &T, v: &T, strict: bool) -> (r: bool)
    requires
        total_order::<T>(),
    ensures
        r == beyond(*x, *v, strict),
{
    if strict {
        !not_greater(x, v)
    } else {
        not_greater(v, x)
    }
}

/// The index of the first element of `s` that is `beyond` the value `v`, or
/// the length of `s` where there is none.
pub open spec fn boundary<T: Ord>(s: Seq<T>, v: T, strict: bool) -> int
    decreases s.len(),
{
    if s.len() == 0 || beyond(s[0], v, strict) {
        0
    } else {
        1 + boundary(s.drop_first(), v, strict)
    }
}

/// The index of the first element that is not less than `v`.
pub open spec fn lower_bound<T: Ord>(s: Seq<T>, v: T) -> int {
    boundary(s, v, false)
}

/// The index of the first element that is greater than `v`.
pub open spec fn upper_bound<T: Ord>(s: Seq<T>, v: T) -> int {
    boundary(s, v, true)
}

/// Some element of `s` compares as equal to `v`.
pub open spec fn occurs<T: Ord>(s: Seq<T>, v: T) -> bool {
    exists|k: int| 0 <= k < s.len() && equiv(#[trigger] s[k], v)
}

/// `s` with `e` put in after every element that is not greater than `e`.
pub open spec fn inserted<T: Ord>(s: Seq<T>, e: T) -> Seq<T> {
    s.insert(upper_bound(s, e), e)
}

/// `s` without the first of its elements that compare as equal to `v`; `s`
/// itself where it has none.
pub open spec fn removed<T: Ord>(s: Seq<T>, v: T) -> Seq<T> {
    if occurs(s, v) {
        s.remove(lower_bound(s, v))
    } else {
        s
    }
}

/// What `boundary` returns: no element before it is beyond `v`, and the
/// element at it, if there is one, is.
pub proof fn lemma_boundary<T: Ord>(s: Seq<T>, v: T, strict: bool)
    ensures
        0 <= boundary(s, v, strict) <= s.len(),
        forall|j: int| 0 <= j < boundary(s, v, strict) ==> !beyond(#[trigger] s[j], v, strict),
        boundary(s, v, strict) < s.len() ==> beyond(s[boundary(s, v, strict)], v, strict),
    decreases s.len(),
{
    if s.len() > 0 && !beyond(s[0], v, strict) {
        let rest = s.drop_first();
        lemma_boundary(rest, v, strict);
        assert forall|j: int| 0 <= j < boundary(s, v, strict) implies !beyond(
            #[trigger] s[j],
            v,
            strict,
        ) by {
            if j > 0 {
                assert(s[j] == rest[j - 1]);
            }
        }
    }
}

/// Only one index separates the elements that are not beyond `v` from one that is.
pub proof fn lemma_boundary_unique<T: Ord>(s: Seq<T>, v: T, strict: bool, k: int)
    requires
        0 <= k <= s.len(),
        forall|j: int| 0 <= j < k ==> !beyond(#[trigger] s[j], v, strict),
        k < s.len() ==> beyond(s[k], v, strict),
    ensures
        k == boundary(s, v, strict),
{
    lemma_boundary(s, v, strict);
}

/// What is not less than an element beyond `v` is beyond `v` too.
pub proof fn lemma_beyond_monotone<T: Ord>(x: T, y: T, v: T, strict: bool)
    requires
        total_order::<T>(),
        le(x, y),
        beyond(x, v, strict),
    ensures
        beyond(y, v, strict),
{
    if strict {
        if le(y, v) {
            lemma_le_trans(x, y, v);
        }
    } else {
        lemma_le_trans(v, x, y);
    }
}

/// In a sorted sequence the boundary is known from its two neighbours.
pub proof fn lemma_boundary_by_neighbours<T: Ord>(s: Seq<T>, v: T, strict: bool, k: int)
    requires
        total_order::<T>(),
        is_sorted(s),
        0 <= k <= s.len(),
        k > 0 ==> !beyond(s[k - 1], v, strict),
        k < s.len() ==> beyond(s[k], v, strict),
    ensures
        k == boundary(s, v, strict),
{
    assert forall|j: int| 0 <= j < k implies !beyond(#[trigger] s[j], v, strict) by {
        if beyond(s[j], v, strict) {
            lemma_beyond_monotone(s[j], s[k - 1], v, strict);
        }
    }
    lemma_boundary_unique(s, v, strict, k);
}

/// In a sorted sequence every element from the boundary on is beyond `v`.
pub proof fn lemma_boundary_sorted<T: Ord>(s: Seq<T>, v: T, strict: bool)
    requires
        total_order::<T>(),
        is_sorted(s),
    ensures
        forall|j: int| boundary(s, v, strict) <= j < s.len() ==> beyond(#[trigger] s[j], v, strict),
{
    lemma_boundary(s, v, strict);
    let b = boundary(s, v, strict);
    assert forall|j: int| b <= j < s.len() implies beyond(#[trigger] s[j], v, strict) by {
        if b < j {
            lemma_beyond_monotone(s[b], s[j], v, strict);
        }
    }
}

/// A sorted sequence has `v` exactly when the element at the lower bound of
/// `v` is not greater than `v`.
pub proof fn lemma_occurs_at_lower_bound<T: Ord>(s: Seq<T>, v: T)
    requires
        total_order::<T>(),
        is_sorted(s),
    ensures
        0 <= lower_bound(s, v) <= s.len(),
        occurs(s, v) <==> (lower_bound(s, v) < s.len() && le(s[lower_bound(s, v)], v)),
        occurs(s, v) ==> equiv(s[lower_bound(s, v)], v),
{
    lemma_boundary(s, v, false);
    let b = lower_bound(s, v);
    if occurs(s, v) {
        let k = choose|k: int| 0 <= k < s.len() && equiv(#[trigger] s[k], v);
        if b < k {
            lemma_le_trans(s[b], s[k], v);
        }
    }
}

/// Putting an element in at its upper bound keeps a sequence sorted.
pub proof fn lemma_inserted_sorted<T: Ord>(s: Seq<T>, e: T)
    requires
        total_order::<T>(),
        is_sorted(s),
    ensures
        is_sorted(inserted(s, e)),
{
    lemma_boundary(s, e, true);
    lemma_boundary_sorted(s, e, true);
    let b = upper_bound(s, e);
    let r = inserted(s, e);
    assert forall|i: int, j: int| 0 <= i < j < r.len() implies le(
        #[trigger] r[i],
        #[trigger] r[j],
    ) by {
        if j > b {
            lemma_le_total(e, s[j - 1]);
        }
    }
}

/// Taking a value out of a sorted sequence keeps it sorted.
pub proof fn lemma_removed_sorted<T: Ord>(s: Seq<T>, v: T)
    requires
        total_order::<T>(),
        is_sorted(s),
    ensures
        is_sorted(removed(s, v)),
{
    if occurs(s, v) {
        lemma_occurs_at_lower_bound(s, v);
    }
}

/// Finds the boundary of `value` in a sorted block by binary search.
pub(crate) fn position_in<T: Ord>(block: &Vec<T>, value: &T, strict: bool) -> (p: usize)
    requires
        total_order::<T>(),
        is_sorted(block@),
    ensures
        p == boundary(block@, *value, strict),
{
    let mut lo: usize = 0;
    let mut hi: usize = block.len();
    while lo < hi
        invariant
            total_order::<T>(),
            is_sorted(block@),
            lo <= hi <= block.len(),
            lo > 0 ==> !beyond(block@[lo - 1], *value, strict),
            hi < block.len() ==> beyond(block@[hi as int], *value, strict),
        decreases hi - lo,
    {
        let mid: usize = lo + (hi - lo) / 2;
        if is_beyond(&block[mid], value, strict) {
            hi = mid;
        } else {
            lo = mid + 1;
        }
    }
    proof {
        lemma_boundary_by_neighbours(block@, *value, strict, lo as int);
    }
    lo
}

} // verus!
