//! Histories of insertions and removals, and what holds after every one of them.
use crate::layout::{
    lemma_with_inserted, lemma_with_removed, well_formed, with_inserted, with_removed,
};
use crate::order::{
    equal_is_same, equiv, le, lemma_equiv_trans, lemma_le_refl, lemma_le_total, lemma_le_trans,
    total_order,
};
use crate::sorted::{
    inserted, is_sorted, lemma_boundary, lemma_inserted_sorted, lemma_occurs_at_lower_bound,
    lemma_removed_sorted, lower_bound, occurs, removed, upper_bound,
};
use vstd::prelude::*;

verus! {

/// One change of a list.
pub enum Operation<T> {
    /// Put the element in.
    Insert(T),
    /// Take the first element equal to the value out, if there is one.
    Remove(T),
}

/// The elements after one operation on a list that held `s`.
pub open spec fn applied<T: Ord>(s: Seq<T>, op: Operation<T>) -> Seq<T> {
    match op {
        Operation::Insert(e) => inserted(s, e),
        Operation::Remove(v) => removed(s, v),
    }
}

/// The elements of a list that was empty and then went through `ops`, one
/// after the other.
pub open spec fn elements_after<T: Ord>(ops: Seq<Operation<T>>) -> Seq<T>
    decreases ops.len(),
{
    if ops.len() == 0 {
        Seq::empty()
    } else {
        applied(elements_after(ops.drop_last()), ops.last())
    }
}

/// The blocks after one operation on a list that held `blocks`.
pub open spec fn blocks_applied<T: Ord>(
    blocks: Seq<Seq<T>>,
    block_size: nat,
    op: Operation<T>,
) -> Seq<Seq<T>> {
    match op {
        Operation::Insert(e) => with_inserted(blocks, block_size, e),
        Operation::Remove(v) => with_removed(blocks, block_size, v),
    }
}

/// The blocks of a list that was empty and then went through `ops`, one after
/// the other.
pub open spec fn blocks_after<T: Ord>(block_size: nat, ops: Seq<Operation<T>>) -> Seq<Seq<T>>
    decreases ops.len(),
{
    if ops.len() == 0 {
        Seq::empty()
    } else {
        blocks_applied(blocks_after(block_size, ops.drop_last()), block_size, ops.last())
    }
}

/// How many of `ops` are insertions.
pub open spec fn insertions<T>(ops: Seq<Operation<T>>) -> nat
    decreases ops.len(),
{
    if ops.len() == 0 {
        0
    } else {
        insertions(ops.drop_last()) + if ops.last() is Insert {
            1nat
        } else {
            0nat
        }
    }
}

/// Whether the last of `ops` is a removal that finds its value in the list
/// that the operations before it have made.
pub open spec fn last_removes<T: Ord>(ops: Seq<Operation<T>>) -> bool {
    ops.len() > 0 && match ops.last() {
        Operation::Insert(_) => false,
        Operation::Remove(v) => occurs(elements_after(ops.drop_last()), v),
    }
}

/// How many of `ops` are removals that found their value.
pub open spec fn removals<T: Ord>(ops: Seq<Operation<T>>) -> nat
    decreases ops.len(),
{
    if ops.len() == 0 {
        0
    } else {
        removals(ops.drop_last()) + if last_removes(ops) {
            1nat
        } else {
            0nat
        }
    }
}

/// How many elements of `s` compare as equal to `v`.
pub open spec fn occurrences<T: Ord>(s: Seq<T>, v: T) -> nat
    decreases s.len(),
{
    if s.len() == 0 {
        0
    } else {
        occurrences(s.drop_last(), v) + if equiv(s.last(), v) {
            1nat
        } else {
            0nat
        }
    }
}

/// How many of `ops` put in an element equal to `v`.
pub open spec fn put_in<T: Ord>(ops: Seq<Operation<T>>, v: T) -> nat
    decreases ops.len(),
{
    if ops.len() == 0 {
        0
    } else {
        put_in(ops.drop_last(), v) + match ops.last() {
            Operation::Insert(e) => if equiv(e, v) {
                1nat
            } else {
                0nat
            },
            Operation::Remove(_) => 0nat,
        }
    }
}

/// How many of `ops` took out an element equal to `v`.
pub open spec fn taken_out<T: Ord>(ops: Seq<Operation<T>>, v: T) -> nat
    decreases ops.len(),
{
    if ops.len() == 0 {
        0
    } else {
        taken_out(ops.drop_last(), v) + match ops.last() {
            Operation::Insert(_) => 0nat,
            Operation::Remove(w) => if equiv(w, v) && last_removes(ops) {
                1nat
            } else {
                0nat
            },
        }
    }
}

/// The operations that put in the elements of `order`, one after the other.
pub open spec fn inserting<T>(order: Seq<T>) -> Seq<Operation<T>> {
    order.map_values(|e: T| Operation::Insert(e))
}

/// Whatever is put in and taken out, the elements of the list never decrease.
pub proof fn lemma_always_sorted<T: Ord>(ops: Seq<Operation<T>>)
    requires
        total_order::<T>(),
    ensures
        is_sorted(elements_after(ops)),
    decreases ops.len(),
{
    if ops.len() > 0 {
        lemma_always_sorted(ops.drop_last());
        let before = elements_after(ops.drop_last());
        match ops.last() {
            Operation::Insert(e) => lemma_inserted_sorted(before, e),
            Operation::Remove(v) => lemma_removed_sorted(before, v),
        }
    }
}

/// Whatever is put in and taken out, the blocks keep their bounds: no block
/// is empty, none is longer than the block size, none but the first is
/// shorter than half the block size. Read one after the other, the blocks
/// hold the elements of the list in their order.
pub proof fn lemma_always_well_formed<T: Ord>(block_size: nat, ops: Seq<Operation<T>>)
    requires
        total_order::<T>(),
        block_size > 0,
    ensures
        well_formed(blocks_after(block_size, ops), block_size),
        blocks_after(block_size, ops).flatten() == elements_after(ops),
        forall|i: int|
            0 <= i < blocks_after(block_size, ops).len() ==> 0 < (#[trigger] blocks_after(
                block_size,
                ops,
            )[i]).len() <= block_size,
        forall|i: int|
            0 < i < blocks_after(block_size, ops).len() ==> (#[trigger] blocks_after(
                block_size,
                ops,
            )[i]).len() >= block_size / 2,
    decreases ops.len(),
{
    if ops.len() > 0 {
        lemma_always_well_formed(block_size, ops.drop_last());
        let before = blocks_after(block_size, ops.drop_last());
        match ops.last() {
            Operation::Insert(e) => lemma_with_inserted(before, block_size, e),
            Operation::Remove(v) => lemma_with_removed(before, block_size, v),
        }
    }
}

/// The list holds as many elements as were put in, less those that were
/// taken out: a removal that finds nothing takes nothing out.
pub proof fn lemma_count<T: Ord>(ops: Seq<Operation<T>>)
    requires
        total_order::<T>(),
    ensures
        elements_after(ops).len() == insertions(ops) - removals(ops),
    decreases ops.len(),
{
    if ops.len() > 0 {
        lemma_count(ops.drop_last());
        lemma_always_sorted(ops.drop_last());
        let before = elements_after(ops.drop_last());
        match ops.last() {
            Operation::Insert(e) => {
                lemma_boundary(before, e, true);
            },
            Operation::Remove(v) => {
                lemma_occurs_at_lower_bound(before, v);
            },
        }
    }
}

/// A sequence has an element equal to `v` exactly when it has at least one
/// occurrence of `v`.
pub proof fn lemma_occurs_counted<T: Ord>(s: Seq<T>, v: T)
    ensures
        occurs(s, v) <==> occurrences(s, v) > 0,
    decreases s.len(),
{
    if s.len() > 0 {
        let rest = s.drop_last();
        lemma_occurs_counted(rest, v);
        if occurs(s, v) {
            let k = choose|k: int| 0 <= k < s.len() && equiv(#[trigger] s[k], v);
            if k < s.len() - 1 {
                assert(equiv(rest[k], v));
            }
        }
    }
}

/// Putting `e` in anywhere adds one occurrence of what is equal to `e`, and
/// none of anything else.
pub proof fn lemma_occurrences_insert<T: Ord>(s: Seq<T>, k: int, e: T, v: T)
    requires
        0 <= k <= s.len(),
    ensures
        occurrences(s.insert(k, e), v) == occurrences(s, v) + if equiv(e, v) {
            1nat
        } else {
            0nat
        },
    decreases s.len(),
{
    if k == s.len() {
        assert(s.insert(k, e).drop_last() =~= s);
    } else {
        assert(s.insert(k, e).drop_last() =~= s.drop_last().insert(k, e));
        lemma_occurrences_insert(s.drop_last(), k, e, v);
    }
}

/// Taking an element out takes one occurrence of what is equal to it, and
/// none of anything else.
pub proof fn lemma_occurrences_remove<T: Ord>(s: Seq<T>, k: int, v: T)
    requires
        0 <= k < s.len(),
    ensures
        occurrences(s.remove(k), v) == occurrences(s, v) - if equiv(s[k], v) {
            1nat
        } else {
            0nat
        },
    decreases s.len(),
{
    if k < s.len() - 1 {
        assert(s.remove(k).drop_last() =~= s.drop_last().remove(k));
        lemma_occurrences_remove(s.drop_last(), k, v);
    }
}

/// The list has an element equal to `v` exactly when more such elements were
/// put in than were taken out: it holds as many of them as the difference.
pub proof fn lemma_membership<T: Ord>(ops: Seq<Operation<T>>, v: T)
    requires
        total_order::<T>(),
    ensures
        occurrences(elements_after(ops), v) == put_in(ops, v) - taken_out(ops, v),
        occurs(elements_after(ops), v) <==> put_in(ops, v) > taken_out(ops, v),
    decreases ops.len(),
{
    lemma_occurs_counted(elements_after(ops), v);
    if ops.len() > 0 {
        lemma_membership(ops.drop_last(), v);
        lemma_always_sorted(ops.drop_last());
        let before = elements_after(ops.drop_last());
        match ops.last() {
            Operation::Insert(e) => {
                lemma_boundary(before, e, true);
                lemma_occurrences_insert(before, upper_bound(before, e), e, v);
            },
            Operation::Remove(w) => {
                if occurs(before, w) {
                    lemma_occurs_at_lower_bound(before, w);
                    let k = lower_bound(before, w);
                    lemma_occurrences_remove(before, k, v);
                    if equiv(w, v) {
                        lemma_equiv_trans(before[k], w, v);
                    }
                    if equiv(before[k], v) {
                        lemma_equiv_trans(w, before[k], v);
                    }
                }
            },
        }
    }
}

/// Putting the elements of `order` into an empty list gives a list of the
/// same elements, each as often as `order` has it.
pub proof fn lemma_inserting_keeps_elements<T: Ord>(order: Seq<T>)
    ensures
        elements_after(inserting(order)).to_multiset() == order.to_multiset(),
    decreases order.len(),
{
    broadcast use vstd::seq_lib::group_to_multiset_ensures;

    let ops = inserting(order);
    if order.len() > 0 {
        assert(ops.drop_last() =~= inserting(order.drop_last()));
        lemma_inserting_keeps_elements(order.drop_last());
        let e = order.last();
        let before = elements_after(ops.drop_last());
        lemma_boundary(before, e, true);
        assert(order =~= order.drop_last().push(e));
    }
}

/// Where the order tells any two different elements apart, the order of
/// insertion does not matter: putting the elements of a sorted sequence into
/// an empty list in any order, ascending, descending or shuffled, gives that
/// sorted sequence.
pub proof fn lemma_any_order<T: Ord>(order: Seq<T>, sorted: Seq<T>)
    requires
        total_order::<T>(),
        equal_is_same::<T>(),
        is_sorted(sorted),
        order.to_multiset() == sorted.to_multiset(),
    ensures
        elements_after(inserting(order)) == sorted,
{
    let made = elements_after(inserting(order));
    lemma_always_sorted(inserting(order));
    lemma_inserting_keeps_elements(order);
    let leq = |a: T, b: T| le(a, b);
    assert forall|a: T| #[trigger] leq(a, a) by {
        lemma_le_refl(a);
    }
    assert forall|a: T, b: T| #[trigger] leq(a, b) && #[trigger] leq(b, a) implies a == b by {
        assert(equiv(a, b));
    }
    assert forall|a: T, b: T, c: T| #[trigger] leq(a, b) && #[trigger] leq(b, c) implies leq(
        a,
        c,
    ) by {
        lemma_le_trans(a, b, c);
    }
    assert forall|a: T, b: T| #[trigger] leq(a, b) || #[trigger] leq(b, a) by {
        lemma_le_total(a, b);
    }
    vstd::seq_lib::lemma_sorted_unique(made, sorted, leq);
}

/// The integers below `n` in ascending order.
pub open spec fn ascending(n: nat) -> Seq<u64> {
    Seq::new(n, |i: int| i as u64)
}

/// Putting the integers below `n` into an empty list in any order, ascending,
/// descending or shuffled, gives them in ascending order.
pub proof fn lemma_round_trip(order: Seq<u64>, n: nat)
    requires
        n <= u64::MAX,
        order.to_multiset() == ascending(n).to_multiset(),
    ensures
        elements_after(inserting(order)) == ascending(n),
{
    lemma_any_order(order, ascending(n));
}

} // verus!
