//! Which sequences of blocks a list may hold, and where a value stands in them.
use crate::blocks::{
    lemma_flatten_block_inserted, lemma_flatten_dropped, lemma_flatten_index,
    lemma_flatten_insert_at, lemma_flatten_merged, lemma_flatten_remove_at,
    lemma_flatten_shifted, lemma_flatten_split_at, lemma_offset_ends, lemma_offset_monotone,
    lemma_offset_step, merged, offset, shifted, split_at,
};
use crate::order::{equiv, le, lemma_le_total, lemma_le_trans, lt, total_order};
use crate::sorted::{
    beyond, boundary, inserted, is_sorted, lemma_boundary, lemma_boundary_by_neighbours,
    lemma_boundary_sorted, lemma_inserted_sorted, lemma_occurs_at_lower_bound,
    lower_bound, occurs, removed, upper_bound,
};
use vstd::prelude::*;

verus! {

/// The last element of each block, in the order of the blocks.
pub open spec fn lasts<T>(blocks: Seq<Seq<T>>) -> Seq<T> {
    Seq::new(blocks.len(), |i: int| blocks[i].last())
}

/// The first element of each block, in the order of the blocks.
pub open spec fn firsts<T>(blocks: Seq<Seq<T>>) -> Seq<T> {
    Seq::new(blocks.len(), |i: int| blocks[i].first())
}

/// The lengths that blocks may have: none is empty, none is longer than
/// `block_size`, and none but the first is shorter than half of it.
pub open spec fn sizes_ok<T>(blocks: Seq<Seq<T>>, block_size: nat) -> bool {
    &&& block_size > 0
    &&& forall|i: int| 0 <= i < blocks.len() ==> 0 < (#[trigger] blocks[i]).len() <= block_size
    &&& forall|i: int| 0 < i < blocks.len() ==> (#[trigger] blocks[i]).len() >= block_size / 2
}

/// The blocks have the lengths they may have, and their elements, read block
/// after block, never decrease.
pub open spec fn well_formed<T: Ord>(blocks: Seq<Seq<T>>, block_size: nat) -> bool {
    &&& sizes_ok(blocks, block_size)
    &&& is_sorted(blocks.flatten())
}

/// The block that receives a new element `e`.
///
/// It is the first block that ends with an element not less than `e`, and the
/// last block where `e` is greater than every element. Where that block ends
/// with an element equal to `e`, the equals of `e` may run on into the blocks
/// behind it: the element then goes to the last block that begins with an
/// element not greater than `e`.
pub open spec fn receiving_block<T: Ord>(blocks: Seq<Seq<T>>, e: T) -> int {
    let at = lower_bound(lasts(blocks), e);
    if at == blocks.len() {
        blocks.len() - 1
    } else if le(blocks[at].last(), e) {
        upper_bound(firsts(blocks), e) - 1
    } else {
        at
    }
}

/// An element put into block `t` after the elements of that block that are
/// not greater stands after every element of the list that is not greater:
/// the block before `t` ends with an element not greater than `e`, and block
/// `t` ends with a greater element, or is the last block, or is followed by a
/// block that begins with a greater element.
pub open spec fn receives<T: Ord>(blocks: Seq<Seq<T>>, t: int, e: T) -> bool {
    &&& 0 <= t < blocks.len()
    &&& t > 0 ==> le(blocks[t - 1].last(), e)
    &&& lt(e, blocks[t].last()) || t == blocks.len() - 1 || lt(e, blocks[t + 1].first())
}

/// The blocks with `e` put into block `t`, after every element of that block
/// that is not greater than `e`.
pub open spec fn put<T: Ord>(blocks: Seq<Seq<T>>, t: int, e: T) -> Seq<Seq<T>> {
    blocks.update(t, inserted(blocks[t], e))
}

/// The blocks after `e` has been put in.
///
/// The first element makes the first block. Later ones go into the block that
/// receives them. A block that is full is cut in two at its middle first, and
/// the element goes into the upper half unless the lower half ends with a
/// greater element. With a block size of one, where a cut would leave an
/// empty block, the element becomes a block of its own.
pub open spec fn with_inserted<T: Ord>(blocks: Seq<Seq<T>>, block_size: nat, e: T) -> Seq<Seq<T>> {
    if blocks.len() == 0 {
        seq![seq![e]]
    } else {
        let t = receiving_block(blocks, e);
        if blocks[t].len() != block_size {
            put(blocks, t, e)
        } else if block_size == 1 {
            if lt(e, blocks[t][0]) {
                blocks.insert(t, seq![e])
            } else {
                blocks.insert(t + 1, seq![e])
            }
        } else {
            let cut = split_at(blocks, t, (block_size / 2) as int);
            if le(cut[t].last(), e) {
                put(cut, t + 1, e)
            } else {
                put(cut, t, e)
            }
        }
    }
}

/// The blocks after the first element equal to `v` has been taken out; the
/// blocks themselves where no element is equal to `v`.
///
/// The element is looked for in the first block that ends with an element not
/// less than `v`. A block that is left empty is dropped. A block other than
/// the first that is left shorter than half the block size is appended to the
/// block before it where the two hold no more than one block may; otherwise
/// the block before it keeps half of what the two hold and the rest moves over.
pub open spec fn with_removed<T: Ord>(blocks: Seq<Seq<T>>, block_size: nat, v: T) -> Seq<Seq<T>> {
    if !occurs(blocks.flatten(), v) {
        blocks
    } else {
        let t = lower_bound(lasts(blocks), v);
        let p = lower_bound(blocks[t], v);
        let shrunk = blocks.update(t, blocks[t].remove(p));
        let left = shrunk[t].len();
        if left == 0 {
            shrunk.remove(t)
        } else if t > 0 && left < block_size / 2 {
            let both = shrunk[t - 1].len() + left;
            if both <= block_size {
                merged(shrunk, t)
            } else {
                shifted(shrunk, t, (both / 2) as int)
            }
        } else {
            shrunk
        }
    }
}

/// Each block of a sorted concatenation is sorted.
pub proof fn lemma_block_sorted<T: Ord>(blocks: Seq<Seq<T>>, t: int)
    requires
        is_sorted(blocks.flatten()),
        0 <= t < blocks.len(),
    ensures
        is_sorted(blocks[t]),
{
    let b = blocks[t];
    assert forall|i: int, j: int| 0 <= i < j < b.len() implies le(
        #[trigger] b[i],
        #[trigger] b[j],
    ) by {
        lemma_flatten_index(blocks, t, i);
        lemma_flatten_index(blocks, t, j);
    }
}

/// No element of a block is greater than an element of a later block.
pub proof fn lemma_blocks_ordered<T: Ord>(blocks: Seq<Seq<T>>, i: int, p: int, j: int, q: int)
    requires
        is_sorted(blocks.flatten()),
        0 <= i < j < blocks.len(),
        0 <= p < blocks[i].len(),
        0 <= q < blocks[j].len(),
    ensures
        le(blocks[i][p], blocks[j][q]),
{
    lemma_flatten_index(blocks, i, p);
    lemma_flatten_index(blocks, j, q);
    lemma_offset_step(blocks, i);
    lemma_offset_monotone(blocks, i + 1, j);
}

/// The last elements of the blocks of a sorted concatenation are sorted.
pub proof fn lemma_lasts_sorted<T: Ord>(blocks: Seq<Seq<T>>)
    requires
        total_order::<T>(),
        is_sorted(blocks.flatten()),
        forall|i: int| 0 <= i < blocks.len() ==> 0 < (#[trigger] blocks[i]).len(),
    ensures
        is_sorted(lasts(blocks)),
{
    let l = lasts(blocks);
    assert forall|i: int, j: int| 0 <= i < j < l.len() implies le(
        #[trigger] l[i],
        #[trigger] l[j],
    ) by {
        lemma_blocks_ordered(blocks, i, blocks[i].len() - 1, j, blocks[j].len() - 1);
    }
}

/// The first elements of the blocks of a sorted concatenation are sorted.
pub proof fn lemma_firsts_sorted<T: Ord>(blocks: Seq<Seq<T>>)
    requires
        total_order::<T>(),
        is_sorted(blocks.flatten()),
        forall|i: int| 0 <= i < blocks.len() ==> 0 < (#[trigger] blocks[i]).len(),
    ensures
        is_sorted(firsts(blocks)),
{
    let f = firsts(blocks);
    assert forall|i: int, j: int| 0 <= i < j < f.len() implies le(
        #[trigger] f[i],
        #[trigger] f[j],
    ) by {
        lemma_blocks_ordered(blocks, i, 0, j, 0);
    }
}

/// What the boundary among the last elements says of the blocks: the block
/// before it ends with an element that is not beyond the value, the block at
/// it with one that is.
pub proof fn lemma_block_boundary<T: Ord>(blocks: Seq<Seq<T>>, v: T, strict: bool)
    ensures
        0 <= boundary(lasts(blocks), v, strict) <= blocks.len(),
        boundary(lasts(blocks), v, strict) > 0 ==> !beyond(
            blocks[boundary(lasts(blocks), v, strict) - 1].last(),
            v,
            strict,
        ),
        boundary(lasts(blocks), v, strict) < blocks.len() ==> beyond(
            blocks[boundary(lasts(blocks), v, strict)].last(),
            v,
            strict,
        ),
{
    let t = boundary(lasts(blocks), v, strict);
    lemma_boundary(lasts(blocks), v, strict);
    if t > 0 {
        assert(lasts(blocks)[t - 1] == blocks[t - 1].last());
    }
}

/// The block that receives an element is a block in which the element
/// stands after all its equals.
pub proof fn lemma_receiving_block<T: Ord>(blocks: Seq<Seq<T>>, e: T)
    requires
        total_order::<T>(),
        is_sorted(blocks.flatten()),
        forall|i: int| 0 <= i < blocks.len() ==> 0 < (#[trigger] blocks[i]).len(),
        blocks.len() > 0,
    ensures
        receives(blocks, receiving_block(blocks, e), e),
        lower_bound(lasts(blocks), e) < blocks.len() ==> lower_bound(lasts(blocks), e)
            <= receiving_block(blocks, e),
{
    let at = lower_bound(lasts(blocks), e);
    let t = receiving_block(blocks, e);
    lemma_block_boundary(blocks, e, false);
    if at == blocks.len() {
        if t > 0 {
            lemma_blocks_ordered(blocks, t - 1, blocks[t - 1].len() - 1, t, blocks[t].len() - 1);
            lemma_le_total(blocks[t].last(), e);
            lemma_le_trans(blocks[t - 1].last(), blocks[t].last(), e);
        }
    } else if le(blocks[at].last(), e) {
        let f = firsts(blocks);
        lemma_firsts_sorted(blocks);
        lemma_boundary(f, e, true);
        lemma_boundary_sorted(f, e, true);
        assert(f[at] == blocks[at].first());
        if blocks[at].len() > 1 {
            lemma_block_sorted(blocks, at);
            lemma_le_trans(blocks[at].first(), blocks[at].last(), e);
        }
        assert(f[t] == blocks[t].first());
        if t > 0 {
            lemma_blocks_ordered(blocks, t - 1, blocks[t - 1].len() - 1, t, 0);
            lemma_le_trans(blocks[t - 1].last(), blocks[t].first(), e);
        }
    } else if t > 0 {
        lemma_le_total(blocks[t - 1].last(), e);
    }
}

/// The boundary of a value in the concatenation, from the block it falls in
/// and its boundary in that block.
pub proof fn lemma_locate<T: Ord>(blocks: Seq<Seq<T>>, v: T, strict: bool, t: int, p: int)
    requires
        total_order::<T>(),
        is_sorted(blocks.flatten()),
        forall|i: int| 0 <= i < blocks.len() ==> 0 < (#[trigger] blocks[i]).len(),
        0 <= t < blocks.len(),
        t > 0 ==> !beyond(blocks[t - 1].last(), v, strict),
        p == boundary(blocks[t], v, strict),
        p < blocks[t].len() || t == blocks.len() - 1 || beyond(blocks[t + 1].first(), v, strict),
    ensures
        offset(blocks, t) + p == boundary(blocks.flatten(), v, strict),
{
    let flat = blocks.flatten();
    let k = offset(blocks, t) + p;
    lemma_boundary(blocks[t], v, strict);
    lemma_offset_step(blocks, t);
    lemma_offset_ends(blocks);
    if k > 0 {
        if p > 0 {
            lemma_flatten_index(blocks, t, p - 1);
        } else {
            lemma_offset_step(blocks, t - 1);
            lemma_flatten_index(blocks, t - 1, blocks[t - 1].len() - 1);
        }
    }
    if p < blocks[t].len() {
        lemma_flatten_index(blocks, t, p);
    } else if t < blocks.len() - 1 {
        lemma_flatten_index(blocks, t + 1, 0);
    }
    lemma_boundary_by_neighbours(flat, v, strict, k);
}

/// Where the last element of the last block is not beyond a value, nothing is.
pub proof fn lemma_locate_past_end<T: Ord>(blocks: Seq<Seq<T>>, v: T, strict: bool)
    requires
        total_order::<T>(),
        is_sorted(blocks.flatten()),
        forall|i: int| 0 <= i < blocks.len() ==> 0 < (#[trigger] blocks[i]).len(),
        blocks.len() > 0 ==> !beyond(blocks.last().last(), v, strict),
    ensures
        boundary(blocks.flatten(), v, strict) == blocks.flatten().len(),
{
    let flat = blocks.flatten();
    lemma_offset_ends(blocks);
    if blocks.len() > 0 {
        let t = blocks.len() - 1;
        lemma_offset_step(blocks, t);
        lemma_flatten_index(blocks, t, blocks[t].len() - 1);
    }
    lemma_boundary_by_neighbours(flat, v, strict, flat.len() as int);
}

/// Cutting a full block in two at its middle leaves the blocks well formed.
pub proof fn lemma_split_well_formed<T: Ord>(blocks: Seq<Seq<T>>, block_size: nat, t: int)
    requires
        well_formed(blocks, block_size),
        0 <= t < blocks.len(),
        blocks[t].len() == block_size,
        block_size >= 2,
    ensures
        well_formed(split_at(blocks, t, (block_size / 2) as int), block_size),
        split_at(blocks, t, (block_size / 2) as int).flatten() == blocks.flatten(),
{
    let mid = (block_size / 2) as int;
    lemma_flatten_split_at(blocks, t, mid);
}

/// Putting an element into the block where it falls, at its upper bound in
/// that block, puts it at its upper bound in the list.
pub proof fn lemma_insert_into_block<T: Ord>(blocks: Seq<Seq<T>>, block_size: nat, t: int, e: T)
    requires
        total_order::<T>(),
        well_formed(blocks, block_size),
        receives(blocks, t, e),
        blocks[t].len() < block_size,
    ensures
        0 <= upper_bound(blocks[t], e) <= blocks[t].len(),
        well_formed(blocks.update(t, blocks[t].insert(upper_bound(blocks[t], e), e)), block_size),
        blocks.update(t, blocks[t].insert(upper_bound(blocks[t], e), e)).flatten() == inserted(
            blocks.flatten(),
            e,
        ),
{
    let p = upper_bound(blocks[t], e);
    lemma_boundary(blocks[t], e, true);
    lemma_locate(blocks, e, true, t, p);
    lemma_flatten_insert_at(blocks, t, p, e);
    lemma_inserted_sorted(blocks.flatten(), e);
}

/// With blocks of one element, a new element becomes a block of its own,
/// before the block where it falls or after it.
pub proof fn lemma_insert_block<T: Ord>(blocks: Seq<Seq<T>>, t: int, e: T)
    requires
        total_order::<T>(),
        well_formed(blocks, 1),
        receives(blocks, t, e),
    ensures
        ({
            let at = if lt(e, blocks[t][0]) { t } else { t + 1 };
            &&& well_formed(blocks.insert(at, seq![e]), 1)
            &&& blocks.insert(at, seq![e]).flatten() == inserted(blocks.flatten(), e)
        }),
{
    let at = if lt(e, blocks[t][0]) { t } else { t + 1 };
    let p = upper_bound(blocks[t], e);
    assert(p == at - t) by {
        reveal_with_fuel(boundary, 2);
    }
    lemma_locate(blocks, e, true, t, p);
    lemma_offset_step(blocks, t);
    lemma_flatten_block_inserted(blocks, at, e);
    lemma_inserted_sorted(blocks.flatten(), e);
}

/// Taking an element out of a block that stays long enough leaves the blocks
/// well formed.
pub proof fn lemma_remove_plain<T: Ord>(blocks: Seq<Seq<T>>, block_size: nat, t: int, p: int)
    requires
        well_formed(blocks, block_size),
        0 <= t < blocks.len(),
        0 <= p < blocks[t].len(),
        blocks[t].len() > 1,
        t > 0 ==> blocks[t].len() - 1 >= block_size / 2,
    ensures
        well_formed(blocks.update(t, blocks[t].remove(p)), block_size),
        blocks.update(t, blocks[t].remove(p)).flatten() == blocks.flatten().remove(
            offset(blocks, t) + p,
        ),
{
    lemma_flatten_remove_at(blocks, t, p);
    lemma_flatten_index(blocks, t, p);
}

/// Taking the only element out of a block and dropping the block leaves the
/// blocks well formed.
pub proof fn lemma_remove_dropping<T: Ord>(blocks: Seq<Seq<T>>, block_size: nat, t: int)
    requires
        well_formed(blocks, block_size),
        0 <= t < blocks.len(),
        blocks[t].len() == 1,
    ensures
        well_formed(blocks.update(t, blocks[t].remove(0)).remove(t), block_size),
        blocks.update(t, blocks[t].remove(0)).remove(t).flatten() == blocks.flatten().remove(
            offset(blocks, t),
        ),
{
    let emptied = blocks.update(t, blocks[t].remove(0));
    lemma_flatten_remove_at(blocks, t, 0);
    lemma_flatten_dropped(emptied, t);
    lemma_flatten_index(blocks, t, 0);
}

/// Taking an element out of a block and appending what is left of the block
/// to the block before it, where both fit in one block, leaves the blocks
/// well formed.
pub proof fn lemma_remove_merging<T: Ord>(blocks: Seq<Seq<T>>, block_size: nat, t: int, p: int)
    requires
        well_formed(blocks, block_size),
        0 < t < blocks.len(),
        0 <= p < blocks[t].len(),
        blocks[t - 1].len() + blocks[t].len() - 1 <= block_size,
    ensures
        well_formed(merged(blocks.update(t, blocks[t].remove(p)), t), block_size),
        merged(blocks.update(t, blocks[t].remove(p)), t).flatten() == blocks.flatten().remove(
            offset(blocks, t) + p,
        ),
{
    let shrunk = blocks.update(t, blocks[t].remove(p));
    lemma_flatten_remove_at(blocks, t, p);
    lemma_flatten_merged(shrunk, t);
    lemma_flatten_index(blocks, t, p);
}

/// Taking an element out of a block that becomes too short, and filling the
/// block up from the end of the block before it so that the two share their
/// elements evenly, leaves the blocks well formed.
pub proof fn lemma_remove_levelling<T: Ord>(
    blocks: Seq<Seq<T>>,
    block_size: nat,
    t: int,
    p: int,
    keep: int,
)
    requires
        well_formed(blocks, block_size),
        0 < t < blocks.len(),
        0 <= p < blocks[t].len(),
        blocks[t].len() - 1 < block_size / 2,
        blocks[t - 1].len() + blocks[t].len() - 1 > block_size,
        keep == (blocks[t - 1].len() + blocks[t].len() - 1) / 2,
    ensures
        0 < keep <= blocks[t - 1].len(),
        well_formed(shifted(blocks.update(t, blocks[t].remove(p)), t, keep), block_size),
        shifted(blocks.update(t, blocks[t].remove(p)), t, keep).flatten()
            == blocks.flatten().remove(offset(blocks, t) + p),
{
    let shrunk = blocks.update(t, blocks[t].remove(p));
    lemma_flatten_remove_at(blocks, t, p);
    lemma_flatten_shifted(shrunk, t, keep);
    lemma_flatten_index(blocks, t, p);
}

/// A single block of one element is a well-formed list of that element.
pub proof fn lemma_first_block<T: Ord>(block_size: nat, e: T)
    requires
        total_order::<T>(),
        block_size > 0,
    ensures
        well_formed(seq![seq![e]], block_size),
        seq![seq![e]].flatten() == inserted(Seq::<T>::empty(), e),
{
    crate::blocks::lemma_flatten_one(seq![e]);
}

/// Where the first element equal to `v` stands: in the first block that ends
/// with an element not less than `v`, at the lower bound of `v` in that
/// block. A list without such an element has at that place, if it has the
/// place at all, an element greater than `v`.
pub proof fn lemma_place_of<T: Ord>(blocks: Seq<Seq<T>>, block_size: nat, v: T)
    requires
        total_order::<T>(),
        well_formed(blocks, block_size),
    ensures
        ({
            let t = lower_bound(lasts(blocks), v);
            let p = lower_bound(blocks[t], v);
            &&& 0 <= t <= blocks.len()
            &&& t < blocks.len() ==> {
                &&& 0 <= p < blocks[t].len()
                &&& offset(blocks, t) + p == lower_bound(blocks.flatten(), v)
                &&& occurs(blocks.flatten(), v) == le(blocks[t][p], v)
                &&& le(blocks[t][p], v) == equiv(blocks[t][p], v)
            }
            &&& t == blocks.len() ==> !occurs(blocks.flatten(), v)
        }),
{
    let t = lower_bound(lasts(blocks), v);
    lemma_block_boundary(blocks, v, false);
    lemma_occurs_at_lower_bound(blocks.flatten(), v);
    if t == blocks.len() {
        lemma_locate_past_end(blocks, v, false);
    } else {
        let p = lower_bound(blocks[t], v);
        lemma_boundary(blocks[t], v, false);
        lemma_locate(blocks, v, false, t, p);
        lemma_flatten_index(blocks, t, p);
    }
}

/// Putting an element in keeps the blocks well formed, and puts the element
/// into the list after every element that is not greater.
pub proof fn lemma_with_inserted<T: Ord>(blocks: Seq<Seq<T>>, block_size: nat, e: T)
    requires
        total_order::<T>(),
        well_formed(blocks, block_size),
    ensures
        well_formed(with_inserted(blocks, block_size, e), block_size),
        with_inserted(blocks, block_size, e).flatten() == inserted(blocks.flatten(), e),
{
    if blocks.len() == 0 {
        lemma_first_block(block_size, e);
    } else {
        let t = receiving_block(blocks, e);
        lemma_receiving_block(blocks, e);
        if blocks[t].len() != block_size {
            lemma_insert_into_block(blocks, block_size, t, e);
        } else if block_size == 1 {
            lemma_insert_block(blocks, t, e);
        } else {
            let mid = (block_size / 2) as int;
            let cut = split_at(blocks, t, mid);
            lemma_split_well_formed(blocks, block_size, t);
            if le(cut[t].last(), e) {
                lemma_insert_into_block(cut, block_size, t + 1, e);
            } else {
                lemma_insert_into_block(cut, block_size, t, e);
            }
        }
    }
}

/// Taking a value out keeps the blocks well formed, and takes the first
/// element equal to the value out of the list.
pub proof fn lemma_with_removed<T: Ord>(blocks: Seq<Seq<T>>, block_size: nat, v: T)
    requires
        total_order::<T>(),
        well_formed(blocks, block_size),
    ensures
        well_formed(with_removed(blocks, block_size, v), block_size),
        with_removed(blocks, block_size, v).flatten() == removed(blocks.flatten(), v),
{
    if occurs(blocks.flatten(), v) {
        lemma_place_of(blocks, block_size, v);
        let t = lower_bound(lasts(blocks), v);
        let p = lower_bound(blocks[t], v);
        let shrunk = blocks.update(t, blocks[t].remove(p));
        let left = shrunk[t].len();
        if left == 0 {
            lemma_remove_dropping(blocks, block_size, t);
        } else if t > 0 && left < block_size / 2 {
            let both = shrunk[t - 1].len() + left;
            if both <= block_size {
                lemma_remove_merging(blocks, block_size, t, p);
            } else {
                lemma_remove_levelling(blocks, block_size, t, p, (both / 2) as int);
            }
        } else {
            lemma_remove_plain(blocks, block_size, t, p);
        }
    }
}

} // verus!
