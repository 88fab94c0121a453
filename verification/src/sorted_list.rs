//! The sorted list and its operations.
use crate::blocks::{
    lemma_flatten_index, lemma_offset_ends, lemma_offset_step, merged, offset, shifted, split_at,
};
use crate::layout::{
    firsts, lasts, lemma_block_sorted, lemma_blocks_ordered, lemma_firsts_sorted,
    lemma_lasts_sorted, lemma_place_of, lemma_receiving_block, lemma_split_well_formed,
    lemma_with_inserted, lemma_with_removed, put, well_formed, with_inserted, with_removed,
};
use crate::order::{equiv, le, lt, not_greater, total_order};
use crate::sorted::{
    inserted, is_beyond, is_sorted, lemma_boundary, lemma_boundary_by_neighbours, lower_bound,
    occurs, position_in, removed, upper_bound,
};
use vstd::prelude::*;

verus! {

/// A sorted list of elements kept in blocks of bounded length.
///
/// The list is a multiset in ascending order: equal elements may be held more
/// than once. With a block size near the square root of the number of
/// elements, insertion and removal shift about that many elements, and a
/// lookup takes two binary searches.
pub struct SortedList<T> {
    data: Vec<Vec<T>>,
    block_size: usize,
}

impl<T: Ord> View for SortedList<T> {
    type V = Seq<T>;

    /// The elements in ascending order: the blocks read one after the other.
    open spec fn view(&self) -> Seq<T> {
        self.blocks().flatten()
    }
}

impl<T: Ord> SortedList<T> {
    /// The blocks, each as the sequence of its elements.
    pub closed spec fn blocks(&self) -> Seq<Seq<T>> {
        self.data@.map_values(|b: Vec<T>| b@)
    }

    /// The greatest length a block may have, fixed when the list is made.
    pub closed spec fn block_size(&self) -> nat {
        self.block_size as nat
    }

    /// The invariant of the list: the order of `T` is total, no block is
    /// empty or longer than the block size, no block but the first is shorter
    /// than half the block size, and the elements never decrease.
    pub open spec fn wf(&self) -> bool {
        &&& total_order::<T>()
        &&& well_formed(self.blocks(), self.block_size())
    }

    /// What the invariant says of the blocks and of the elements: every
    /// block holds at least one element and at most as many as the block size,
    /// every block but the first at least half as many, every block is sorted,
    /// no element is greater than an element of a later block, and the elements
    /// of the list never decrease.
    pub proof fn lemma_invariant(&self)
        requires
            self.wf(),
        ensures
            self.block_size() > 0,
            forall|i: int|
                0 <= i < self.blocks().len() ==> 0 < (#[trigger] self.blocks()[i]).len()
                    <= self.block_size(),
            forall|i: int|
                0 < i < self.blocks().len() ==> (#[trigger] self.blocks()[i]).len()
                    >= self.block_size() / 2,
            forall|i: int| 0 <= i < self.blocks().len() ==> is_sorted(#[trigger] self.blocks()[i]),
            forall|i: int, j: int|
                0 <= i < j < self.blocks().len() ==> le(
                    (#[trigger] self.blocks()[i]).last(),
                    (#[trigger] self.blocks()[j]).first(),
                ),
            is_sorted(self@),
    {
        let blocks = self.blocks();
        assert forall|i: int| 0 <= i < blocks.len() implies is_sorted(#[trigger] blocks[i]) by {
            lemma_block_sorted(blocks, i);
        }
        assert forall|i: int, j: int| 0 <= i < j < blocks.len() implies le(
            (#[trigger] blocks[i]).last(),
            (#[trigger] blocks[j]).first(),
        ) by {
            lemma_blocks_ordered(blocks, i, blocks[i].len() - 1, j, 0);
        }
    }

    /// Makes an empty list whose blocks hold up to `block_size` elements.
    ///
    /// A block size of zero is refused: no block could hold an element.
    pub fn new(block_size: usize) -> (made: Option<Self>)
        requires
            total_order::<T>(),
        ensures
            made is Some <==> block_size > 0,
            made matches Some(list) ==> {
                &&& list.wf()
                &&& list.block_size() == block_size
                &&& list.blocks() == Seq::<Seq<T>>::empty()
                &&& list@ == Seq::<T>::empty()
            },
    {
        if block_size == 0 {
            return None;
        }
        let list = SortedList { data: Vec::new(), block_size };
        Some(list)
    }

    /// The index of the first block whose last element is not less than
    /// `value`: the block that holds `value` if any does. Where `value` is
    /// greater than every element, the number of blocks.
    ///
    /// A binary search over the last elements of the blocks.
    fn block_index(&self, value: &T) -> (index: usize)
        requires
            self.wf(),
        ensures
            index == lower_bound(lasts(self.blocks()), *value),
            index <= self.blocks().len(),
    {
        proof {
            lemma_lasts_sorted(self.blocks());
        }
        let mut lo: usize = 0;
        let mut hi: usize = self.data.len();
        while lo < hi
            invariant
                self.wf(),
                is_sorted(lasts(self.blocks())),
                lo <= hi <= self.data.len(),
                lo > 0 ==> lt(lasts(self.blocks())[lo - 1], *value),
                hi < self.data.len() ==> le(*value, lasts(self.blocks())[hi as int]),
            decreases hi - lo,
        {
            let mid: usize = lo + (hi - lo) / 2;
            let block = &self.data[mid];
            assert(block@ == self.blocks()[mid as int]);
            if not_greater(value, &block[block.len() - 1]) {
                hi = mid;
            } else {
                lo = mid + 1;
            }
        }
        proof {
            lemma_boundary_by_neighbours(lasts(self.blocks()), *value, false, lo as int);
        }
        lo
    }

    /// The index of the first block whose first element is greater than
    /// `value`; the number of blocks where there is none.
    ///
    /// A binary search over the first elements of the blocks.
    fn block_past(&self, value: &T) -> (index: usize)
        requires
            self.wf(),
        ensures
            index == upper_bound(firsts(self.blocks()), *value),
            index <= self.blocks().len(),
    {
        proof {
            lemma_firsts_sorted(self.blocks());
        }
        let mut lo: usize = 0;
        let mut hi: usize = self.data.len();
        while lo < hi
            invariant
                self.wf(),
                is_sorted(firsts(self.blocks())),
                lo <= hi <= self.data.len(),
                lo > 0 ==> le(firsts(self.blocks())[lo - 1], *value),
                hi < self.data.len() ==> lt(*value, firsts(self.blocks())[hi as int]),
            decreases hi - lo,
        {
            let mid: usize = lo + (hi - lo) / 2;
            let block = &self.data[mid];
            assert(block@ == self.blocks()[mid as int]);
            if not_greater(&block[0], value) {
                lo = mid + 1;
            } else {
                hi = mid;
            }
        }
        proof {
            lemma_boundary_by_neighbours(firsts(self.blocks()), *value, true, lo as int);
        }
        lo
    }

    /// The block that holds the first element equal to `value`, and the place
    /// of that element in the block; `None` where the list has no such element.
    fn indexes_for(&self, value: &T) -> (found: Option<(usize, usize)>)
        requires
            self.wf(),
        ensures
            found is Some <==> occurs(self@, *value),
            found matches Some((block, place)) ==> {
                &&& block < self.blocks().len()
                &&& place < self.blocks()[block as int].len()
                &&& block == lower_bound(lasts(self.blocks()), *value)
                &&& place == lower_bound(self.blocks()[block as int], *value)
                &&& offset(self.blocks(), block as int) + place == lower_bound(self@, *value)
                &&& equiv(self.blocks()[block as int][place as int], *value)
            },
    {
        proof {
            lemma_place_of(self.blocks(), self.block_size(), *value);
        }
        let block_index = self.block_index(value);
        if block_index == self.data.len() {
            return None;
        }
        let block = &self.data[block_index];
        proof {
            lemma_block_sorted(self.blocks(), block_index as int);
        }
        let place = position_in(block, value, false);
        if not_greater(&block[place], value) {
            Some((block_index, place))
        } else {
            None
        }
    }

    /// Puts `element` into the list, after every element that is not greater:
    /// an element equal to some that the list holds goes in after all of them.
    ///
    /// The element goes into the first block that ends with an element not
    /// less than it, or into the last block where there is none. Where that
    /// block ends with an element equal to it, its equals may run on into the
    /// blocks behind: the element then goes into the last block that begins
    /// with an element not greater. A block that is full is cut in two first.
    /// With a block size of one a cut would leave an empty block, so the
    /// element becomes a block of its own there.
    ///
    /// The cost is a few binary searches, a shift inside one block and, where
    /// a block is cut, a shift of the blocks behind it.
    pub fn insert(&mut self, element: T)
        requires
            old(self).wf(),
        ensures
            final(self).wf(),
            final(self).block_size() == old(self).block_size(),
            final(self)@ == inserted(old(self)@, element),
            final(self).blocks() == with_inserted(
                old(self).blocks(),
                old(self).block_size(),
                element,
            ),
    {
        proof {
            lemma_with_inserted(self.blocks(), self.block_size(), element);
        }
        let count = self.data.len();
        if count == 0 {
            let mut block: Vec<T> = Vec::new();
            block.push(element);
            self.data.push(block);
            assert(self.blocks() =~= seq![seq![element]]);
            return;
        }
        proof {
            lemma_receiving_block(self.blocks(), element);
        }
        let mut target = self.block_index(&element);
        if target == count {
            target -= 1;
        } else {
            let block = &self.data[target];
            if not_greater(&block[block.len() - 1], &element) {
                target = self.block_past(&element) - 1;
            }
        }
        if self.data[target].len() == self.block_size {
            if self.block_size == 1 {
                let before = is_beyond(&self.data[target][0], &element, true);
                let mut block: Vec<T> = Vec::new();
                block.push(element);
                let at = if before {
                    target
                } else {
                    target + 1
                };
                self.data.insert(at, block);
                assert(self.blocks() =~= old(self).blocks().insert(at as int, seq![element]));
                return;
            }
            self.rebalance(target);
            let lower = &self.data[target];
            if not_greater(&lower[lower.len() - 1], &element) {
                target += 1;
            }
        }
        let ghost blocks = self.blocks();
        proof {
            lemma_block_sorted(blocks, target as int);
            lemma_boundary(blocks[target as int], element, true);
        }
        let place = position_in(&self.data[target], &element, true);
        self.data[target].insert(place, element);
        assert(self.blocks() =~= put(blocks, target as int, element));
    }

    /// Cuts a full block in two at its middle: the upper half becomes a new
    /// block right after it.
    fn rebalance(&mut self, block_index: usize)
        requires
            old(self).wf(),
            block_index < old(self).blocks().len(),
            old(self).blocks()[block_index as int].len() == old(self).block_size(),
            old(self).block_size() >= 2,
        ensures
            final(self).wf(),
            final(self).block_size() == old(self).block_size(),
            final(self).blocks() == split_at(
                old(self).blocks(),
                block_index as int,
                (old(self).block_size() / 2) as int,
            ),
            final(self)@ == old(self)@,
    {
        assert(block_index < self.data.len());
        let mid = self.data[block_index].len() / 2;
        let upper = self.data[block_index].split_off(mid);
        self.data.insert(block_index + 1, upper);
        proof {
            lemma_split_well_formed(
                old(self).blocks(),
                old(self).block_size(),
                block_index as int,
            );
            assert(self.blocks() =~= split_at(
                old(self).blocks(),
                block_index as int,
                (old(self).block_size() / 2) as int,
            ));
        }
    }

    /// Takes the first element equal to `value` out of the list, and says
    /// whether there was one. A list without such an element is left as it is.
    ///
    /// A block that is left empty is dropped. A block other than the first
    /// that is left shorter than half the block size is appended to the block
    /// before it where the two fit in one block; otherwise it is filled up
    /// from the end of that block until the two are even.
    ///
    /// The cost is two binary searches, a shift inside one block and, where a
    /// block is dropped, a shift of the blocks behind it.
    pub fn remove(&mut self, value: &T) -> (found: bool)
        requires
            old(self).wf(),
        ensures
            final(self).wf(),
            final(self).block_size() == old(self).block_size(),
            found == occurs(old(self)@, *value),
            final(self)@ == removed(old(self)@, *value),
            final(self).blocks() == with_removed(
                old(self).blocks(),
                old(self).block_size(),
                *value,
            ),
    {
        proof {
            lemma_with_removed(self.blocks(), self.block_size(), *value);
        }
        let (block_index, place) = match self.indexes_for(value) {
            None => {
                return false;
            },
            Some(indexes) => indexes,
        };
        let ghost t = block_index as int;
        let ghost shrunk = self.blocks().update(t, self.blocks()[t].remove(place as int));
        let _ = self.data[block_index].remove(place);
        assert(self.blocks() =~= shrunk);
        let block_len = self.data[block_index].len();
        if block_len == 0 {
            let _ = self.data.remove(block_index);
            assert(self.blocks() =~= shrunk.remove(t));
        } else if block_index > 0 && block_len < self.block_size / 2 {
            let left_len = self.data[block_index - 1].len();
            if left_len <= self.block_size - block_len {
                self.merge_blocks(block_index);
            } else {
                let keep = block_len + (left_len - block_len) / 2;
                self.level_blocks(block_index, keep);
            }
        }
        true
    }

    /// Appends a block to the block before it and drops it.
    fn merge_blocks(&mut self, block_index: usize)
        requires
            0 < block_index < old(self).blocks().len(),
        ensures
            final(self).block_size() == old(self).block_size(),
            final(self).blocks() == merged(old(self).blocks(), block_index as int),
    {
        let mut block = self.data.remove(block_index);
        self.data[block_index - 1].append(&mut block);
    }

    /// Cuts the block before `block_index` down to its first `keep` elements
    /// and moves the rest of it, in order, to the front of the block at
    /// `block_index`.
    fn level_blocks(&mut self, block_index: usize, keep: usize)
        requires
            0 < block_index < old(self).blocks().len(),
            keep <= old(self).blocks()[block_index - 1].len(),
        ensures
            final(self).block_size() == old(self).block_size(),
            final(self).blocks() == shifted(old(self).blocks(), block_index as int, keep as int),
    {
        let mut moved = self.data[block_index - 1].split_off(keep);
        moved.append(&mut self.data[block_index]);
        self.data[block_index] = moved;
    }

    /// A fresh walk over the elements in ascending order: block after block,
    /// and each block from its first element to its last. Making the walk
    /// reads no element; each step of it reads one.
    pub fn iter(&self) -> (walk: Iter<'_, T>)
        requires
            self.wf(),
        ensures
            walk.wf(),
            walk.list() == *self,
            walk.position() == 0,
            walk.remaining() == self@,
    {
        Iter { list: self, block: 0, place: 0 }
    }

    /// The length of each block, in the order of the blocks.
    pub fn block_lengths(&self) -> (lengths: Vec<usize>)
        ensures
            lengths@.len() == self.blocks().len(),
            forall|i: int|
                0 <= i < lengths@.len() ==> lengths@[i] == (#[trigger] self.blocks()[i]).len(),
    {
        let mut lengths: Vec<usize> = Vec::new();
        let mut i: usize = 0;
        while i < self.data.len()
            invariant
                i <= self.data.len(),
                lengths@.len() == i,
                forall|k: int| 0 <= k < i ==> lengths@[k] == (#[trigger] self.blocks()[k]).len(),
            decreases self.data.len() - i,
        {
            lengths.push(self.data[i].len());
            i += 1;
        }
        lengths
    }

    /// Whether the list holds an element equal to `value`.
    ///
    /// Two binary searches: one over the blocks, one in the block found.
    pub fn contains(&self, value: &T) -> (found: bool)
        requires
            self.wf(),
        ensures
            found == occurs(self@, *value),
    {
        self.indexes_for(value).is_some()
    }
}

/// A walk over the elements of a [`SortedList`] in ascending order.
///
/// The walk borrows the list, reads it as it was when the walk began, and
/// hands out one element for each call of [`Iter::next`].
pub struct Iter<'a, T> {
    list: &'a SortedList<T>,
    block: usize,
    place: usize,
}

impl<'a, T: Ord> Iter<'a, T> {
    /// The list that is walked.
    pub closed spec fn list(&self) -> SortedList<T> {
        *self.list
    }

    /// How many elements the walk has handed out.
    pub closed spec fn position(&self) -> int {
        offset(self.list.blocks(), self.block as int) + self.place
    }

    /// The elements still to come, in the order in which they will come.
    pub open spec fn remaining(&self) -> Seq<T> {
        self.list()@.skip(self.position())
    }

    /// The invariant of the walk: it stands at an element of a well-formed
    /// list, or past the last one.
    pub closed spec fn wf(&self) -> bool {
        &&& self.list.wf()
        &&& self.block <= self.list.blocks().len()
        &&& self.block < self.list.blocks().len() ==> self.place
            < self.list.blocks()[self.block as int].len()
        &&& self.block == self.list.blocks().len() ==> self.place == 0
    }

    /// What a walk that is well formed knows of its position.
    pub proof fn lemma_position(&self)
        requires
            self.wf(),
        ensures
            self.list().wf(),
            0 <= self.position() <= self.list()@.len(),
            self.remaining().len() == self.list()@.len() - self.position(),
    {
        let blocks = self.list.blocks();
        lemma_offset_ends(blocks);
        if self.block < blocks.len() {
            lemma_flatten_index(blocks, self.block as int, self.place as int);
        }
    }

    /// Hands out the next element, or `None` once every element has been
    /// handed out.
    pub fn next(&mut self) -> (element: Option<&'a T>)
        requires
            old(self).wf(),
        ensures
            final(self).wf(),
            final(self).list() == old(self).list(),
            match element {
                Some(e) => {
                    &&& old(self).position() < old(self).list()@.len()
                    &&& final(self).position() == old(self).position() + 1
                    &&& *e == old(self).list()@[old(self).position()]
                    &&& *e == old(self).remaining().first()
                    &&& final(self).remaining() == old(self).remaining().drop_first()
                },
                None => {
                    &&& old(self).position() == old(self).list()@.len()
                    &&& final(self).position() == old(self).position()
                    &&& old(self).remaining() == Seq::<T>::empty()
                    &&& final(self).remaining() == Seq::<T>::empty()
                },
            },
    {
        let list = self.list;
        let ghost blocks = list.blocks();
        proof {
            lemma_offset_ends(blocks);
        }
        if self.block == list.data.len() {
            return None;
        }
        let block = &list.data[self.block];
        let element = &block[self.place];
        proof {
            lemma_flatten_index(blocks, self.block as int, self.place as int);
            lemma_offset_step(blocks, self.block as int);
        }
        if self.place + 1 < block.len() {
            self.place = self.place + 1;
        } else {
            self.block = self.block + 1;
            self.place = 0;
        }
        Some(element)
    }
}

} // verus!
