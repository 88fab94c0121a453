//! Sequences of blocks and the sequence their concatenation makes.
use vstd::prelude::*;
use vstd::seq_lib::lemma_flatten_concat;

verus! {

/// The number of elements that stand before block `i`.
pub open spec fn offset<A>(blocks: Seq<Seq<A>>, i: int) -> int {
    blocks.take(i).flatten().len() as int
}

/// A single block concatenates to itself.
pub proof fn lemma_flatten_one<A>(x: Seq<A>)
    ensures
        seq![x].flatten() == x,
{
    seq![x].lemma_flatten_one_element();
}

/// Two blocks concatenate to the first followed by the second.
pub proof fn lemma_flatten_two<A>(x: Seq<A>, y: Seq<A>)
    ensures
        seq![x, y].flatten() == x + y,
{
    assert(seq![x, y] =~= seq![x] + seq![y]);
    lemma_flatten_concat(seq![x], seq![y]);
    lemma_flatten_one(x);
    lemma_flatten_one(y);
}

/// The concatenation splits around any run of blocks.
pub proof fn lemma_flatten_around<A>(blocks: Seq<Seq<A>>, a: int, b: int)
    requires
        0 <= a <= b <= blocks.len(),
    ensures
        blocks.flatten() == blocks.take(a).flatten() + blocks.subrange(a, b).flatten()
            + blocks.skip(b).flatten(),
{
    assert(blocks =~= blocks.take(a) + blocks.subrange(a, b) + blocks.skip(b));
    lemma_flatten_concat(blocks.take(a) + blocks.subrange(a, b), blocks.skip(b));
    lemma_flatten_concat(blocks.take(a), blocks.subrange(a, b));
}

/// The concatenation is what stands before block `t`, then block `t`, then
/// what stands after it.
pub proof fn lemma_flatten_at<A>(blocks: Seq<Seq<A>>, t: int)
    requires
        0 <= t < blocks.len(),
    ensures
        blocks.flatten() == blocks.take(t).flatten() + blocks[t] + blocks.skip(t + 1).flatten(),
{
    lemma_flatten_around(blocks, t, t + 1);
    assert(blocks.subrange(t, t + 1) =~= seq![blocks[t]]);
    lemma_flatten_one(blocks[t]);
}

/// Replacing the blocks `a..b` by `mid` replaces their elements by those of `mid`.
pub proof fn lemma_flatten_replaced<A>(blocks: Seq<Seq<A>>, a: int, b: int, mid: Seq<Seq<A>>)
    requires
        0 <= a <= b <= blocks.len(),
    ensures
        (blocks.take(a) + mid + blocks.skip(b)).flatten() == blocks.take(a).flatten()
            + mid.flatten() + blocks.skip(b).flatten(),
{
    lemma_flatten_concat(blocks.take(a) + mid, blocks.skip(b));
    lemma_flatten_concat(blocks.take(a), mid);
}

/// Block `i` starts where the blocks before it end.
pub proof fn lemma_offset_step<A>(blocks: Seq<Seq<A>>, i: int)
    requires
        0 <= i < blocks.len(),
    ensures
        offset(blocks, i + 1) == offset(blocks, i) + blocks[i].len(),
        offset(blocks, i + 1) <= blocks.flatten().len(),
{
    assert(blocks.take(i + 1) =~= blocks.take(i).push(blocks[i]));
    blocks.take(i).lemma_flatten_push(blocks[i]);
    lemma_flatten_around(blocks, 0, i + 1);
}

/// The first block starts at zero, and all blocks together hold every element.
pub proof fn lemma_offset_ends<A>(blocks: Seq<Seq<A>>)
    ensures
        offset(blocks, 0) == 0,
        offset(blocks, blocks.len() as int) == blocks.flatten().len(),
{
    assert(blocks.take(blocks.len() as int) =~= blocks);
}

/// Element `p` of block `i` is element `offset(blocks, i) + p` of the concatenation.
pub proof fn lemma_flatten_index<A>(blocks: Seq<Seq<A>>, i: int, p: int)
    requires
        0 <= i < blocks.len(),
        0 <= p < blocks[i].len(),
    ensures
        0 <= offset(blocks, i) + p < blocks.flatten().len(),
        blocks.flatten()[offset(blocks, i) + p] == blocks[i][p],
{
    lemma_flatten_at(blocks, i);
}

/// Blocks further on start further on.
pub proof fn lemma_offset_monotone<A>(blocks: Seq<Seq<A>>, i: int, j: int)
    requires
        0 <= i <= j <= blocks.len(),
    ensures
        offset(blocks, i) <= offset(blocks, j),
{
    assert(blocks.take(j) =~= blocks.take(i) + blocks.subrange(i, j));
    lemma_flatten_concat(blocks.take(i), blocks.subrange(i, j));
}

/// Putting `e` in at place `p` of block `t` puts it in at the matching place
/// of the concatenation.
pub proof fn lemma_flatten_insert_at<A>(blocks: Seq<Seq<A>>, t: int, p: int, e: A)
    requires
        0 <= t < blocks.len(),
        0 <= p <= blocks[t].len(),
    ensures
        blocks.update(t, blocks[t].insert(p, e)).flatten() == blocks.flatten().insert(
            offset(blocks, t) + p,
            e,
        ),
{
    let grown = blocks[t].insert(p, e);
    assert(blocks.update(t, grown) =~= blocks.take(t) + seq![grown] + blocks.skip(t + 1));
    lemma_flatten_replaced(blocks, t, t + 1, seq![grown]);
    lemma_flatten_one(grown);
    lemma_flatten_at(blocks, t);
}

/// Taking element `p` out of block `t` takes the matching element out of the
/// concatenation.
pub proof fn lemma_flatten_remove_at<A>(blocks: Seq<Seq<A>>, t: int, p: int)
    requires
        0 <= t < blocks.len(),
        0 <= p < blocks[t].len(),
    ensures
        blocks.update(t, blocks[t].remove(p)).flatten() == blocks.flatten().remove(
            offset(blocks, t) + p,
        ),
{
    let shrunk = blocks[t].remove(p);
    assert(blocks.update(t, shrunk) =~= blocks.take(t) + seq![shrunk] + blocks.skip(t + 1));
    lemma_flatten_replaced(blocks, t, t + 1, seq![shrunk]);
    lemma_flatten_one(shrunk);
    lemma_flatten_at(blocks, t);
}

/// A new block of one element before block `t` puts that element in where
/// block `t` started.
pub proof fn lemma_flatten_block_inserted<A>(blocks: Seq<Seq<A>>, t: int, e: A)
    requires
        0 <= t <= blocks.len(),
    ensures
        blocks.insert(t, seq![e]).flatten() == blocks.flatten().insert(offset(blocks, t), e),
{
    assert(blocks.insert(t, seq![e]) =~= blocks.take(t) + seq![seq![e]] + blocks.skip(t));
    lemma_flatten_replaced(blocks, t, t, seq![seq![e]]);
    lemma_flatten_one(seq![e]);
    lemma_flatten_around(blocks, t, t);
    let before = blocks.take(t).flatten();
    let after = blocks.skip(t).flatten();
    assert(before + seq![e] + after =~= (before + Seq::<A>::empty() + after).insert(
        before.len() as int,
        e,
    ));
}

/// The blocks with block `t` cut in two at `mid`.
pub open spec fn split_at<A>(blocks: Seq<Seq<A>>, t: int, mid: int) -> Seq<Seq<A>> {
    blocks.take(t) + seq![blocks[t].take(mid), blocks[t].skip(mid)] + blocks.skip(t + 1)
}

/// The blocks with block `t` appended to the block before it.
pub open spec fn merged<A>(blocks: Seq<Seq<A>>, t: int) -> Seq<Seq<A>> {
    blocks.take(t - 1) + seq![blocks[t - 1] + blocks[t]] + blocks.skip(t + 1)
}

/// The blocks with the block before block `t` cut down to its first `keep`
/// elements and the rest of it moved to the front of block `t`.
pub open spec fn shifted<A>(blocks: Seq<Seq<A>>, t: int, keep: int) -> Seq<Seq<A>> {
    blocks.take(t - 1) + seq![blocks[t - 1].take(keep), blocks[t - 1].skip(keep) + blocks[t]]
        + blocks.skip(t + 1)
}

/// Cutting a block in two changes no element and no order.
pub proof fn lemma_flatten_split_at<A>(blocks: Seq<Seq<A>>, t: int, mid: int)
    requires
        0 <= t < blocks.len(),
        0 <= mid <= blocks[t].len(),
    ensures
        split_at(blocks, t, mid).flatten() == blocks.flatten(),
{
    let halves = seq![blocks[t].take(mid), blocks[t].skip(mid)];
    lemma_flatten_replaced(blocks, t, t + 1, halves);
    lemma_flatten_two(blocks[t].take(mid), blocks[t].skip(mid));
    lemma_flatten_at(blocks, t);
}

/// Appending a block to the one before it changes no element and no order.
pub proof fn lemma_flatten_merged<A>(blocks: Seq<Seq<A>>, t: int)
    requires
        0 < t < blocks.len(),
    ensures
        merged(blocks, t).flatten() == blocks.flatten(),
{
    lemma_flatten_replaced(blocks, t - 1, t + 1, seq![blocks[t - 1] + blocks[t]]);
    lemma_flatten_one(blocks[t - 1] + blocks[t]);
    lemma_flatten_around(blocks, t - 1, t + 1);
    assert(blocks.subrange(t - 1, t + 1) =~= seq![blocks[t - 1], blocks[t]]);
    lemma_flatten_two(blocks[t - 1], blocks[t]);
}

/// Moving the tail of a block to the front of the next one changes no element
/// and no order.
pub proof fn lemma_flatten_shifted<A>(blocks: Seq<Seq<A>>, t: int, keep: int)
    requires
        0 < t < blocks.len(),
        0 <= keep <= blocks[t - 1].len(),
    ensures
        shifted(blocks, t, keep).flatten() == blocks.flatten(),
{
    let left = blocks[t - 1];
    let moved = seq![left.take(keep), left.skip(keep) + blocks[t]];
    lemma_flatten_replaced(blocks, t - 1, t + 1, moved);
    lemma_flatten_two(left.take(keep), left.skip(keep) + blocks[t]);
    lemma_flatten_around(blocks, t - 1, t + 1);
    assert(blocks.subrange(t - 1, t + 1) =~= seq![left, blocks[t]]);
    lemma_flatten_two(left, blocks[t]);
}

/// Dropping an empty block changes no element and no order.
pub proof fn lemma_flatten_dropped<A>(blocks: Seq<Seq<A>>, t: int)
    requires
        0 <= t < blocks.len(),
        blocks[t].len() == 0,
    ensures
        blocks.remove(t).flatten() == blocks.flatten(),
{
    lemma_flatten_replaced(blocks, t, t + 1, Seq::<Seq<A>>::empty());
    lemma_flatten_at(blocks, t);
}

} // verus!
