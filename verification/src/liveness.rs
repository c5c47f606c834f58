//! The abstract model of dead code elimination: which instructions of a
//! block a single pass keeps, what repeating the pass converges to, and what
//! holds of both.

use crate::types::InstructionView;
use vstd::prelude::*;

verus! {

/// Some instruction before position `k` reads `name`, and none after that
/// one and before `k` writes it.
pub open spec fn pending_read(block: Seq<InstructionView>, k: int, name: Seq<char>) -> bool {
    exists|r: int|
        0 <= r < k && r < block.len() && (#[trigger] block[r]).reads(name) && forall|j: int|
            r < j < k && j < block.len() ==> !(#[trigger] block[j]).defines(name)
}

/// Instruction `i` writes a variable that an instruction after it and
/// before `k` writes again, and no instruction from `i` up to that one
/// reads it.
pub open spec fn overwritten_unread(block: Seq<InstructionView>, i: int, k: int) -> bool {
    block[i].dest matches Some(name) && exists|j: int|
        i < j < k && j < block.len() && (#[trigger] block[j]).defines(name) && forall|r: int|
            i <= r < j ==> !(#[trigger] block[r]).reads(name)
}

/// A single pass keeps instruction `i`: it writes nothing, or what it
/// writes is read at the end of the block with no write after that read, and
/// it is not overwritten before being read.
pub open spec fn survives(block: Seq<InstructionView>, i: int) -> bool {
    match block[i].dest {
        None => true,
        Some(name) => pending_read(block, block.len() as int, name) && !overwritten_unread(
            block,
            i,
            block.len() as int,
        ),
    }
}

/// The instructions among the first `k` of `block` that a single pass keeps,
/// in their order.
pub open spec fn survivors(block: Seq<InstructionView>, k: int) -> Seq<InstructionView>
    decreases k,
{
    if k <= 0 {
        Seq::empty()
    } else if survives(block, k - 1) {
        survivors(block, k - 1).push(block[k - 1])
    } else {
        survivors(block, k - 1)
    }
}

/// The result of a single pass on `block`.
pub open spec fn single_pass(block: Seq<InstructionView>) -> Seq<InstructionView> {
    survivors(block, block.len() as int)
}

/// The result of repeating the single pass for as long as it shortens the
/// block.
pub open spec fn multi_pass(block: Seq<InstructionView>) -> Seq<InstructionView>
    decreases block.len(),
{
    let next = single_pass(block);
    if next.len() < block.len() {
        multi_pass(next)
    } else {
        next
    }
}

/// A single pass keeps at most the instructions it looked at; if it keeps
/// as many, it keeps them all.
pub proof fn lemma_survivors(block: Seq<InstructionView>, k: int)
    requires
        0 <= k <= block.len(),
    ensures
        survivors(block, k).len() <= k,
        survivors(block, k).len() == k ==> survivors(block, k) == block.subrange(0, k),
    decreases k,
{
    if k > 0 {
        lemma_survivors(block, k - 1);
        if survivors(block, k).len() == k {
            assert(survivors(block, k) =~= block.subrange(0, k));
        }
    } else {
        assert(survivors(block, k) =~= block.subrange(0, k));
    }
}

/// A single pass never lengthens a block, and a block that it does not
/// shorten it leaves as it is.
pub proof fn lemma_single_pass_shrinks(block: Seq<InstructionView>)
    ensures
        single_pass(block).len() <= block.len(),
        single_pass(block).len() == block.len() ==> single_pass(block) == block,
{
    lemma_survivors(block, block.len() as int);
    assert(block.subrange(0, block.len() as int) =~= block);
}

/// The positions, among the first `k` of `block`, of the instructions that a
/// single pass keeps, in ascending order.
pub open spec fn kept_positions(block: Seq<InstructionView>, k: int) -> Seq<int>
    decreases k,
{
    if k <= 0 {
        Seq::empty()
    } else if survives(block, k - 1) {
        kept_positions(block, k - 1).push(k - 1)
    } else {
        kept_positions(block, k - 1)
    }
}

/// What a single pass gives out are the instructions of the input that
/// survive, each once, in the order in which they stand in the input.
pub proof fn lemma_survivors_in_order(block: Seq<InstructionView>, k: int)
    requires
        0 <= k <= block.len(),
    ensures
        kept_positions(block, k).len() == survivors(block, k).len(),
        forall|p: int|
            0 <= p < survivors(block, k).len() ==> {
                &&& 0 <= (#[trigger] kept_positions(block, k)[p]) < k
                &&& survives(block, kept_positions(block, k)[p])
                &&& survivors(block, k)[p] == block[kept_positions(block, k)[p]]
            },
        forall|p: int, q: int|
            0 <= p < q < survivors(block, k).len() ==> kept_positions(block, k)[p]
                < kept_positions(block, k)[q],
        forall|i: int|
            0 <= i < k && survives(block, i) ==> kept_positions(block, k).contains(i),
    decreases k,
{
    if k > 0 {
        lemma_survivors_in_order(block, k - 1);
        let before = kept_positions(block, k - 1);
        let at = kept_positions(block, k);
        assert forall|i: int| 0 <= i < k && survives(block, i) implies at.contains(i) by {
            if i < k - 1 {
                let p = choose|p: int| 0 <= p < before.len() && before[p] == i;
                assert(at[p] == i);
            } else {
                assert(at[at.len() - 1] == i);
            }
        }
    }
}

/// The result of the repeated pass is a block that a single pass leaves as
/// it is.
pub proof fn lemma_multi_pass_is_fixed_point(block: Seq<InstructionView>)
    ensures
        single_pass(multi_pass(block)) == multi_pass(block),
    decreases block.len(),
{
    let next = single_pass(block);
    lemma_single_pass_shrinks(block);
    if next.len() < block.len() {
        lemma_multi_pass_is_fixed_point(next);
    }
}

/// The repeated pass never lengthens a block.
pub proof fn lemma_multi_pass_shrinks(block: Seq<InstructionView>)
    ensures
        multi_pass(block).len() <= block.len(),
    decreases block.len(),
{
    let next = single_pass(block);
    lemma_single_pass_shrinks(block);
    if next.len() < block.len() {
        lemma_multi_pass_shrinks(next);
    }
}

/// Repeating the repeated pass changes nothing.
pub proof fn lemma_multi_pass_idempotent(block: Seq<InstructionView>)
    ensures
        multi_pass(multi_pass(block)) == multi_pass(block),
{
    lemma_multi_pass_is_fixed_point(block);
}

/// Instruction `p` is the last one before position `k` that writes `name`.
pub open spec fn last_write(block: Seq<InstructionView>, k: int, name: Seq<char>, p: int) -> bool {
    &&& 0 <= p < k
    &&& p < block.len()
    &&& block[p].defines(name)
    &&& forall|j: int| p < j < k && j < block.len() ==> !(#[trigger] block[j]).defines(name)
}

/// A read is pending after instruction `k` if that instruction makes it,
/// or if it was pending before and the instruction does not write the
/// variable.
pub proof fn lemma_pending_read_step(block: Seq<InstructionView>, k: int, name: Seq<char>)
    requires
        0 <= k < block.len(),
    ensures
        pending_read(block, k + 1, name) <==> block[k].reads(name) || (pending_read(
            block,
            k,
            name,
        ) && !block[k].defines(name)),
{
    if pending_read(block, k + 1, name) {
        let r = choose|r: int|
            0 <= r < k + 1 && r < block.len() && (#[trigger] block[r]).reads(name) && forall|
                j: int,
            |
                r < j < k + 1 && j < block.len() ==> !(#[trigger] block[j]).defines(name);
        if r < k {
            assert(!block[k].defines(name));
            assert(block[r].reads(name));
            assert(pending_read(block, k, name));
        }
    }
    if block[k].reads(name) {
        assert(pending_read(block, k + 1, name));
    }
    if pending_read(block, k, name) && !block[k].defines(name) {
        let r = choose|r: int|
            0 <= r < k && r < block.len() && (#[trigger] block[r]).reads(name) && forall|j: int|
                r < j < k && j < block.len() ==> !(#[trigger] block[j]).defines(name);
        assert(block[r].reads(name));
        assert(pending_read(block, k + 1, name));
    }
}

/// An instruction that writes nothing overwrites nothing.
pub proof fn lemma_overwritten_step_no_write(block: Seq<InstructionView>, i: int, k: int)
    requires
        0 <= i < k < block.len(),
        block[k].dest is None,
    ensures
        overwritten_unread(block, i, k + 1) <==> overwritten_unread(block, i, k),
{
    if overwritten_unread(block, i, k + 1) {
        let name = block[i].dest->0;
        let j = choose|j: int|
            i < j < k + 1 && j < block.len() && (#[trigger] block[j]).defines(name) && forall|
                r: int,
            |
                i <= r < j ==> !(#[trigger] block[r]).reads(name);
        assert(block[j].defines(name));
    }
    if overwritten_unread(block, i, k) {
        let name = block[i].dest->0;
        let j = choose|j: int|
            i < j < k && j < block.len() && (#[trigger] block[j]).defines(name) && forall|r: int|
                i <= r < j ==> !(#[trigger] block[r]).reads(name);
        assert(block[j].defines(name));
    }
}

/// When instruction `k` writes `name`, the one write that it may newly
/// overwrite is the last write of `name` before it, and it does so exactly
/// when no read of `name` is pending.
pub proof fn lemma_overwritten_step_write(
    block: Seq<InstructionView>,
    i: int,
    k: int,
    name: Seq<char>,
)
    requires
        0 <= i < k < block.len(),
        block[k].defines(name),
    ensures
        overwritten_unread(block, i, k + 1) <==> overwritten_unread(block, i, k) || (last_write(
            block,
            k,
            name,
            i,
        ) && !pending_read(block, k, name)),
{
    if overwritten_unread(block, i, k) {
        let own = block[i].dest->0;
        let j = choose|j: int|
            i < j < k && j < block.len() && (#[trigger] block[j]).defines(own) && forall|r: int|
                i <= r < j ==> !(#[trigger] block[r]).reads(own);
        assert(block[j].defines(own));
        assert(overwritten_unread(block, i, k + 1));
    }
    if last_write(block, k, name, i) && !pending_read(block, k, name) {
        assert forall|r: int| i <= r < k implies !(#[trigger] block[r]).reads(name) by {
            if block[r].reads(name) {
                assert(pending_read(block, k, name));
            }
        }
        assert(block[k].defines(name));
        assert(overwritten_unread(block, i, k + 1));
    }
    if overwritten_unread(block, i, k + 1) && !overwritten_unread(block, i, k) {
        let own = block[i].dest->0;
        let j = choose|j: int|
            i < j < k + 1 && j < block.len() && (#[trigger] block[j]).defines(own) && forall|
                r: int,
            |
                i <= r < j ==> !(#[trigger] block[r]).reads(own);
        if j < k {
            assert(block[j].defines(own));
            assert(false);
        }
        assert(own == name);
        assert forall|w: int| i < w < k && w < block.len() implies !(#[trigger] block[w]).defines(
            name,
        ) by {
            if block[w].defines(name) {
                assert(overwritten_unread(block, i, k));
            }
        }
        assert(last_write(block, k, name, i));
        if pending_read(block, k, name) {
            let r = choose|r: int|
                0 <= r < k && r < block.len() && (#[trigger] block[r]).reads(name) && forall|
                    w: int,
                |
                    r < w < k && w < block.len() ==> !(#[trigger] block[w]).defines(name);
            if r < i {
                assert(block[i].defines(name));
            }
            assert(false);
        }
    }
}

} // verus!
