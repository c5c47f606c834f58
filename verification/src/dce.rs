//! Dead code elimination.
//!
//! A single pass drops every instruction whose destination is not read
//! afterwards, or is written again before it is read. The multi-pass driver
//! repeats the single pass until it drops nothing more.

use crate::liveness::{
    last_write, lemma_overwritten_step_no_write, lemma_overwritten_step_write,
    lemma_multi_pass_is_fixed_point, lemma_multi_pass_shrinks, lemma_pending_read_step,
    lemma_single_pass_shrinks, multi_pass, overwritten_unread, pending_read, single_pass,
    survivors,
};
use crate::types::{
    bound_before, lemma_bound_before_step, Block, Instruction, InstructionView,
};
use std::collections::HashSet;
use vstd::hash_map::StringHashMap;
use vstd::hash_set::StringHashSet;
use vstd::prelude::*;

verus! {

broadcast use vstd::std_specs::hash::group_hash_axioms;

/// What the forward scan knows after the first `k` instructions of `block`.
struct Scan {
    /// The variables written so far.
    created: StringHashSet,
    /// The variables read since they were last written.
    used: StringHashSet,
    /// For each variable written so far, the position of its last write.
    prev_index: StringHashMap<usize>,
    /// The positions of the writes that were overwritten before being read.
    remove: HashSet<usize>,
}

impl Scan {
    /// The tables hold exactly what the first `k` instructions of `block`
    /// determine.
    spec fn holds(&self, block: Seq<InstructionView>, k: int) -> bool {
        &&& forall|name: Seq<char>| #[trigger]
            self.created@.contains(name) <==> bound_before(block, k, name)
        &&& forall|name: Seq<char>| #[trigger]
            self.used@.contains(name) <==> pending_read(block, k, name)
        &&& forall|name: Seq<char>| #[trigger]
            self.prev_index@.contains_key(name) <==> bound_before(block, k, name)
        &&& forall|name: Seq<char>| #[trigger]
            self.prev_index@.contains_key(name) ==> last_write(
                block,
                k,
                name,
                self.prev_index@[name] as int,
            )
        &&& forall|i: usize| #[trigger]
            self.remove@.contains(i) <==> i < k && overwritten_unread(block, i as int, k)
    }

    fn new() -> (r: Scan)
        ensures
            forall|block: Seq<InstructionView>| #[trigger] r.holds(block, 0),
    {
        Scan {
            created: StringHashSet::new(),
            used: StringHashSet::new(),
            prev_index: StringHashMap::new(),
            remove: HashSet::new(),
        }
    }
}

/// Adds every one of `args` to `used`.
fn mark_read(used: &mut StringHashSet, args: &Vec<String>)
    ensures
        forall|name: Seq<char>|
            final(used)@.contains(name) <==> old(used)@.contains(name)
                || args.deep_view().contains(name),
{
    let ghost names = args.deep_view();
    let ghost before = used@;
    let mut a: usize = 0;
    while a < args.len()
        invariant
            a <= args.len(),
            names == args.deep_view(),
            forall|name: Seq<char>|
                used@.contains(name) <==> before.contains(name) || names.subrange(
                    0,
                    a as int,
                ).contains(name),
        decreases args.len() - a,
    {
        assert(names[a as int] == args@[a as int]@);
        assert(names.subrange(0, a + 1) =~= names.subrange(0, a as int).push(names[a as int]));
        let ghost read = names.subrange(0, a as int);
        let ghost inserted = used@;
        used.insert(args[a].clone());
        proof {
            let grown = read.push(names[a as int]);
            assert(used@ == inserted.insert(names[a as int]));
            assert forall|name: Seq<char>|
                used@.contains(name) <==> before.contains(name) || grown.contains(name) by {
                assert(inserted.contains(name) <==> before.contains(name) || read.contains(name));
                assert(used@.contains(name) <==> inserted.contains(name) || name == names[a as int]);
                if read.contains(name) {
                    let j = choose|j: int| 0 <= j < read.len() && read[j] == name;
                    assert(grown[j] == name);
                }
                if name == names[a as int] {
                    assert(grown[a as int] == name);
                }
                if grown.contains(name) {
                    let j = choose|j: int| 0 <= j < grown.len() && grown[j] == name;
                    if j < a {
                        assert(read[j] == name);
                    }
                }
            }
        }
        a += 1;
    }
    assert(names.subrange(0, a as int) =~= names);
    assert forall|name: Seq<char>|
        used@.contains(name) <==> before.contains(name) || names.contains(name) by {
        assert(used@.contains(name) <==> before.contains(name) || names.subrange(
            0,
            a as int,
        ).contains(name));
    }
}

impl Scan {
    /// Takes instruction `k` of `block` into account.
    fn record(&mut self, block: &Block, k: usize)
        requires
            k < block.len(),
            old(self).holds(block.deep_view(), k as int),
        ensures
            final(self).holds(block.deep_view(), k + 1),
    {
        let ghost b = block.deep_view();
        let ghost before = *self;
        let instr = &block[k];
        assert(b[k as int] == instr@);
        match &instr.dest {
            Some(dest) => {
                let ghost name = dest@;
                assert(b[k as int].defines(name));
                if self.created.contains(dest.as_str()) && !self.used.contains(dest.as_str()) {
                    match self.prev_index.get(dest.as_str()) {
                        Some(p) => {
                            self.remove.insert(*p);
                        },
                        None => {},
                    }
                }
                self.created.insert(dest.clone());
                self.prev_index.insert(dest.clone(), k);
                self.used.remove(dest.as_str());
                proof {
                    assert forall|i: usize| #[trigger]
                        self.remove@.contains(i) <==> i < k + 1 && overwritten_unread(
                            b,
                            i as int,
                            k + 1,
                        ) by {
                        if i < k {
                            lemma_overwritten_step_write(b, i as int, k as int, name);
                            if last_write(b, k as int, name, i as int) {
                                assert(bound_before(b, k as int, name));
                                assert(before.prev_index@.contains_key(name));
                            }
                        } else if i == k {
                            assert(!before.remove@.contains(i));
                        }
                    }
                }
            },
            None => {
                proof {
                    assert forall|i: usize| #[trigger]
                        self.remove@.contains(i) <==> i < k + 1 && overwritten_unread(
                            b,
                            i as int,
                            k + 1,
                        ) by {
                        if i < k {
                            lemma_overwritten_step_no_write(b, i as int, k as int);
                        }
                    }
                }
            },
        }
        let ghost cleared = self.used@;
        mark_read(&mut self.used, &instr.args);
        proof {
            assert forall|name: Seq<char>| #[trigger]
                self.used@.contains(name) <==> pending_read(b, k + 1, name) by {
                lemma_pending_read_step(b, k as int, name);
                assert(cleared.contains(name) <==> before.used@.contains(name) && !b[k as int].defines(
                    name,
                ));
                assert(b[k as int].reads(name) <==> instr.args.deep_view().contains(name));
            }
            assert forall|name: Seq<char>|
                bound_before(b, k + 1, name) <==> bound_before(b, k as int, name) || b[k as int].defines(
                    name,
                ) by {
                lemma_bound_before_step(b, k as int, name);
            }
            assert forall|name: Seq<char>| #[trigger]
                self.prev_index@.contains_key(name) implies last_write(
                b,
                k + 1,
                name,
                self.prev_index@[name] as int,
            ) by {
                if !b[k as int].defines(name) {
                    assert(before.prev_index@.contains_key(name));
                }
            }
        }
    }
}

/// One pass of dead code elimination.
///
/// Keeps, in their order, the instructions without a destination and those
/// whose destination is still read at the end of the block and is not
/// written again before it is read; drops the others.
pub fn single_pass_dce(block: Block) -> (out: Block)
    ensures
        out.deep_view() == single_pass(block.deep_view()),
{
    let ghost b = block.deep_view();
    let ghost input = block@;
    let mut scan = Scan::new();
    let mut k: usize = 0;
    while k < block.len()
        invariant
            k <= block.len(),
            b == block.deep_view(),
            scan.holds(b, k as int),
        decreases block.len() - k,
    {
        scan.record(&block, k);
        k += 1;
    }
    let count: usize = block.len();
    let mut out: Vec<Instruction> = Vec::new();
    let mut index: usize = 0;
    assert(out.deep_view() =~= survivors(b, 0));
    for instr in it: block.into_iter()
        invariant
            it.seq() == input,
            index == it.index(),
            input.len() == count,
            b.len() == input.len(),
            forall|j: int| 0 <= j < input.len() ==> b[j] == input[j]@,
            scan.holds(b, b.len() as int),
            out.deep_view() == survivors(b, it.index() as int),
    {
        let ghost i = it.index() as int;
        let ghost kept = out.deep_view();
        assert(0 <= i < input.len());
        assert(instr == input[i]);
        let read = match &instr.dest {
            Some(dest) => scan.used.contains(dest.as_str()),
            None => true,
        };
        if read && !scan.remove.contains(&index) {
            out.push(instr);
            assert(out.deep_view() =~= kept.push(instr@));
        }
        index += 1;
    }
    out
}

/// Dead code elimination to a fixed point.
///
/// Repeats [`single_pass_dce`] until a pass drops nothing; the result is a
/// block that a further pass leaves as it is.
pub fn multi_pass_dce(block: Block) -> (out: Block)
    ensures
        out.deep_view() == multi_pass(block.deep_view()),
        single_pass(out.deep_view()) == out.deep_view(),
        out.len() <= block.len(),
{
    let ghost input = block.deep_view();
    let mut block = block;
    let mut instr_len: usize = 0;
    proof {
        lemma_single_pass_shrinks(input);
    }
    // Until a single pass removes nothing, keep looping.
    while instr_len != block.len()
        invariant
            multi_pass(input) == multi_pass(block.deep_view()),
            instr_len == block.len() ==> multi_pass(input) == block.deep_view(),
        decreases
            block.len() + (if instr_len != block.len() {
                1int
            } else {
                0int
            }),
    {
        let ghost before = block.deep_view();
        instr_len = block.len();
        block = single_pass_dce(block);
        proof {
            lemma_single_pass_shrinks(before);
        }
    }
    proof {
        lemma_multi_pass_is_fixed_point(input);
        lemma_multi_pass_shrinks(input);
    }
    block
}

} // verus!
