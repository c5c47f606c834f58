//! What a block computes, and that the passes keep it.
//!
//! A block is run on a machine that holds the values of the variables and
//! records what the instructions without a destination see. On a block of
//! valid instructions that writes no variable twice, local value numbering
//! gives a block that leaves the machine in the same state. If the block
//! also reads no variable before it is written, dead code elimination gives
//! a block whose instructions without a destination see the same values,
//! and so does the pipeline of the two passes.

use crate::liveness::{
    kept_positions, lemma_survivors_in_order, multi_pass, overwritten_unread, pending_read,
    single_pass, survives, survivors,
};
use crate::numbering::{
    ascending, expr_key, lvn, reads_bound, scan, well_scoped, ExprKey, Numbering,
};
use crate::types::{bound_before, lemma_bound_before_step, InstructionView, Operation};
use vstd::prelude::*;
use vstd::relations::{sorted_by, total_ordering};

verus! {

/// What an instruction without a destination saw.
pub struct Event {
    pub op: Operation,
    pub values: Seq<int>,
}

/// The values of the variables, and what was seen so far.
pub struct Machine {
    pub env: Map<Seq<char>, int>,
    pub trace: Seq<Event>,
}

/// The values that `args` hold.
pub open spec fn values_of(env: Map<Seq<char>, int>, args: Seq<Seq<char>>) -> Seq<int> {
    args.map_values(|a: Seq<char>| env[a])
}

/// The value that a valid instruction with a destination computes.
pub open spec fn computed(i: InstructionView, env: Map<Seq<char>, int>) -> int {
    match i.op {
        Operation::Const => i.value->0 as int,
        Operation::Add => env[i.args[0]] + env[i.args[1]],
        Operation::Mul => env[i.args[0]] * env[i.args[1]],
        _ => env[i.args[0]],
    }
}

/// The machine after one instruction: an instruction with a destination
/// writes what it computes; any other is seen with the values of its
/// operands.
pub open spec fn execute(m: Machine, i: InstructionView) -> Machine {
    match i.dest {
        Some(dest) => Machine { env: m.env.insert(dest, computed(i, m.env)), ..m },
        None => Machine {
            trace: m.trace.push(Event { op: i.op, values: values_of(m.env, i.args) }),
            ..m
        },
    }
}

/// The machine after the first `k` instructions of `block`.
pub open spec fn run(block: Seq<InstructionView>, k: int) -> Machine
    decreases k,
{
    if k <= 0 {
        Machine { env: Map::empty(), trace: Seq::empty() }
    } else {
        execute(run(block, k - 1), block[k - 1])
    }
}

/// No variable is written by two instructions of `block`.
pub open spec fn single_assignment(block: Seq<InstructionView>) -> bool {
    forall|i: int, j: int|
        0 <= i < j < block.len() && (#[trigger] block[i]).dest is Some ==> block[i].dest
            != (#[trigger] block[j]).dest
}

/// Every instruction of `block` is valid.
pub open spec fn all_valid(block: Seq<InstructionView>) -> bool {
    forall|k: int| 0 <= k < block.len() ==> (#[trigger] block[k]).is_valid()
}

/// Running a prefix does not depend on what follows it.
pub proof fn lemma_run_prefix(a: Seq<InstructionView>, b: Seq<InstructionView>, k: int)
    requires
        0 <= k <= a.len(),
        k <= b.len(),
        forall|j: int| 0 <= j < k ==> a[j] == b[j],
    ensures
        run(a, k) == run(b, k),
    decreases k,
{
    if k > 0 {
        lemma_run_prefix(a, b, k - 1);
    }
}

/// Two numbers in ascending order are the same two numbers.
pub proof fn lemma_sort_pair(x: nat, y: nat)
    ensures
        ({
            let s = seq![x, y].sort_by(ascending());
            s == seq![x, y] || s == seq![y, x]
        }),
{
    broadcast use vstd::seq_lib::group_to_multiset_ensures;

    let pair = seq![x, y];
    let s = pair.sort_by(ascending());
    assert(total_ordering(ascending()));
    pair.lemma_sort_by_ensures(ascending());
    vstd::seq_lib::to_multiset_len(pair);
    vstd::seq_lib::to_multiset_len(s);
    assert(s.len() == 2);
    assert(sorted_by(s, ascending()));
    assert(ascending()(s[0], s[1]));
    assert(pair[0] == x && pair[1] == y);
    assert(pair.contains(x) && pair.contains(y));
    assert(s.to_multiset().count(x) > 0);
    assert(s.to_multiset().count(y) > 0);
    assert(s.contains(x) && s.contains(y));
    assert forall|z: nat| s.contains(z) implies z == x || z == y by {
        if z != x && z != y {
            assert(!pair.contains(z));
        }
    }
    assert(s.contains(s[0]) && s.contains(s[1]));
    if x == y {
        assert(s =~= seq![x, y]);
    } else {
        let ix = choose|i: int| 0 <= i < s.len() && s[i] == x;
        let iy = choose|i: int| 0 <= i < s.len() && s[i] == y;
        assert(ix != iy);
        if ix == 0 {
            assert(s =~= seq![x, y]);
        } else {
            assert(s =~= seq![y, x]);
        }
    }
}

/// The value that the number `n` stands for: the value of its first holder.
pub open spec fn value_numbered(tables: Numbering, env: Map<Seq<char>, int>, n: nat) -> int {
    env[tables.holder[n as int]]
}

/// The value of the expression that `key` identifies.
pub open spec fn key_value(tables: Numbering, env: Map<Seq<char>, int>, key: ExprKey) -> int {
    match key.op {
        Operation::Const => key.operands[0] as int,
        Operation::Add => value_numbered(tables, env, key.operands[0]) + value_numbered(
            tables,
            env,
            key.operands[1],
        ),
        Operation::Mul => value_numbered(tables, env, key.operands[0]) * value_numbered(
            tables,
            env,
            key.operands[1],
        ),
        _ => 0,
    }
}

/// The key is that of a literal, or of a sum or product of two numbered
/// values.
pub open spec fn key_shaped(tables: Numbering, key: ExprKey) -> bool {
    match key.op {
        Operation::Const => key.operands.len() == 1,
        Operation::Add | Operation::Mul => {
            &&& key.operands.len() == 2
            &&& key.operands[0] < tables.holder.len()
            &&& key.operands[1] < tables.holder.len()
        },
        _ => false,
    }
}

/// The tables tell the truth about the machine: the numbered names are the
/// written ones, every name holds the value of the first holder of its
/// number, and every recorded expression has the value of its number.
pub open spec fn agrees(tables: Numbering, m: Machine) -> bool {
    &&& tables.wf()
    &&& forall|x: Seq<char>| tables.number_of.contains_key(x) <==> m.env.contains_key(x)
    &&& forall|n: int|
        0 <= n < tables.holder.len() ==> tables.number_of.contains_key(#[trigger] tables.holder[n])
    &&& forall|x: Seq<char>| #[trigger]
        tables.number_of.contains_key(x) ==> m.env[x] == value_numbered(
            tables,
            m.env,
            tables.number_of[x],
        )
    &&& forall|key: ExprKey| #[trigger]
        tables.known.contains_key(key) ==> key_shaped(tables, key) && key_value(
            tables,
            m.env,
            key,
        ) == value_numbered(tables, m.env, tables.known[key])
}

/// Renaming operands to the first holders of their values does not change
/// their values.
proof fn lemma_canonical_values(tables: Numbering, m: Machine, args: Seq<Seq<char>>)
    requires
        agrees(tables, m),
        forall|a: int| 0 <= a < args.len() ==> tables.number_of.contains_key(#[trigger] args[a]),
    ensures
        values_of(m.env, tables.canonical(args)) == values_of(m.env, args),
        forall|a: int|
            0 <= a < args.len() ==> m.env[#[trigger] tables.canonical(args)[a]] == m.env[args[a]],
{
    assert forall|a: int| 0 <= a < args.len() implies m.env[#[trigger] tables.canonical(args)[a]]
        == m.env[args[a]] by {
        assert(tables.number_of.contains_key(args[a]));
    }
    assert(values_of(m.env, tables.canonical(args)) =~= values_of(m.env, args));
}

/// Writing a value that already has a number to a fresh name keeps the
/// tables true, with the name bound to that number.
proof fn lemma_rebind_agrees(tables: Numbering, m: Machine, dest: Seq<char>, n: nat)
    requires
        agrees(tables, m),
        !tables.number_of.contains_key(dest),
        n < tables.holder.len(),
    ensures
        agrees(
            tables.rebind(dest, n),
            Machine { env: m.env.insert(dest, value_numbered(tables, m.env, n)), ..m },
        ),
{
    let next = tables.rebind(dest, n);
    let env = m.env.insert(dest, value_numbered(tables, m.env, n));
    assert forall|k: nat| k < tables.holder.len() implies value_numbered(next, env, k)
        == value_numbered(tables, m.env, k) by {
        assert(tables.number_of.contains_key(tables.holder[k as int]));
    }
    assert forall|x: Seq<char>| #[trigger] next.number_of.contains_key(x) implies env[x]
        == value_numbered(next, env, next.number_of[x]) by {
        if x != dest {
            assert(tables.number_of.contains_key(x));
        }
    }
    assert forall|key: ExprKey| #[trigger] next.known.contains_key(key) implies key_shaped(
        next,
        key,
    ) && key_value(next, env, key) == value_numbered(next, env, next.known[key]) by {
        assert(tables.known.contains_key(key));
    }
}

/// Writing a value to a fresh name and recording it under a new key keeps
/// the tables true, with the name the first holder of a new number.
proof fn lemma_allocate_agrees(tables: Numbering, m: Machine, dest: Seq<char>, key: ExprKey)
    requires
        agrees(tables, m),
        !tables.number_of.contains_key(dest),
        !tables.known.contains_key(key),
        key_shaped(tables, key),
    ensures
        agrees(
            tables.allocate(dest, key),
            Machine { env: m.env.insert(dest, key_value(tables, m.env, key)), ..m },
        ),
{
    let next = tables.allocate(dest, key);
    let env = m.env.insert(dest, key_value(tables, m.env, key));
    assert forall|k: nat| k < tables.holder.len() implies value_numbered(next, env, k)
        == value_numbered(tables, m.env, k) by {
        assert(tables.number_of.contains_key(tables.holder[k as int]));
        assert(next.holder[k as int] == tables.holder[k as int]);
    }
    assert(value_numbered(next, env, tables.holder.len()) == env[dest]);
    assert forall|n: int| 0 <= n < next.holder.len() implies next.number_of.contains_key(
        #[trigger] next.holder[n],
    ) by {
        if n < tables.holder.len() {
            assert(tables.number_of.contains_key(tables.holder[n]));
        }
    }
    assert forall|x: Seq<char>| #[trigger] next.number_of.contains_key(x) implies env[x]
        == value_numbered(next, env, next.number_of[x]) by {
        if x != dest {
            assert(tables.number_of.contains_key(x));
        }
    }
    assert forall|other: ExprKey| #[trigger] next.known.contains_key(other) implies key_shaped(
        next,
        other,
    ) && key_value(next, env, other) == value_numbered(next, env, next.known[other]) by {
        if other != key {
            assert(tables.known.contains_key(other));
        }
        assert(key_shaped(tables, other));
        assert(key_value(next, env, other) == key_value(tables, m.env, other));
    }
    assert(next.wf()) by {
        assert forall|name: Seq<char>| #[trigger] next.number_of.contains_key(name) implies next.number_of[name]
            < next.holder.len() by {
            if name != dest {
                assert(tables.number_of.contains_key(name));
            }
        }
        assert forall|other: ExprKey| #[trigger] next.known.contains_key(other) implies next.known[other]
            < next.holder.len() by {
            if other != key {
                assert(tables.known.contains_key(other));
            }
        }
    }
}

/// The key of a valid literal, sum or product identifies the value that the
/// instruction computes.
proof fn lemma_key_of_instruction(tables: Numbering, m: Machine, i: InstructionView)
    requires
        agrees(tables, m),
        i.is_valid(),
        i.op == Operation::Const || i.op == Operation::Add || i.op == Operation::Mul,
        forall|a: int| 0 <= a < i.args.len() ==> tables.number_of.contains_key(#[trigger] i.args[a]),
    ensures
        key_shaped(tables, expr_key(i.op, tables.numbers(i.args), i.value)),
        key_value(tables, m.env, expr_key(i.op, tables.numbers(i.args), i.value)) == computed(
            i,
            m.env,
        ),
{
    let key = expr_key(i.op, tables.numbers(i.args), i.value);
    if i.op == Operation::Const {
        assert(tables.numbers(i.args) =~= Seq::<nat>::empty());
        assert(key.operands =~= seq![i.value->0 as nat]);
    } else {
        let a = i.args[0];
        let b = i.args[1];
        let x = tables.number_of[a];
        let y = tables.number_of[b];
        assert(tables.number_of.contains_key(a) && tables.number_of.contains_key(b));
        assert(tables.numbers(i.args) =~= seq![x, y]);
        lemma_sort_pair(x, y);
        let vx = value_numbered(tables, m.env, x);
        let vy = value_numbered(tables, m.env, y);
        assert(m.env[a] == vx && m.env[b] == vy);
        assert(vx * vy == vy * vx) by (nonlinear_arith);
        if key.operands == seq![x, y] {
            assert(key.operands[0] == x && key.operands[1] == y);
        } else {
            assert(key.operands == seq![y, x]);
            assert(key.operands[0] == y && key.operands[1] == x);
        }
    }
}

/// One step of the pass rewrites a valid instruction that writes a fresh
/// name to one that does the same to the machine, and keeps the tables true.
proof fn lemma_step_keeps_meaning(tables: Numbering, m: Machine, i: InstructionView)
    requires
        agrees(tables, m),
        i.is_valid(),
        i.dest matches Some(dest) ==> !tables.number_of.contains_key(dest),
        tables.step(i) is Ok,
    ensures
        execute(m, tables.step(i)->Ok_0.1) == execute(m, i),
        agrees(tables.step(i)->Ok_0.0, execute(m, i)),
{
    let next = tables.step(i)->Ok_0.0;
    let rewritten = tables.step(i)->Ok_0.1;
    crate::numbering::lemma_step(tables, i);
    if i.op == Operation::Id {
        let n = tables.number_of[i.args[0]];
        assert(tables.number_of.contains_key(i.args[0]));
        lemma_rebind_agrees(tables, m, i.dest->0, n);
        assert(rewritten.args[0] == tables.holder[n as int]);
    } else {
        crate::numbering::lemma_first_unbound(tables.number_of.dom(), i.args);
        assert forall|a: int| 0 <= a < i.args.len() implies tables.number_of.contains_key(
            #[trigger] i.args[a],
        ) by {
            assert(tables.number_of.dom().contains(i.args[a]));
        }
        match i.dest {
            None => {
                lemma_canonical_values(tables, m, i.args);
            },
            Some(dest) => {
                let key = expr_key(i.op, tables.numbers(i.args), i.value);
                lemma_key_of_instruction(tables, m, i);
                if tables.known.contains_key(key) {
                    let n = tables.known[key];
                    lemma_rebind_agrees(tables, m, dest, n);
                    assert(rewritten.args[0] == tables.holder[n as int]);
                } else {
                    lemma_allocate_agrees(tables, m, dest, key);
                    lemma_canonical_values(tables, m, i.args);
                    if i.op != Operation::Const {
                        assert(m.env[rewritten.args[0]] == m.env[i.args[0]]);
                        assert(m.env[rewritten.args[1]] == m.env[i.args[1]]);
                    }
                }
            },
        }
    }
}

/// After any number of instructions of a block of valid instructions that
/// writes no variable twice, the tables tell the truth about the machine,
/// and the rewritten instructions have left the machine as the instructions
/// themselves have.
pub proof fn lemma_scan_keeps_meaning(block: Seq<InstructionView>, k: int)
    requires
        0 <= k <= block.len(),
        all_valid(block),
        single_assignment(block),
        scan(block, k) is Ok,
    ensures
        agrees(scan(block, k)->Ok_0.0, run(block, k)),
        run(scan(block, k)->Ok_0.1, k) == run(block, k),
    decreases k,
{
    if k > 0 {
        let i = block[k - 1];
        let tables = scan(block, k - 1)->Ok_0.0;
        let out = scan(block, k - 1)->Ok_0.1;
        let rewritten = tables.step(i)->Ok_0.1;
        lemma_scan_keeps_meaning(block, k - 1);
        crate::numbering::lemma_scan(block, k - 1);
        assert(i.is_valid());
        if i.dest is Some {
            let dest = i.dest->0;
            if bound_before(block, k - 1, dest) {
                let j = choose|j: int|
                    0 <= j < k - 1 && j < block.len() && (#[trigger] block[j]).dest == Some(dest);
                assert(block[j].dest == block[k - 1].dest);
                assert(false);
            }
            assert(!tables.number_of.contains_key(dest));
        }
        lemma_step_keeps_meaning(tables, run(block, k - 1), i);
        lemma_run_prefix(out.push(rewritten), out, k - 1);
        assert(out.push(rewritten)[k - 1] == rewritten);
    } else {
        let empty = Numbering::empty();
        assert(empty.wf());
        assert(agrees(empty, run(block, k)));
    }
}

/// On a block of valid instructions that writes no variable twice, the
/// block that the pass gives computes what the block itself computes: the
/// same values for all variables, and the same sightings by the
/// instructions without a destination.
pub proof fn lemma_lvn_keeps_meaning(block: Seq<InstructionView>)
    requires
        all_valid(block),
        single_assignment(block),
    ensures
        lvn(block) matches Ok(out) ==> run(out, out.len() as int) == run(
            block,
            block.len() as int,
        ),
{
    if lvn(block) is Ok {
        lemma_scan_keeps_meaning(block, block.len() as int);
        crate::numbering::lemma_scan(block, block.len() as int);
    }
}

/// Some instruction of `block` reads `name`.
pub open spec fn is_read(block: Seq<InstructionView>, name: Seq<char>) -> bool {
    exists|r: int| 0 <= r < block.len() && (#[trigger] block[r]).reads(name)
}

/// A block of valid instructions that writes no variable twice and reads no
/// variable before it is written.
pub open spec fn orderly(block: Seq<InstructionView>) -> bool {
    &&& all_valid(block)
    &&& single_assignment(block)
    &&& well_scoped(block)
}

/// In an orderly block, what an instruction reads was written before it.
proof fn lemma_read_is_bound(block: Seq<InstructionView>, r: int, name: Seq<char>)
    requires
        orderly(block),
        0 <= r < block.len(),
        block[r].reads(name),
    ensures
        bound_before(block, r, name),
{
    let i = block[r];
    assert(i.is_valid());
    assert(reads_bound(block, r));
    let a = choose|a: int| 0 <= a < i.args.len() && i.args[a] == name;
    assert(i.args[a] == name);
}

/// In an orderly block, a single pass of dead code elimination keeps
/// exactly the instructions without a destination and those whose
/// destination is read.
pub proof fn lemma_survives_iff_read(block: Seq<InstructionView>, i: int)
    requires
        orderly(block),
        0 <= i < block.len(),
    ensures
        survives(block, i) <==> (block[i].dest matches Some(dest) ==> is_read(block, dest)),
{
    let n = block.len() as int;
    if block[i].dest is Some {
        let dest = block[i].dest->0;
        if overwritten_unread(block, i, n) {
            let j = choose|j: int|
                i < j < n && j < block.len() && (#[trigger] block[j]).defines(dest) && forall|
                    r: int,
                |
                    i <= r < j ==> !(#[trigger] block[r]).reads(dest);
            assert(block[i].dest == block[j].dest);
            assert(false);
        }
        if pending_read(block, n, dest) {
            let r = choose|r: int|
                0 <= r < n && r < block.len() && (#[trigger] block[r]).reads(dest) && forall|
                    j: int,
                |
                    r < j < n && j < block.len() ==> !(#[trigger] block[j]).defines(dest);
            assert(block[r].reads(dest));
        }
        if is_read(block, dest) {
            let r = choose|r: int| 0 <= r < block.len() && (#[trigger] block[r]).reads(dest);
            lemma_read_is_bound(block, r, dest);
            let w = choose|w: int|
                0 <= w < r && w < block.len() && (#[trigger] block[w]).dest == Some(dest);
            assert forall|j: int| r < j < n && j < block.len() implies !(#[trigger] block[j]).defines(
                dest,
            ) by {
                if block[j].defines(dest) {
                    assert(block[w].dest == block[j].dest);
                }
            }
            assert(block[r].reads(dest));
            assert(pending_read(block, n, dest));
        }
    }
}

/// Two machines have seen the same, and hold the same values for the
/// variables that `block` reads and writes before position `k`.
pub open spec fn same_sight(block: Seq<InstructionView>, k: int, m: Machine, kept: Machine) -> bool {
    &&& kept.trace == m.trace
    &&& forall|x: Seq<char>|
        is_read(block, x) && #[trigger] bound_before(block, k, x) ==> kept.env[x] == m.env[x]
}

/// In an orderly block, the instructions that a single pass keeps among the
/// first `k` leave the machine with the same sightings as all of the first
/// `k`, and with the same values for the variables that the block reads.
pub proof fn lemma_survivors_keep_sight(block: Seq<InstructionView>, k: int)
    requires
        orderly(block),
        0 <= k <= block.len(),
    ensures
        same_sight(
            block,
            k,
            run(block, k),
            run(survivors(block, k), survivors(block, k).len() as int),
        ),
    decreases k,
{
    if k > 0 {
        lemma_survivors_keep_sight(block, k - 1);
        let i = block[k - 1];
        let before = survivors(block, k - 1);
        let m = run(block, k - 1);
        let kept = run(before, before.len() as int);
        assert(i.is_valid());
        assert forall|a: int| 0 <= a < i.args.len() implies kept.env[#[trigger] i.args[a]]
            == m.env[i.args[a]] by {
            assert(i.reads(i.args[a]));
            lemma_read_is_bound(block, k - 1, i.args[a]);
            assert(is_read(block, i.args[a]));
        }
        assert(values_of(kept.env, i.args) =~= values_of(m.env, i.args));
        assert(i.dest is Some ==> computed(i, kept.env) == computed(i, m.env));
        lemma_survives_iff_read(block, k - 1);
        if survives(block, k - 1) {
            let after = before.push(i);
            lemma_run_prefix(after, before, before.len() as int);
            assert(after[after.len() - 1] == i);
            assert(run(after, after.len() as int) == execute(kept, i));
        }
        let m2 = run(block, k);
        let kept2 = run(survivors(block, k), survivors(block, k).len() as int);
        assert forall|x: Seq<char>| is_read(block, x) && #[trigger] bound_before(
            block,
            k,
            x,
        ) implies kept2.env[x] == m2.env[x] by {
            lemma_bound_before_step(block, k - 1, x);
            if i.dest != Some(x) {
                assert(bound_before(block, k - 1, x));
            }
        }
    }
}

/// What a single pass of dead code elimination makes of an orderly block is
/// orderly again.
pub proof fn lemma_single_pass_orderly(block: Seq<InstructionView>)
    requires
        orderly(block),
    ensures
        orderly(single_pass(block)),
{
    let n = block.len() as int;
    let kept = single_pass(block);
    let at = kept_positions(block, n);
    lemma_survivors_in_order(block, n);
    assert forall|p: int| 0 <= p < kept.len() implies #[trigger] kept[p] == block[at[p]] && 0
        <= at[p] < n by {
        assert(0 <= kept_positions(block, n)[p] < n);
    }
    assert forall|p: int| 0 <= p < kept.len() implies (#[trigger] kept[p]).is_valid() by {
        assert(block[at[p]].is_valid());
    }
    assert forall|p: int, q: int|
        0 <= p < q < kept.len() && (#[trigger] kept[p]).dest is Some implies kept[p].dest
        != (#[trigger] kept[q]).dest by {
        assert(at[p] < at[q]);
        assert(block[at[p]].dest != block[at[q]].dest);
    }
    assert forall|p: int| 0 <= p < kept.len() implies reads_bound(kept, p) by {
        let i = kept[p];
        assert(i == block[at[p]]);
        assert(i.is_valid());
        assert(reads_bound(block, at[p]));
        assert forall|a: int| 0 <= a < i.args.len() implies bound_before(
            kept,
            p,
            #[trigger] i.args[a],
        ) by {
            let name = i.args[a];
            assert(i.reads(name));
            lemma_read_is_bound(block, at[p], name);
            let w = choose|w: int|
                0 <= w < at[p] && w < block.len() && (#[trigger] block[w]).dest == Some(name);
            assert(block[at[p]].reads(name));
            assert(is_read(block, name));
            lemma_survives_iff_read(block, w);
            assert(at.contains(w));
            let q = choose|q: int| 0 <= q < at.len() && at[q] == w;
            if q >= p {
                if q > p {
                    assert(at[p] < at[q]);
                }
                assert(false);
            }
            assert(kept[q].dest == Some(name));
        }
        if i.op == Operation::Id {
            assert(bound_before(kept, p, i.args[0]));
        }
    }
}

/// A single pass of dead code elimination on an orderly block keeps what
/// the instructions without a destination see.
pub proof fn lemma_single_pass_keeps_sight(block: Seq<InstructionView>)
    requires
        orderly(block),
    ensures
        run(single_pass(block), single_pass(block).len() as int).trace == run(
            block,
            block.len() as int,
        ).trace,
{
    lemma_survivors_keep_sight(block, block.len() as int);
}

/// Dead code elimination to a fixed point on an orderly block keeps what
/// the instructions without a destination see.
pub proof fn lemma_multi_pass_keeps_sight(block: Seq<InstructionView>)
    requires
        orderly(block),
    ensures
        orderly(multi_pass(block)),
        run(multi_pass(block), multi_pass(block).len() as int).trace == run(
            block,
            block.len() as int,
        ).trace,
    decreases block.len(),
{
    let next = single_pass(block);
    lemma_single_pass_orderly(block);
    lemma_single_pass_keeps_sight(block);
    if next.len() < block.len() {
        lemma_multi_pass_keeps_sight(next);
    }
}

/// One step of the pass rewrites a valid instruction to a valid one whose
/// operands are first holders of numbered values.
proof fn lemma_step_shape(tables: Numbering, i: InstructionView)
    requires
        tables.wf(),
        i.is_valid(),
        tables.step(i) is Ok,
    ensures
        tables.step(i)->Ok_0.1.is_valid(),
        tables.step(i)->Ok_0.1.dest == i.dest,
        forall|a: int|
            0 <= a < tables.step(i)->Ok_0.1.args.len() ==> exists|n: int|
                0 <= n < tables.holder.len() && #[trigger] tables.step(i)->Ok_0.1.args[a]
                    == tables.holder[n],
{
    let rewritten = tables.step(i)->Ok_0.1;
    crate::numbering::lemma_step(tables, i);
    crate::numbering::lemma_first_unbound(tables.number_of.dom(), i.args);
    assert forall|a: int| 0 <= a < rewritten.args.len() implies exists|n: int|
        0 <= n < tables.holder.len() && #[trigger] rewritten.args[a] == tables.holder[n] by {
        if i.op == Operation::Id {
            let n = tables.number_of[i.args[0]];
            assert(tables.number_of.contains_key(i.args[0]));
            assert(rewritten.args[a] == tables.holder[n as int]);
        } else if i.dest is Some && tables.known.contains_key(
            expr_key(i.op, tables.numbers(i.args), i.value),
        ) {
            let n = tables.known[expr_key(i.op, tables.numbers(i.args), i.value)];
            assert(rewritten.args[a] == tables.holder[n as int]);
        } else {
            assert(tables.number_of.dom().contains(i.args[a]));
            let n = tables.number_of[i.args[a]];
            assert(tables.number_of.contains_key(i.args[a]));
            assert(rewritten.args[a] == tables.holder[n as int]);
        }
    }
}

/// What the pass gives at position `k` is what the step at position `k`
/// rewrote the instruction to.
proof fn lemma_scan_output(block: Seq<InstructionView>, n: int, k: int)
    requires
        0 <= k < n <= block.len(),
        scan(block, n) is Ok,
    ensures
        scan(block, k) is Ok,
        scan(block, k)->Ok_0.0.step(block[k]) is Ok,
        scan(block, n)->Ok_0.1.len() == n,
        scan(block, n)->Ok_0.1[k] == scan(block, k)->Ok_0.0.step(block[k])->Ok_0.1,
    decreases n,
{
    crate::numbering::lemma_scan(block, n - 1);
    crate::numbering::lemma_scan(block, n);
    if k < n - 1 {
        lemma_scan_output(block, n - 1, k);
    }
}

/// What the pass makes of an orderly block is orderly again.
pub proof fn lemma_lvn_orderly(block: Seq<InstructionView>)
    requires
        orderly(block),
    ensures
        lvn(block) matches Ok(out) ==> orderly(out),
{
    if lvn(block) is Ok {
        let n = block.len() as int;
        let out = lvn(block)->Ok_0;
        crate::numbering::lemma_scan(block, n);
        assert forall|k: int| 0 <= k < out.len() implies (#[trigger] out[k]).is_valid()
            && reads_bound(out, k) by {
            lemma_scan_output(block, n, k);
            let tables = scan(block, k)->Ok_0.0;
            lemma_scan_keeps_meaning(block, k);
            crate::numbering::lemma_scan(block, k);
            assert(block[k].is_valid());
            lemma_step_shape(tables, block[k]);
            assert forall|a: int| 0 <= a < out[k].args.len() implies bound_before(
                out,
                k,
                #[trigger] out[k].args[a],
            ) by {
                let h = choose|h: int|
                    0 <= h < tables.holder.len() && out[k].args[a] == tables.holder[h];
                assert(tables.number_of.contains_key(tables.holder[h]));
                assert(bound_before(block, k, tables.holder[h]));
                let w = choose|w: int|
                    0 <= w < k && w < block.len() && (#[trigger] block[w]).dest == Some(
                        tables.holder[h],
                    );
                assert(out[w].dest == block[w].dest);
            }
            if out[k].op == Operation::Id {
                assert(bound_before(out, k, out[k].args[0]));
            }
        }
        assert forall|i: int, j: int|
            0 <= i < j < out.len() && (#[trigger] out[i]).dest is Some implies out[i].dest
            != (#[trigger] out[j]).dest by {
            assert(out[i].dest == block[i].dest);
            assert(out[j].dest == block[j].dest);
        }
    }
}

/// The usual pipeline keeps what is seen: on an orderly block, local value
/// numbering followed by dead code elimination to a fixed point gives a
/// block whose instructions without a destination see what those of the
/// block itself see.
pub proof fn lemma_pipeline_keeps_sight(block: Seq<InstructionView>)
    requires
        orderly(block),
    ensures
        lvn(block) matches Ok(out) && run(
            multi_pass(out),
            multi_pass(out).len() as int,
        ).trace == run(block, block.len() as int).trace,
{
    crate::numbering::lemma_lvn_succeeds_iff_well_scoped(block);
    let out = lvn(block)->Ok_0;
    lemma_lvn_keeps_meaning(block);
    lemma_lvn_orderly(block);
    lemma_multi_pass_keeps_sight(out);
}

} // verus!
