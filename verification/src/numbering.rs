//! The abstract model of local value numbering: the numbering tables, what
//! one instruction does to them, and what holds of the pass as a whole.

use crate::types::{bound_before, InstructionView, Operation};
use vstd::prelude::*;

verus! {

/// The mathematical content of an [`crate::lvn::LvnError`].
pub enum LvnErrorView {
    UseBeforeDefinition(Seq<char>),
    MalformedCopy,
}

/// The usual order on value numbers.
pub open spec fn ascending() -> spec_fn(nat, nat) -> bool {
    |a: nat, b: nat| a <= b
}

/// The identity of a computed value: the operation and the numbers of its
/// operands, followed by the literal if there is one. For a commutative
/// operation the list is in ascending order.
pub struct ExprKey {
    pub op: Operation,
    pub operands: Seq<nat>,
}

/// The key under which the value of `op` applied to operands numbered
/// `numbers`, with literal `value`, is recorded.
pub open spec fn expr_key(op: Operation, numbers: Seq<nat>, value: Option<u32>) -> ExprKey {
    let list = match value {
        Some(v) => numbers.push(v as nat),
        None => numbers,
    };
    ExprKey {
        op,
        operands: if op.commutative() {
            list.sort_by(ascending())
        } else {
            list
        },
    }
}

/// The first of `args` that is not in `bound`, if there is one.
pub open spec fn first_unbound(bound: Set<Seq<char>>, args: Seq<Seq<char>>) -> Option<Seq<char>>
    decreases args.len(),
{
    if args.len() == 0 {
        None
    } else if !bound.contains(args[0]) {
        Some(args[0])
    } else {
        first_unbound(bound, args.drop_first())
    }
}

/// The numbering tables at one point of the scan.
pub struct Numbering {
    /// The number of the value each bound name currently holds.
    pub number_of: Map<Seq<char>, nat>,
    /// For each number, the first name that held its value.
    pub holder: Seq<Seq<char>>,
    /// The number given to each expression seen so far.
    pub known: Map<ExprKey, nat>,
}

impl Numbering {
    /// The tables before the first instruction.
    pub open spec fn empty() -> Numbering {
        Numbering { number_of: Map::empty(), holder: Seq::empty(), known: Map::empty() }
    }

    /// Every recorded number has a holder.
    pub open spec fn wf(self) -> bool {
        &&& forall|name: Seq<char>| #[trigger]
            self.number_of.contains_key(name) ==> self.number_of[name] < self.holder.len()
        &&& forall|key: ExprKey| #[trigger]
            self.known.contains_key(key) ==> self.known[key] < self.holder.len()
    }

    /// The numbers of the values that `args` hold.
    pub open spec fn numbers(self, args: Seq<Seq<char>>) -> Seq<nat> {
        args.map_values(|a: Seq<char>| self.number_of[a])
    }

    /// Each of `args` replaced by the first holder of its value.
    pub open spec fn canonical(self, args: Seq<Seq<char>>) -> Seq<Seq<char>> {
        args.map_values(|a: Seq<char>| self.holder[self.number_of[a] as int])
    }

    /// `dest` now holds the value numbered `n`.
    pub open spec fn rebind(self, dest: Seq<char>, n: nat) -> Numbering {
        Numbering { number_of: self.number_of.insert(dest, n), ..self }
    }

    /// `dest` is the first holder of the new value identified by `key`.
    pub open spec fn allocate(self, dest: Seq<char>, key: ExprKey) -> Numbering {
        Numbering {
            number_of: self.number_of.insert(dest, self.holder.len()),
            holder: self.holder.push(dest),
            known: self.known.insert(key, self.holder.len()),
        }
    }

    /// What one instruction does to the tables, and what it is rewritten to.
    pub open spec fn step(self, i: InstructionView) -> Result<
        (Numbering, InstructionView),
        LvnErrorView,
    > {
        if i.op == Operation::Id {
            if i.args.len() == 0 {
                Err(LvnErrorView::MalformedCopy)
            } else if !self.number_of.contains_key(i.args[0]) {
                Err(LvnErrorView::UseBeforeDefinition(i.args[0]))
            } else if i.dest is None {
                Err(LvnErrorView::MalformedCopy)
            } else {
                let n = self.number_of[i.args[0]];
                Ok(
                    (
                        self.rebind(i.dest->0, n),
                        InstructionView { args: seq![self.holder[n as int]], ..i },
                    ),
                )
            }
        } else {
            match first_unbound(self.number_of.dom(), i.args) {
                Some(name) => Err(LvnErrorView::UseBeforeDefinition(name)),
                None => match i.dest {
                    None => Ok((self, InstructionView { args: self.canonical(i.args), ..i })),
                    Some(dest) => {
                        let key = expr_key(i.op, self.numbers(i.args), i.value);
                        if self.known.contains_key(key) {
                            let n = self.known[key];
                            Ok(
                                (
                                    self.rebind(dest, n),
                                    InstructionView {
                                        op: Operation::Id,
                                        args: seq![self.holder[n as int]],
                                        value: None,
                                        ..i
                                    },
                                ),
                            )
                        } else {
                            Ok(
                                (
                                    self.allocate(dest, key),
                                    InstructionView { args: self.canonical(i.args), ..i },
                                ),
                            )
                        }
                    },
                },
            }
        }
    }
}

/// The tables after the first `k` instructions of `block` and what those
/// instructions were rewritten to, or the error of the first instruction
/// among them that fails.
pub open spec fn scan(block: Seq<InstructionView>, k: int) -> Result<
    (Numbering, Seq<InstructionView>),
    LvnErrorView,
>
    decreases k,
{
    if k <= 0 {
        Ok((Numbering::empty(), Seq::empty()))
    } else {
        match scan(block, k - 1) {
            Err(e) => Err(e),
            Ok((tables, out)) => match tables.step(block[k - 1]) {
                Err(e) => Err(e),
                Ok((next, rewritten)) => Ok((next, out.push(rewritten))),
            },
        }
    }
}

/// The result of the pass on `block`.
pub open spec fn lvn(block: Seq<InstructionView>) -> Result<Seq<InstructionView>, LvnErrorView> {
    match scan(block, block.len() as int) {
        Ok((_, out)) => Ok(out),
        Err(e) => Err(e),
    }
}

/// Instruction `k` reads only variables bound before it: a copy has an
/// operand, bound before it, and a destination; any other instruction has
/// all its operands bound before it.
pub open spec fn reads_bound(block: Seq<InstructionView>, k: int) -> bool {
    let i = block[k];
    if i.op == Operation::Id {
        &&& i.args.len() > 0
        &&& bound_before(block, k, i.args[0])
        &&& i.dest is Some
    } else {
        forall|a: int| 0 <= a < i.args.len() ==> bound_before(block, k, #[trigger] i.args[a])
    }
}

/// Every instruction of `block` reads only variables bound before it.
pub open spec fn well_scoped(block: Seq<InstructionView>) -> bool {
    forall|k: int| 0 <= k < block.len() ==> reads_bound(block, k)
}

/// No argument is unbound exactly when all of them are bound, and an
/// unbound argument that is reported is one of the arguments.
pub proof fn lemma_first_unbound(bound: Set<Seq<char>>, args: Seq<Seq<char>>)
    ensures
        first_unbound(bound, args) is None <==> forall|a: int|
            0 <= a < args.len() ==> bound.contains(#[trigger] args[a]),
        first_unbound(bound, args) matches Some(name) ==> args.contains(name) && !bound.contains(
            name,
        ),
    decreases args.len(),
{
    if args.len() > 0 {
        let rest = args.drop_first();
        lemma_first_unbound(bound, rest);
        if bound.contains(args[0]) {
            if first_unbound(bound, rest) is None {
                assert forall|a: int| 0 <= a < args.len() implies bound.contains(
                    #[trigger] args[a],
                ) by {
                    if a > 0 {
                        assert(args[a] == rest[a - 1]);
                    }
                }
            } else {
                let name = first_unbound(bound, rest)->0;
                let a = choose|a: int| 0 <= a < rest.len() && rest[a] == name;
                assert(args[a + 1] == name);
            }
        } else {
            assert(args[0] == args[0]);
        }
    }
}

/// One step keeps the tables well formed, binds the destination of the
/// instruction and nothing else, and keeps the destination and the declared
/// type of the instruction.
pub proof fn lemma_step(tables: Numbering, i: InstructionView)
    requires
        tables.wf(),
    ensures
        tables.step(i) matches Ok((next, rewritten)) ==> {
            &&& next.wf()
            &&& next.number_of.dom() == match i.dest {
                Some(dest) => tables.number_of.dom().insert(dest),
                None => tables.number_of.dom(),
            }
            &&& rewritten.dest == i.dest
            &&& rewritten.ty == i.ty
            &&& rewritten.op == i.op || rewritten.op == Operation::Id
        },
        tables.step(i) is Ok <==> if i.op == Operation::Id {
            &&& i.args.len() > 0
            &&& tables.number_of.contains_key(i.args[0])
            &&& i.dest is Some
        } else {
            forall|a: int|
                0 <= a < i.args.len() ==> tables.number_of.contains_key(#[trigger] i.args[a])
        },
{
    lemma_first_unbound(tables.number_of.dom(), i.args);
    if tables.step(i) is Ok {
        let next = tables.step(i)->Ok_0.0;
        match i.dest {
            Some(dest) => {
                assert(next.number_of.dom() =~= tables.number_of.dom().insert(dest));
            },
            None => {},
        }
    }
}

/// A scan that succeeds leaves well-formed tables in which exactly the
/// names bound so far have a number, and rewrites each instruction to one
/// with the same destination and declared type.
pub proof fn lemma_scan(block: Seq<InstructionView>, k: int)
    requires
        0 <= k <= block.len(),
    ensures
        scan(block, k) matches Ok((tables, out)) ==> {
            &&& tables.wf()
            &&& out.len() == k
            &&& forall|name: Seq<char>|
                tables.number_of.contains_key(name) <==> bound_before(block, k, name)
            &&& forall|j: int|
                0 <= j < k ==> {
                    &&& (#[trigger] out[j]).dest == block[j].dest
                    &&& out[j].ty == block[j].ty
                    &&& out[j].op == block[j].op || out[j].op == Operation::Id
                }
        },
        scan(block, k) is Ok <==> forall|j: int| 0 <= j < k ==> reads_bound(block, j),
    decreases k,
{
    if k > 0 {
        lemma_scan(block, k - 1);
        match scan(block, k - 1) {
            Err(_) => {},
            Ok((tables, out)) => {
                let i = block[k - 1];
                lemma_step(tables, i);
                assert forall|name: Seq<char>|
                    bound_before(block, k, name) <==> bound_before(block, k - 1, name) || i.dest
                        == Some(name) by {
                    if bound_before(block, k, name) {
                        let j = choose|j: int|
                            0 <= j < k && j < block.len() && (#[trigger] block[j]).dest == Some(
                                name,
                            );
                        if j < k - 1 {
                            assert(bound_before(block, k - 1, name));
                        }
                    }
                    if bound_before(block, k - 1, name) {
                        let j = choose|j: int|
                            0 <= j < k - 1 && j < block.len() && (#[trigger] block[j]).dest
                                == Some(name);
                        assert(block[j].dest == Some(name));
                    }
                    if i.dest == Some(name) {
                        assert(block[k - 1].dest == Some(name));
                    }
                }
                assert(tables.step(i) is Ok <==> reads_bound(block, k - 1));
                match tables.step(i) {
                    Err(_) => {},
                    Ok((next, rewritten)) => {
                        assert forall|name: Seq<char>|
                            next.number_of.contains_key(name) <==> bound_before(
                                block,
                                k,
                                name,
                            ) by {
                            assert(next.number_of.dom().contains(name)
                                <==> next.number_of.contains_key(name));
                        }
                    },
                }
            },
        }
    }
}

/// The pass succeeds exactly on the blocks in which every instruction reads
/// only variables bound before it.
pub proof fn lemma_lvn_succeeds_iff_well_scoped(block: Seq<InstructionView>)
    ensures
        lvn(block) is Ok <==> well_scoped(block),
{
    lemma_scan(block, block.len() as int);
}

/// The pass neither adds nor removes instructions, and leaves to each
/// instruction its destination and its declared type; the operation it
/// either keeps or turns into a copy.
pub proof fn lemma_lvn_keeps_shape(block: Seq<InstructionView>)
    ensures
        lvn(block) matches Ok(out) ==> {
            &&& out.len() == block.len()
            &&& forall|j: int|
                0 <= j < block.len() ==> {
                    &&& (#[trigger] out[j]).dest == block[j].dest
                    &&& out[j].ty == block[j].ty
                    &&& out[j].op == block[j].op || out[j].op == Operation::Id
                }
        },
{
    lemma_scan(block, block.len() as int);
}

/// On a block of valid instructions that reads no variable before it is
/// bound, the pass succeeds and gives a block of the same length.
pub proof fn lemma_lvn_preserves_length(block: Seq<InstructionView>)
    requires
        forall|k: int| 0 <= k < block.len() ==> (#[trigger] block[k]).is_valid(),
        forall|k: int, a: int|
            0 <= k < block.len() && 0 <= a < block[k].args.len() ==> bound_before(
                block,
                k,
                #[trigger] block[k].args[a],
            ),
    ensures
        lvn(block) matches Ok(out) && out.len() == block.len(),
{
    assert forall|k: int| 0 <= k < block.len() implies reads_bound(block, k) by {
        assert(block[k].is_valid());
        if block[k].op == Operation::Id {
            assert(bound_before(block, k, block[k].args[0]));
        }
    }
    lemma_lvn_succeeds_iff_well_scoped(block);
    lemma_lvn_keeps_shape(block);
}

} // verus!
