//! The instruction data model and its well-formedness predicate.
//!
//! Every executable type has a mathematical view in which names are
//! sequences of characters and argument lists are sequences of names; the
//! contracts of the optimisation passes are stated over those views.

use vstd::prelude::*;

verus! {

/// A variable in the program.
pub type Var = String;

/// The arguments to an operation.
pub type Args = Vec<Var>;

/// A branch-free, ordered sequence of instructions.
pub type Block = Vec<Instruction>;

/// The closed set of operations.
#[derive(Debug, Hash, Clone, Copy, PartialEq, Eq, Structural)]
pub enum Operation {
    Const,
    Add,
    Mul,
    Id,
    Print,
    Br,
    Jmp,
}

impl Operation {
    /// How many operands an instruction with this operation carries.
    pub open spec fn arity(self) -> nat {
        match self {
            Operation::Const | Operation::Jmp => 0,
            Operation::Id | Operation::Print => 1,
            Operation::Add | Operation::Mul => 2,
            Operation::Br => 3,
        }
    }

    /// Whether an instruction with this operation carries a literal value.
    pub open spec fn takes_literal(self) -> bool {
        self == Operation::Const
    }

    /// Whether an instruction with this operation binds a destination.
    pub open spec fn binds(self) -> bool {
        match self {
            Operation::Const | Operation::Add | Operation::Mul | Operation::Id => true,
            Operation::Print | Operation::Br | Operation::Jmp => false,
        }
    }

    /// Whether the order of the operands is irrelevant to the result.
    pub open spec fn commutative(self) -> bool {
        self == Operation::Add || self == Operation::Mul
    }

    /// Executable form of [`Operation::commutative`].
    pub fn is_commutative(&self) -> (r: bool)
        ensures
            r == self.commutative(),
    {
        match self {
            Operation::Add | Operation::Mul => true,
            _ => false,
        }
    }
}

impl Default for Operation {
    fn default() -> (r: Self)
        ensures
            r == Operation::Const,
    {
        Operation::Const
    }
}

/// The declared type of a value.
#[derive(Debug, Clone, Copy, PartialEq, Eq, Structural)]
pub enum Type {
    Int,
    Bool,
}

/// One operation of the intermediate representation.
#[derive(Debug, Clone, PartialEq)]
pub struct Instruction {
    pub op: Operation,
    pub args: Args,
    pub ty: Option<Type>,
    pub value: Option<u32>,
    pub dest: Option<String>,
}

/// The mathematical content of an [`Instruction`].
pub struct InstructionView {
    pub op: Operation,
    pub args: Seq<Seq<char>>,
    pub ty: Option<Type>,
    pub value: Option<u32>,
    pub dest: Option<Seq<char>>,
}

impl InstructionView {
    /// Field presence and operand count are exactly those the operation
    /// calls for; no operation accepts a declared type.
    pub open spec fn is_valid(self) -> bool {
        &&& self.args.len() == self.op.arity()
        &&& self.value is Some <==> self.op.takes_literal()
        &&& self.dest is Some <==> self.op.binds()
        &&& self.ty is None
    }

    /// Whether the instruction writes the variable `name`.
    pub open spec fn defines(self, name: Seq<char>) -> bool {
        self.dest == Some(name)
    }

    /// Whether the instruction reads the variable `name`.
    pub open spec fn reads(self, name: Seq<char>) -> bool {
        self.args.contains(name)
    }
}

/// Some instruction of `block` before position `k` writes `name`.
pub open spec fn bound_before(block: Seq<InstructionView>, k: int, name: Seq<char>) -> bool {
    exists|j: int| 0 <= j < k && j < block.len() && (#[trigger] block[j]).dest == Some(name)
}

/// A name is bound after instruction `k` if that instruction writes it or
/// if it was bound before.
pub proof fn lemma_bound_before_step(block: Seq<InstructionView>, k: int, name: Seq<char>)
    requires
        0 <= k < block.len(),
    ensures
        bound_before(block, k + 1, name) <==> bound_before(block, k, name) || block[k].defines(
            name,
        ),
{
    if bound_before(block, k + 1, name) {
        let j = choose|j: int|
            0 <= j < k + 1 && j < block.len() && (#[trigger] block[j]).dest == Some(name);
        if j < k {
            assert(bound_before(block, k, name));
        }
    }
    if bound_before(block, k, name) {
        let j = choose|j: int|
            0 <= j < k && j < block.len() && (#[trigger] block[j]).dest == Some(name);
        assert(block[j].dest == Some(name));
    }
    if block[k].defines(name) {
        assert(block[k].dest == Some(name));
    }
}

impl View for Instruction {
    type V = InstructionView;

    open spec fn view(&self) -> InstructionView {
        InstructionView {
            op: self.op,
            args: self.args.deep_view(),
            ty: self.ty,
            value: self.value,
            dest: self.dest.deep_view(),
        }
    }
}

impl DeepView for Instruction {
    type V = InstructionView;

    open spec fn deep_view(&self) -> InstructionView {
        self.view()
    }
}

impl Instruction {
    /// Verifies if the instruction is a valid instruction.
    pub fn is_valid(&self) -> (r: bool)
        ensures
            r == self@.is_valid(),
    {
        let count: usize = self.args.len();
        let value = self.value.is_some();
        let dest = self.dest.is_some();
        let untyped = self.ty.is_none();
        match self.op {
            Operation::Const => value && dest && untyped && count == 0,
            Operation::Add => !value && dest && untyped && count == 2,
            Operation::Mul => !value && dest && untyped && count == 2,
            Operation::Id => !value && dest && untyped && count == 1,
            Operation::Print => !value && !dest && untyped && count == 1,
            Operation::Br => !value && !dest && untyped && count == 3,
            Operation::Jmp => !value && !dest && untyped && count == 0,
        }
    }

    /// Returns true if the instruction is an assignment of a literal.
    pub fn is_assignment(&self) -> (r: bool)
        ensures
            r == (self.op == Operation::Const),
    {
        matches!(self.op, Operation::Const)
    }
}

impl Default for Instruction {
    fn default() -> (r: Self)
        ensures
            r@ == (InstructionView {
                op: Operation::Const,
                args: Seq::empty(),
                ty: None,
                value: None,
                dest: None,
            }),
    {
        let r = Instruction {
            op: Operation::Const,
            args: Vec::new(),
            ty: None,
            value: None,
            dest: None,
        };
        assert(r.args.deep_view() =~= Seq::empty());
        r
    }
}

/// A named sequence of instructions.
#[derive(Debug, Clone, PartialEq)]
pub struct Function {
    pub name: String,
    pub instrs: Vec<Instruction>,
}

/// A whole program: a collection of functions.
#[derive(Debug, Clone, PartialEq)]
pub struct BrilProgram {
    pub functions: Vec<Function>,
}

} // verus!
