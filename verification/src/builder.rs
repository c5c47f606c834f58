//! Building an instruction field by field.
//!
//! An instruction is assembled from named fields given in any order. Each
//! field may be given once, the operation must be given, and the fields
//! together must make a valid instruction.

use crate::names::same_text;
use crate::types::{Instruction, InstructionView, Operation, Type};
use vstd::prelude::*;

verus! {

/// One named field of an instruction.
#[derive(Debug, Clone, PartialEq)]
pub enum Field {
    Op(Operation),
    Args(Vec<String>),
    Value(u32),
    Type(Type),
    Dest(String),
}

/// The mathematical content of a [`Field`].
pub enum FieldView {
    Op(Operation),
    Args(Seq<Seq<char>>),
    Value(u32),
    Type(Type),
    Dest(Seq<char>),
}

impl View for Field {
    type V = FieldView;

    open spec fn view(&self) -> FieldView {
        match self {
            Field::Op(op) => FieldView::Op(*op),
            Field::Args(args) => FieldView::Args(args.deep_view()),
            Field::Value(value) => FieldView::Value(*value),
            Field::Type(ty) => FieldView::Type(*ty),
            Field::Dest(dest) => FieldView::Dest(dest@),
        }
    }
}

impl DeepView for Field {
    type V = FieldView;

    open spec fn deep_view(&self) -> FieldView {
        self.view()
    }
}

/// The name a field goes by.
#[derive(Debug, Clone, Copy, PartialEq, Eq, Structural)]
pub enum FieldKind {
    Op,
    Args,
    Value,
    Type,
    Dest,
}

/// The field that `name` spells, if it spells one.
pub open spec fn kind_named(name: Seq<char>) -> Option<FieldKind> {
    if name == "op"@ {
        Some(FieldKind::Op)
    } else if name == "args"@ {
        Some(FieldKind::Args)
    } else if name == "value"@ {
        Some(FieldKind::Value)
    } else if name == "ty"@ {
        Some(FieldKind::Type)
    } else if name == "dest"@ {
        Some(FieldKind::Dest)
    } else {
        None
    }
}

impl FieldKind {
    /// Reads the name of a field; any other name is unknown.
    pub fn from_name(name: &str) -> (r: Option<FieldKind>)
        ensures
            r == kind_named(name@),
    {
        if same_text(name, "op") {
            Some(FieldKind::Op)
        } else if same_text(name, "args") {
            Some(FieldKind::Args)
        } else if same_text(name, "value") {
            Some(FieldKind::Value)
        } else if same_text(name, "ty") {
            Some(FieldKind::Type)
        } else if same_text(name, "dest") {
            Some(FieldKind::Dest)
        } else {
            None
        }
    }

    /// The error for giving a field of this name twice.
    pub open spec fn repeated(self) -> BuildError {
        match self {
            FieldKind::Op => BuildError::DuplicateOp,
            FieldKind::Args => BuildError::DuplicateArgs,
            FieldKind::Value => BuildError::DuplicateValue,
            FieldKind::Type => BuildError::DuplicateType,
            FieldKind::Dest => BuildError::DuplicateDest,
        }
    }
}

impl FieldView {
    /// The name the field goes by.
    pub open spec fn kind(self) -> FieldKind {
        match self {
            FieldView::Op(_) => FieldKind::Op,
            FieldView::Args(_) => FieldKind::Args,
            FieldView::Value(_) => FieldKind::Value,
            FieldView::Type(_) => FieldKind::Type,
            FieldView::Dest(_) => FieldKind::Dest,
        }
    }
}

impl Field {
    /// The name the field goes by.
    pub fn kind(&self) -> (r: FieldKind)
        ensures
            r == self@.kind(),
    {
        match self {
            Field::Op(_) => FieldKind::Op,
            Field::Args(_) => FieldKind::Args,
            Field::Value(_) => FieldKind::Value,
            Field::Type(_) => FieldKind::Type,
            Field::Dest(_) => FieldKind::Dest,
        }
    }
}

/// Why no instruction was built.
#[derive(Debug, Clone, Copy, PartialEq, Eq, Structural)]
pub enum BuildError {
    /// No field was given.
    Empty,
    /// The operation was given twice.
    DuplicateOp,
    /// The arguments were given twice.
    DuplicateArgs,
    /// The literal value was given twice.
    DuplicateValue,
    /// The declared type was given twice.
    DuplicateType,
    /// The destination was given twice.
    DuplicateDest,
    /// Fields were given, but not the operation.
    MissingOp,
    /// The fields do not make a valid instruction.
    Invalid,
}

impl BuildError {
    /// The text that goes with the error.
    pub open spec fn text(self) -> Seq<char> {
        match self {
            BuildError::Empty => "expected at least an 'op' field"@,
            BuildError::DuplicateOp => "operation already set"@,
            BuildError::DuplicateArgs => "args already set"@,
            BuildError::DuplicateValue => "value already set"@,
            BuildError::DuplicateType => "type already set"@,
            BuildError::DuplicateDest => "dest already set"@,
            BuildError::MissingOp => "'op' attribute needs to be set"@,
            BuildError::Invalid => "invalid instruction"@,
        }
    }

    /// What to tell the user.
    pub fn message(&self) -> (r: String)
        ensures
            r@ == self.text(),
    {
        match self {
            BuildError::Empty => "expected at least an 'op' field".to_owned(),
            BuildError::DuplicateOp => "operation already set".to_owned(),
            BuildError::DuplicateArgs => "args already set".to_owned(),
            BuildError::DuplicateValue => "value already set".to_owned(),
            BuildError::DuplicateType => "type already set".to_owned(),
            BuildError::DuplicateDest => "dest already set".to_owned(),
            BuildError::MissingOp => "'op' attribute needs to be set".to_owned(),
            BuildError::Invalid => "invalid instruction".to_owned(),
        }
    }
}

/// The fields given so far.
pub struct Draft {
    pub op: Option<Operation>,
    pub args: Option<Seq<Seq<char>>>,
    pub value: Option<u32>,
    pub ty: Option<Type>,
    pub dest: Option<Seq<char>>,
}

impl Draft {
    /// No field given yet.
    pub open spec fn empty() -> Draft {
        Draft { op: None, args: None, value: None, ty: None, dest: None }
    }

    /// Whether the field that goes by `kind` was given.
    pub open spec fn has(self, kind: FieldKind) -> bool {
        match kind {
            FieldKind::Op => self.op is Some,
            FieldKind::Args => self.args is Some,
            FieldKind::Value => self.value is Some,
            FieldKind::Type => self.ty is Some,
            FieldKind::Dest => self.dest is Some,
        }
    }

    /// The draft with one more field, unless a field of that name was given
    /// before.
    pub open spec fn with(self, field: FieldView) -> Result<Draft, BuildError> {
        if self.has(field.kind()) {
            Err(field.kind().repeated())
        } else {
            Ok(
                match field {
                    FieldView::Op(op) => Draft { op: Some(op), ..self },
                    FieldView::Args(args) => Draft { args: Some(args), ..self },
                    FieldView::Value(value) => Draft { value: Some(value), ..self },
                    FieldView::Type(ty) => Draft { ty: Some(ty), ..self },
                    FieldView::Dest(dest) => Draft { dest: Some(dest), ..self },
                },
            )
        }
    }

    /// The instruction that the fields make: absent arguments are no
    /// arguments.
    pub open spec fn assembled(self) -> InstructionView
        recommends
            self.op is Some,
    {
        InstructionView {
            op: self.op->0,
            args: match self.args {
                Some(args) => args,
                None => Seq::empty(),
            },
            ty: self.ty,
            value: self.value,
            dest: self.dest,
        }
    }

    /// The instruction, if the operation was given and the instruction is
    /// valid.
    pub open spec fn finished(self) -> Result<InstructionView, BuildError> {
        if self.op is None {
            Err(BuildError::MissingOp)
        } else if !self.assembled().is_valid() {
            Err(BuildError::Invalid)
        } else {
            Ok(self.assembled())
        }
    }
}

/// The draft after the first `k` of `fields`, or the error of the first of
/// them that repeats an earlier one.
pub open spec fn drafted(fields: Seq<FieldView>, k: int) -> Result<Draft, BuildError>
    decreases k,
{
    if k <= 0 {
        Ok(Draft::empty())
    } else {
        match drafted(fields, k - 1) {
            Err(e) => Err(e),
            Ok(draft) => draft.with(fields[k - 1]),
        }
    }
}

/// The instruction that `fields` make.
pub open spec fn built(fields: Seq<FieldView>) -> Result<InstructionView, BuildError> {
    if fields.len() == 0 {
        Err(BuildError::Empty)
    } else {
        match drafted(fields, fields.len() as int) {
            Err(e) => Err(e),
            Ok(draft) => draft.finished(),
        }
    }
}

/// Collects the fields of one instruction.
pub struct InstructionBuilder {
    op: Option<Operation>,
    args: Option<Vec<String>>,
    value: Option<u32>,
    ty: Option<Type>,
    dest: Option<String>,
}

impl View for InstructionBuilder {
    type V = Draft;

    closed spec fn view(&self) -> Draft {
        Draft {
            op: self.op,
            args: self.args.deep_view(),
            value: self.value,
            ty: self.ty,
            dest: self.dest.deep_view(),
        }
    }
}

impl InstructionBuilder {
    /// A builder with no field set.
    pub fn new() -> (r: InstructionBuilder)
        ensures
            r@ == Draft::empty(),
    {
        InstructionBuilder { op: None, args: None, value: None, ty: None, dest: None }
    }

    /// Whether a field that goes by `kind` can still be set.
    pub fn check(&self, kind: FieldKind) -> (r: Result<(), BuildError>)
        ensures
            r == if self@.has(kind) {
                Err::<(), BuildError>(kind.repeated())
            } else {
                Ok::<(), BuildError>(())
            },
    {
        let taken = match kind {
            FieldKind::Op => self.op.is_some(),
            FieldKind::Args => self.args.is_some(),
            FieldKind::Value => self.value.is_some(),
            FieldKind::Type => self.ty.is_some(),
            FieldKind::Dest => self.dest.is_some(),
        };
        if taken {
            Err(
                match kind {
                    FieldKind::Op => BuildError::DuplicateOp,
                    FieldKind::Args => BuildError::DuplicateArgs,
                    FieldKind::Value => BuildError::DuplicateValue,
                    FieldKind::Type => BuildError::DuplicateType,
                    FieldKind::Dest => BuildError::DuplicateDest,
                },
            )
        } else {
            Ok(())
        }
    }

    /// Sets one field. A field that is already set is refused, and the
    /// builder stays as it was.
    pub fn set(&mut self, field: Field) -> (r: Result<(), BuildError>)
        ensures
            match r {
                Ok(()) => old(self)@.with(field@) == Ok::<Draft, BuildError>(final(self)@),
                Err(e) => old(self)@.with(field@) == Err::<Draft, BuildError>(e) && final(self)@
                    == old(self)@,
            },
    {
        match field {
            Field::Op(op) => {
                if self.op.is_some() {
                    return Err(BuildError::DuplicateOp);
                }
                self.op = Some(op);
            },
            Field::Args(args) => {
                if self.args.is_some() {
                    return Err(BuildError::DuplicateArgs);
                }
                self.args = Some(args);
            },
            Field::Value(value) => {
                if self.value.is_some() {
                    return Err(BuildError::DuplicateValue);
                }
                self.value = Some(value);
            },
            Field::Type(ty) => {
                if self.ty.is_some() {
                    return Err(BuildError::DuplicateType);
                }
                self.ty = Some(ty);
            },
            Field::Dest(dest) => {
                if self.dest.is_some() {
                    return Err(BuildError::DuplicateDest);
                }
                self.dest = Some(dest);
            },
        }
        Ok(())
    }

    /// The instruction that the fields make, if the operation is set and
    /// the instruction is valid.
    pub fn finish(self) -> (r: Result<Instruction, BuildError>)
        ensures
            match r {
                Ok(i) => self@.finished() == Ok::<InstructionView, BuildError>(i@),
                Err(e) => self@.finished() == Err::<InstructionView, BuildError>(e),
            },
            r matches Ok(i) ==> i@.is_valid(),
    {
        let ghost draft = self@;
        let InstructionBuilder { op, args, value, ty, dest } = self;
        let op = match op {
            Some(op) => op,
            None => {
                return Err(BuildError::MissingOp);
            },
        };
        let args = match args {
            Some(args) => args,
            None => Vec::new(),
        };
        let instruction = Instruction { op, args, ty, value, dest };
        assert(instruction@.args =~= draft.assembled().args);
        if !instruction.is_valid() {
            return Err(BuildError::Invalid);
        }
        Ok(instruction)
    }
}

/// Builds an instruction from its fields.
///
/// Fails if no field is given, if a field is given twice (the first
/// repetition is reported), if the operation is not given, or if the fields
/// do not make a valid instruction; in that order.
pub fn build_instruction(fields: Vec<Field>) -> (r: Result<Instruction, BuildError>)
    ensures
        match r {
            Ok(i) => built(fields.deep_view()) == Ok::<InstructionView, BuildError>(i@),
            Err(e) => built(fields.deep_view()) == Err::<InstructionView, BuildError>(e),
        },
        r matches Ok(i) ==> i@.is_valid(),
{
    let ghost input = fields@;
    let ghost views = fields.deep_view();
    if fields.len() == 0 {
        return Err(BuildError::Empty);
    }
    let mut builder = InstructionBuilder::new();
    for field in it: fields.into_iter()
        invariant
            it.seq() == input,
            views == fields.deep_view(),
            views.len() == input.len(),
            views.len() > 0,
            forall|j: int| 0 <= j < input.len() ==> views[j] == input[j]@,
            drafted(views, it.index() as int) == Ok::<Draft, BuildError>(builder@),
    {
        let ghost k = it.index() as int;
        assert(field == input[k]);
        match builder.set(field) {
            Ok(()) => {},
            Err(e) => {
                proof {
                    lemma_repetition_sticks(views, k + 1, views.len() as int);
                }
                return Err(e);
            },
        }
    }
    builder.finish()
}

/// Once a field has repeated an earlier one, every longer prefix of the
/// fields fails in the same way.
proof fn lemma_repetition_sticks(fields: Seq<FieldView>, k: int, n: int)
    requires
        k <= n,
        drafted(fields, k) is Err,
    ensures
        drafted(fields, n) == drafted(fields, k),
    decreases n - k,
{
    if k < n {
        lemma_repetition_sticks(fields, k, n - 1);
    }
}

/// No two of the first `k` fields go by the same name.
pub open spec fn distinct_kinds(fields: Seq<FieldView>, k: int) -> bool {
    forall|i: int, j: int|
        0 <= i < j < k ==> (#[trigger] fields[i]).kind() != (#[trigger] fields[j]).kind()
}

/// One of the first `k` fields goes by `kind`.
pub open spec fn given(fields: Seq<FieldView>, k: int, kind: FieldKind) -> bool {
    exists|i: int| 0 <= i < k && (#[trigger] fields[i]).kind() == kind
}

/// The fields are accepted one after the other exactly when no two of them
/// go by the same name; the draft then has a field exactly when one of that
/// name was given.
pub proof fn lemma_drafted(fields: Seq<FieldView>, k: int)
    requires
        0 <= k <= fields.len(),
    ensures
        drafted(fields, k) is Ok <==> distinct_kinds(fields, k),
        drafted(fields, k) matches Ok(draft) ==> forall|kind: FieldKind| #[trigger]
            given(fields, k, kind) <==> draft.has(kind),
    decreases k,
{
    if k > 0 {
        lemma_drafted(fields, k - 1);
        let last = fields[k - 1];
        match drafted(fields, k - 1) {
            Err(_) => {
                if distinct_kinds(fields, k) {
                    assert(distinct_kinds(fields, k - 1));
                }
            },
            Ok(before) => {
                assert(before.has(last.kind()) <==> given(fields, k - 1, last.kind()));
                if given(fields, k - 1, last.kind()) {
                    let i = choose|i: int|
                        0 <= i < k - 1 && (#[trigger] fields[i]).kind() == last.kind();
                    assert(fields[i].kind() == fields[k - 1].kind());
                    assert(!distinct_kinds(fields, k));
                } else {
                    assert forall|i: int, j: int| 0 <= i < j < k implies (#[trigger] fields[i]).kind()
                        != (#[trigger] fields[j]).kind() by {
                        if j == k - 1 && fields[i].kind() == last.kind() {
                            assert(given(fields, k - 1, last.kind()));
                        }
                    }
                    let draft = before.with(last)->Ok_0;
                    assert forall|kind: FieldKind| #[trigger]
                        given(fields, k, kind) <==> draft.has(kind) by {
                        assert(given(fields, k - 1, kind) <==> before.has(kind));
                        if given(fields, k, kind) {
                            let i = choose|i: int|
                                0 <= i < k && (#[trigger] fields[i]).kind() == kind;
                            if i < k - 1 {
                                assert(given(fields, k - 1, kind));
                            }
                        }
                        if given(fields, k - 1, kind) {
                            let i = choose|i: int|
                                0 <= i < k - 1 && (#[trigger] fields[i]).kind() == kind;
                            assert(0 <= i < k && fields[i].kind() == kind);
                        }
                        if last.kind() == kind {
                            assert(fields[k - 1].kind() == kind);
                        }
                    }
                }
            },
        }
    }
}

/// An instruction is built exactly when fields are given, no two of them go
/// by the same name, the operation is among them, and they make a valid
/// instruction; what is built is valid.
pub proof fn lemma_built(fields: Seq<FieldView>)
    ensures
        built(fields) is Ok <==> {
            &&& fields.len() > 0
            &&& distinct_kinds(fields, fields.len() as int)
            &&& given(fields, fields.len() as int, FieldKind::Op)
            &&& drafted(fields, fields.len() as int)->Ok_0.assembled().is_valid()
        },
        built(fields) matches Ok(i) ==> i.is_valid(),
{
    let n = fields.len() as int;
    lemma_drafted(fields, n);
    if drafted(fields, n) is Ok {
        let draft = drafted(fields, n)->Ok_0;
        assert(given(fields, n, FieldKind::Op) <==> draft.has(FieldKind::Op));
    }
}

} // verus!
