//! The spelling of operations and types.

use crate::types::{Operation, Type};
use std::str::FromStr;
use vstd::prelude::*;
use vstd::string::StringExecFns;

verus! {

/// A name that spells no operation, or no type.
#[derive(Debug, Clone, PartialEq, Eq)]
pub enum NameError {
    /// The name is not that of an operation.
    Operation(String),
    /// The name is not that of a type.
    Type(String),
}

/// The mathematical content of a [`NameError`].
pub enum NameErrorView {
    Operation(Seq<char>),
    Type(Seq<char>),
}

impl View for NameError {
    type V = NameErrorView;

    open spec fn view(&self) -> NameErrorView {
        match self {
            NameError::Operation(name) => NameErrorView::Operation(name@),
            NameError::Type(name) => NameErrorView::Type(name@),
        }
    }
}

impl NameError {
    /// What to tell the user.
    pub fn message(&self) -> (r: String)
        ensures
            r@ == match self@ {
                NameErrorView::Operation(name) => "incorrect operation, got "@ + name,
                NameErrorView::Type(name) => "incorrect type, got "@ + name,
            },
    {
        match self {
            NameError::Operation(name) => "incorrect operation, got ".to_owned().concat(
                name.as_str(),
            ),
            NameError::Type(name) => "incorrect type, got ".to_owned().concat(name.as_str()),
        }
    }
}

/// The operation that `name` spells, if it spells one.
pub open spec fn operation_named(name: Seq<char>) -> Option<Operation> {
    if name == "const"@ {
        Some(Operation::Const)
    } else if name == "add"@ {
        Some(Operation::Add)
    } else if name == "mul"@ {
        Some(Operation::Mul)
    } else if name == "id"@ {
        Some(Operation::Id)
    } else if name == "print"@ {
        Some(Operation::Print)
    } else if name == "br"@ {
        Some(Operation::Br)
    } else if name == "jmp"@ {
        Some(Operation::Jmp)
    } else {
        None
    }
}

/// The type that `name` spells, if it spells one.
pub open spec fn type_named(name: Seq<char>) -> Option<Type> {
    if name == "int"@ {
        Some(Type::Int)
    } else if name == "bool"@ {
        Some(Type::Bool)
    } else {
        None
    }
}

/// Whether two strings hold the same characters.
pub(crate) fn same_text(a: &str, b: &str) -> (r: bool)
    ensures
        r == (a@ == b@),
{
    a.to_owned() == b.to_owned()
}

impl Operation {
    /// Reads an operation from its lower-case name.
    pub fn from_name(name: &str) -> (r: Result<Operation, NameError>)
        ensures
            match r {
                Ok(op) => operation_named(name@) == Some(op),
                Err(e) => operation_named(name@) is None && e@ == NameErrorView::Operation(name@),
            },
    {
        if same_text(name, "const") {
            Ok(Operation::Const)
        } else if same_text(name, "add") {
            Ok(Operation::Add)
        } else if same_text(name, "mul") {
            Ok(Operation::Mul)
        } else if same_text(name, "id") {
            Ok(Operation::Id)
        } else if same_text(name, "print") {
            Ok(Operation::Print)
        } else if same_text(name, "br") {
            Ok(Operation::Br)
        } else if same_text(name, "jmp") {
            Ok(Operation::Jmp)
        } else {
            Err(NameError::Operation(name.to_owned()))
        }
    }
}

impl Type {
    /// Reads a type from its lower-case name.
    pub fn from_name(name: &str) -> (r: Result<Type, NameError>)
        ensures
            match r {
                Ok(ty) => type_named(name@) == Some(ty),
                Err(e) => type_named(name@) is None && e@ == NameErrorView::Type(name@),
            },
    {
        if same_text(name, "int") {
            Ok(Type::Int)
        } else if same_text(name, "bool") {
            Ok(Type::Bool)
        } else {
            Err(NameError::Type(name.to_owned()))
        }
    }
}

impl FromStr for Operation {
    type Err = NameError;

    /// Reads an operation from its lower-case name.
    fn from_str(s: &str) -> (r: Result<Operation, NameError>)
        ensures
            match r {
                Ok(op) => operation_named(s@) == Some(op),
                Err(e) => operation_named(s@) is None && e@ == NameErrorView::Operation(s@),
            },
    {
        Operation::from_name(s)
    }
}

impl FromStr for Type {
    type Err = NameError;

    /// Reads a type from its lower-case name.
    fn from_str(s: &str) -> (r: Result<Type, NameError>)
        ensures
            match r {
                Ok(ty) => type_named(s@) == Some(ty),
                Err(e) => type_named(s@) is None && e@ == NameErrorView::Type(s@),
            },
    {
        Type::from_name(s)
    }
}

} // verus!
