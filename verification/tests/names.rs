use bril::names::NameError;
use bril::types::{Operation, Type};
use std::str::FromStr;

#[test]
fn every_operation_is_read_from_its_name() {
    assert_eq!(Operation::from_name("const"), Ok(Operation::Const));
    assert_eq!(Operation::from_name("add"), Ok(Operation::Add));
    assert_eq!(Operation::from_name("mul"), Ok(Operation::Mul));
    assert_eq!(Operation::from_name("id"), Ok(Operation::Id));
    assert_eq!(Operation::from_name("print"), Ok(Operation::Print));
    assert_eq!(Operation::from_name("br"), Ok(Operation::Br));
    assert_eq!(Operation::from_name("jmp"), Ok(Operation::Jmp));
}

#[test]
fn unknown_operation_name_is_refused() {
    assert_eq!(
        Operation::from_name("sub"),
        Err(NameError::Operation("sub".to_string()))
    );
    assert_eq!(
        Operation::from_name("Add"),
        Err(NameError::Operation("Add".to_string()))
    );
    assert_eq!(
        Operation::from_name(""),
        Err(NameError::Operation(String::new()))
    );
    assert_eq!(
        Operation::from_name("int"),
        Err(NameError::Operation("int".to_string()))
    );
}

#[test]
fn every_type_is_read_from_its_name() {
    assert_eq!(Type::from_name("int"), Ok(Type::Int));
    assert_eq!(Type::from_name("bool"), Ok(Type::Bool));
}

#[test]
fn unknown_type_name_is_refused() {
    assert_eq!(
        Type::from_name("float"),
        Err(NameError::Type("float".to_string()))
    );
    assert_eq!(
        Type::from_name("add"),
        Err(NameError::Type("add".to_string()))
    );
}

#[test]
fn from_str_reads_names() {
    assert_eq!(Operation::from_str("mul"), Ok(Operation::Mul));
    assert_eq!("jmp".parse::<Operation>(), Ok(Operation::Jmp));
    assert_eq!("bool".parse::<Type>(), Ok(Type::Bool));
    assert!("nope".parse::<Operation>().is_err());
    assert!("nope".parse::<Type>().is_err());
}

#[test]
fn name_error_messages() {
    assert_eq!(
        NameError::Operation("sub".to_string()).message(),
        "incorrect operation, got sub"
    );
    assert_eq!(
        NameError::Type("float".to_string()).message(),
        "incorrect type, got float"
    );
}
