use bril::types::{BrilProgram, Function, Instruction, Operation, Type};

fn instr(
    op: Operation,
    args: &[&str],
    ty: Option<Type>,
    value: Option<u32>,
    dest: Option<&str>,
) -> Instruction {
    Instruction {
        op,
        args: args.iter().map(|a| a.to_string()).collect(),
        ty,
        value,
        dest: dest.map(|d| d.to_string()),
    }
}

#[test]
fn valid_instructions_match_their_row() {
    assert!(instr(Operation::Const, &[], None, Some(1), Some("a")).is_valid());
    assert!(instr(Operation::Add, &["a", "b"], None, None, Some("c")).is_valid());
    assert!(instr(Operation::Mul, &["a", "b"], None, None, Some("c")).is_valid());
    assert!(instr(Operation::Id, &["a"], None, None, Some("c")).is_valid());
    assert!(instr(Operation::Print, &["a"], None, None, None).is_valid());
    assert!(instr(Operation::Br, &["a", "b", "c"], None, None, None).is_valid());
    assert!(instr(Operation::Jmp, &[], None, None, None).is_valid());
}

#[test]
fn wrong_operand_count_is_invalid() {
    assert!(!instr(Operation::Const, &["a"], None, Some(1), Some("a")).is_valid());
    assert!(!instr(Operation::Add, &["a"], None, None, Some("c")).is_valid());
    assert!(!instr(Operation::Mul, &["a", "b", "c"], None, None, Some("c")).is_valid());
    assert!(!instr(Operation::Id, &[], None, None, Some("c")).is_valid());
    assert!(!instr(Operation::Print, &[], None, None, None).is_valid());
    assert!(!instr(Operation::Br, &["a", "b"], None, None, None).is_valid());
    assert!(!instr(Operation::Jmp, &["l"], None, None, None).is_valid());
}

#[test]
fn wrong_field_presence_is_invalid() {
    assert!(!instr(Operation::Const, &[], None, None, Some("a")).is_valid());
    assert!(!instr(Operation::Const, &[], None, Some(1), None).is_valid());
    assert!(!instr(Operation::Add, &["a", "b"], None, Some(1), Some("c")).is_valid());
    assert!(!instr(Operation::Add, &["a", "b"], None, None, None).is_valid());
    assert!(!instr(Operation::Id, &["a"], None, None, None).is_valid());
    assert!(!instr(Operation::Print, &["a"], None, None, Some("d")).is_valid());
    assert!(!instr(Operation::Print, &["a"], None, Some(3), None).is_valid());
    assert!(!instr(Operation::Br, &["a", "b", "c"], None, None, Some("d")).is_valid());
    assert!(!instr(Operation::Jmp, &[], None, Some(0), None).is_valid());
}

#[test]
fn declared_type_is_invalid_for_every_operation() {
    assert!(!instr(Operation::Const, &[], Some(Type::Int), Some(1), Some("a")).is_valid());
    assert!(!instr(Operation::Add, &["a", "b"], Some(Type::Int), None, Some("c")).is_valid());
    assert!(!instr(Operation::Mul, &["a", "b"], Some(Type::Bool), None, Some("c")).is_valid());
    assert!(!instr(Operation::Id, &["a"], Some(Type::Int), None, Some("c")).is_valid());
    assert!(!instr(Operation::Print, &["a"], Some(Type::Bool), None, None).is_valid());
    assert!(!instr(Operation::Br, &["a", "b", "c"], Some(Type::Int), None, None).is_valid());
    assert!(!instr(Operation::Jmp, &[], Some(Type::Int), None, None).is_valid());
}

#[test]
fn only_const_is_an_assignment() {
    assert!(instr(Operation::Const, &[], None, Some(1), Some("a")).is_assignment());
    assert!(!instr(Operation::Add, &["a", "b"], None, None, Some("c")).is_assignment());
    assert!(!instr(Operation::Id, &["a"], None, None, Some("c")).is_assignment());
    assert!(!instr(Operation::Print, &["a"], None, None, None).is_assignment());
}

#[test]
fn defaults_are_the_empty_const() {
    assert_eq!(Operation::default(), Operation::Const);
    assert_eq!(
        Instruction::default(),
        instr(Operation::Const, &[], None, None, None)
    );
    assert!(!Instruction::default().is_valid());
}

#[test]
fn commutative_operations_are_add_and_mul() {
    assert!(Operation::Add.is_commutative());
    assert!(Operation::Mul.is_commutative());
    assert!(!Operation::Const.is_commutative());
    assert!(!Operation::Id.is_commutative());
    assert!(!Operation::Print.is_commutative());
    assert!(!Operation::Br.is_commutative());
    assert!(!Operation::Jmp.is_commutative());
}

#[test]
fn program_holds_its_functions() {
    let program = BrilProgram {
        functions: vec![Function {
            name: "main".to_string(),
            instrs: vec![
                instr(Operation::Const, &[], Some(Type::Int), Some(1), Some("v0")),
                instr(Operation::Const, &[], Some(Type::Int), Some(2), Some("v1")),
                instr(Operation::Add, &["v0", "v1"], Some(Type::Int), None, Some("v2")),
                instr(Operation::Print, &["v2"], None, None, None),
            ],
        }],
    };
    assert_eq!(program.functions.len(), 1);
    assert_eq!(program.functions[0].name, "main");
    assert_eq!(program.functions[0].instrs.len(), 4);
}
