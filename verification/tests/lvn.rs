use bril::lvn::{local_value_numbering, LvnError};
use bril::types::{Instruction, Operation, Type};

fn konst(value: u32, dest: &str) -> Instruction {
    Instruction {
        op: Operation::Const,
        args: vec![],
        ty: None,
        value: Some(value),
        dest: Some(dest.to_string()),
    }
}

fn binop(op: Operation, a: &str, b: &str, dest: &str) -> Instruction {
    Instruction {
        op,
        args: vec![a.to_string(), b.to_string()],
        ty: None,
        value: None,
        dest: Some(dest.to_string()),
    }
}

fn id(arg: &str, dest: &str) -> Instruction {
    Instruction {
        op: Operation::Id,
        args: vec![arg.to_string()],
        ty: None,
        value: None,
        dest: Some(dest.to_string()),
    }
}

fn show(arg: &str) -> Instruction {
    Instruction {
        op: Operation::Print,
        args: vec![arg.to_string()],
        ty: None,
        value: None,
        dest: None,
    }
}

#[test]
fn test_local_value_numbering() {
    // Given
    let block = vec![
        konst(1, "a"),
        konst(2, "b"),
        binop(Operation::Add, "a", "b", "sum1"),
        binop(Operation::Add, "a", "b", "sum2"),
        binop(Operation::Mul, "sum1", "sum2", "prod"),
        show("prod"),
    ];

    // When
    let optimized_block = local_value_numbering(block).expect("failed to apply lvn");

    // Then
    let expected_block = vec![
        konst(1, "a"),
        konst(2, "b"),
        binop(Operation::Add, "a", "b", "sum1"),
        id("sum1", "sum2"),
        binop(Operation::Mul, "sum1", "sum1", "prod"),
        show("prod"),
    ];

    assert_eq!(optimized_block, expected_block);
}

#[test]
fn test_local_value_numbering_commutativity() {
    // Given
    let block = vec![
        konst(1, "a"),
        konst(2, "b"),
        binop(Operation::Add, "a", "b", "sum1"),
        binop(Operation::Add, "b", "a", "sum2"),
        binop(Operation::Mul, "sum1", "sum2", "prod"),
        show("prod"),
    ];

    // When
    let optimized_block = local_value_numbering(block).expect("failed to apply lvn");

    // Then
    let expected_block = vec![
        konst(1, "a"),
        konst(2, "b"),
        binop(Operation::Add, "a", "b", "sum1"),
        id("sum1", "sum2"),
        binop(Operation::Mul, "sum1", "sum1", "prod"),
        show("prod"),
    ];

    assert_eq!(optimized_block, expected_block);
}

#[test]
fn test_local_value_numbering_constant_propagation() {
    // Given
    let block = vec![
        konst(1, "x"),
        id("x", "copy1"),
        id("copy1", "copy2"),
        id("copy2", "copy3"),
        show("copy3"),
    ];

    // When
    let optimized_block = local_value_numbering(block).expect("failed to apply lvn");

    // Then
    let expected_block = vec![
        konst(1, "x"),
        id("x", "copy1"),
        id("x", "copy2"),
        id("x", "copy3"),
        show("x"),
    ];

    assert_eq!(optimized_block, expected_block);
}

#[test]
fn lvn_commuted_operands_are_redundant() {
    let block = vec![
        konst(1, "c1"),
        konst(2, "c2"),
        binop(Operation::Add, "c1", "c2", "s1"),
        binop(Operation::Add, "c2", "c1", "s2"),
    ];
    let out = local_value_numbering(block).unwrap();
    assert_eq!(out[3], id("s1", "s2"));
    assert_eq!(out[2], binop(Operation::Add, "c1", "c2", "s1"));
}

#[test]
fn lvn_copy_chain_collapses() {
    let block = vec![konst(1, "x"), id("x", "y"), id("y", "z"), id("z", "w")];
    let out = local_value_numbering(block).unwrap();
    assert_eq!(
        out,
        vec![konst(1, "x"), id("x", "y"), id("x", "z"), id("x", "w")]
    );
}

#[test]
fn lvn_use_before_definition_fails() {
    let r = local_value_numbering(vec![show("undefined_var")]);
    assert_eq!(
        r,
        Err(LvnError::UseBeforeDefinition("undefined_var".to_string()))
    );
}

#[test]
fn lvn_reports_the_first_unbound_operand() {
    let block = vec![
        konst(1, "a"),
        binop(Operation::Add, "a", "p", "s"),
        binop(Operation::Add, "q", "a", "t"),
    ];
    assert_eq!(
        local_value_numbering(block),
        Err(LvnError::UseBeforeDefinition("p".to_string()))
    );
    let block = vec![konst(1, "a"), binop(Operation::Mul, "q", "r", "t")];
    assert_eq!(
        local_value_numbering(block),
        Err(LvnError::UseBeforeDefinition("q".to_string()))
    );
}

#[test]
fn lvn_copy_of_unbound_variable_fails() {
    let block = vec![konst(1, "a"), id("b", "c")];
    assert_eq!(
        local_value_numbering(block),
        Err(LvnError::UseBeforeDefinition("b".to_string()))
    );
}

#[test]
fn lvn_malformed_copy_fails() {
    let no_arg = Instruction {
        op: Operation::Id,
        args: vec![],
        ty: None,
        value: None,
        dest: Some("d".to_string()),
    };
    assert_eq!(
        local_value_numbering(vec![konst(1, "a"), no_arg]),
        Err(LvnError::MalformedCopy)
    );
    let no_dest = Instruction {
        op: Operation::Id,
        args: vec!["a".to_string()],
        ty: None,
        value: None,
        dest: None,
    };
    assert_eq!(
        local_value_numbering(vec![konst(1, "a"), no_dest.clone()]),
        Err(LvnError::MalformedCopy)
    );
    // An unbound operand is reported before the missing destination.
    assert_eq!(
        local_value_numbering(vec![no_dest]),
        Err(LvnError::UseBeforeDefinition("a".to_string()))
    );
}

#[test]
fn lvn_preserves_length() {
    let block = vec![
        konst(1, "a"),
        konst(1, "b"),
        konst(2, "c"),
        binop(Operation::Mul, "a", "c", "m1"),
        binop(Operation::Mul, "c", "b", "m2"),
        id("m2", "m3"),
        show("m3"),
    ];
    let n = block.len();
    let out = local_value_numbering(block).unwrap();
    assert_eq!(out.len(), n);
    assert_eq!(
        out,
        vec![
            konst(1, "a"),
            id("a", "b"),
            konst(2, "c"),
            binop(Operation::Mul, "a", "c", "m1"),
            id("m1", "m2"),
            id("m1", "m3"),
            show("m1"),
        ]
    );
}

#[test]
fn lvn_of_empty_block_is_empty() {
    assert_eq!(local_value_numbering(vec![]), Ok(vec![]));
}

#[test]
fn lvn_non_commutative_key_is_not_sorted() {
    // With numbers 0 for `a` and 1 for `b`, `add` sorts its operand list
    // and `mul` does too, but the two operations never share a key.
    let block = vec![
        konst(7, "a"),
        konst(8, "b"),
        binop(Operation::Add, "b", "a", "s"),
        binop(Operation::Mul, "a", "b", "p"),
        binop(Operation::Mul, "b", "a", "q"),
    ];
    let out = local_value_numbering(block).unwrap();
    assert_eq!(out[2], binop(Operation::Add, "b", "a", "s"));
    assert_eq!(out[3], binop(Operation::Mul, "a", "b", "p"));
    assert_eq!(out[4], id("p", "q"));
}

#[test]
fn lvn_sorts_more_than_two_operands() {
    // Three operands in three different orders: only a real sort brings
    // them to one key.
    let three = |x: &str, y: &str, z: &str, dest: &str| Instruction {
        op: Operation::Add,
        args: vec![x.to_string(), y.to_string(), z.to_string()],
        ty: None,
        value: None,
        dest: Some(dest.to_string()),
    };
    let block = vec![
        konst(1, "a"),
        konst(2, "b"),
        konst(3, "c"),
        three("c", "a", "b", "s1"),
        three("b", "c", "a", "s2"),
        three("a", "b", "c", "s3"),
    ];
    let out = local_value_numbering(block).unwrap();
    assert_eq!(out[3], three("c", "a", "b", "s1"));
    assert_eq!(out[4], id("s1", "s2"));
    assert_eq!(out[5], id("s1", "s3"));
}

#[test]
fn lvn_redundant_instruction_drops_its_literal_and_keeps_its_type() {
    let typed = Instruction {
        op: Operation::Const,
        args: vec![],
        ty: Some(Type::Int),
        value: Some(5),
        dest: Some("b".to_string()),
    };
    let out = local_value_numbering(vec![konst(5, "a"), typed]).unwrap();
    assert_eq!(
        out[1],
        Instruction {
            op: Operation::Id,
            args: vec!["a".to_string()],
            ty: Some(Type::Int),
            value: None,
            dest: Some("b".to_string()),
        }
    );
}

#[test]
fn lvn_instruction_without_destination_creates_no_number() {
    // Two equal prints stay prints: nothing is recorded for them.
    let block = vec![konst(1, "a"), id("a", "b"), show("b"), show("b")];
    let out = local_value_numbering(block).unwrap();
    assert_eq!(
        out,
        vec![konst(1, "a"), id("a", "b"), show("a"), show("a")]
    );
}

#[test]
fn lvn_rebinding_a_name_gives_it_the_new_number() {
    let block = vec![
        konst(1, "a"),
        konst(2, "b"),
        id("b", "a"),
        binop(Operation::Add, "a", "a", "s"),
    ];
    let out = local_value_numbering(block).unwrap();
    assert_eq!(out[2], id("b", "a"));
    assert_eq!(out[3], binop(Operation::Add, "b", "b", "s"));
}

/// Runs a block of valid instructions: gives the values of the variables
/// and what the prints saw.
fn interpret(block: &[Instruction]) -> (Vec<(String, u64)>, Vec<u64>) {
    let mut env: Vec<(String, u64)> = Vec::new();
    let mut seen: Vec<u64> = Vec::new();
    for i in block {
        let read = |name: &String| -> u64 {
            env.iter()
                .rev()
                .find(|(n, _)| n == name)
                .map(|(_, v)| *v)
                .expect("unbound variable")
        };
        match i.op {
            Operation::Const => {
                let v = i.value.unwrap() as u64;
                env.push((i.dest.clone().unwrap(), v));
            }
            Operation::Add => {
                let v = read(&i.args[0]) + read(&i.args[1]);
                env.push((i.dest.clone().unwrap(), v));
            }
            Operation::Mul => {
                let v = read(&i.args[0]) * read(&i.args[1]);
                env.push((i.dest.clone().unwrap(), v));
            }
            Operation::Id => {
                let v = read(&i.args[0]);
                env.push((i.dest.clone().unwrap(), v));
            }
            Operation::Print => {
                let v = read(&i.args[0]);
                seen.push(v);
            }
            Operation::Br | Operation::Jmp => {}
        }
    }
    (env, seen)
}

#[test]
fn lvn_keeps_what_a_single_assignment_block_computes() {
    let block = vec![
        konst(3, "a"),
        konst(4, "b"),
        konst(3, "c"),
        binop(Operation::Add, "a", "b", "s1"),
        binop(Operation::Add, "b", "c", "s2"),
        binop(Operation::Mul, "s1", "s2", "p"),
        id("p", "q"),
        binop(Operation::Mul, "s2", "s1", "r"),
        show("q"),
        show("r"),
        show("c"),
    ];
    let out = local_value_numbering(block.clone()).unwrap();
    assert_eq!(
        out,
        vec![
            konst(3, "a"),
            konst(4, "b"),
            id("a", "c"),
            binop(Operation::Add, "a", "b", "s1"),
            id("s1", "s2"),
            binop(Operation::Mul, "s1", "s1", "p"),
            id("p", "q"),
            id("p", "r"),
            show("p"),
            show("p"),
            show("a"),
        ]
    );
    assert_eq!(interpret(&out), interpret(&block));
    assert_eq!(interpret(&block).1, vec![49, 49, 3]);
}

#[test]
fn lvn_may_change_what_a_block_that_writes_a_name_twice_computes() {
    let block = vec![konst(1, "a"), id("a", "b"), konst(2, "a"), id("b", "c"), show("c")];
    let out = local_value_numbering(block.clone()).unwrap();
    assert_eq!(
        out,
        vec![konst(1, "a"), id("a", "b"), konst(2, "a"), id("a", "c"), show("a")]
    );
    assert_eq!(interpret(&block).1, vec![1]);
    assert_eq!(interpret(&out).1, vec![2]);
}
