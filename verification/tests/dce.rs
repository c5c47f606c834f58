use bril::dce::{multi_pass_dce, single_pass_dce};
use bril::types::{Instruction, Operation};

fn constant(value: u32, dest: &str) -> Instruction {
    Instruction {
        op: Operation::Const,
        args: vec![],
        ty: None,
        value: Some(value),
        dest: Some(dest.to_string()),
    }
}

fn binary(op: Operation, a: &str, b: &str, dest: &str) -> Instruction {
    Instruction {
        op,
        args: vec![a.to_string(), b.to_string()],
        ty: None,
        value: None,
        dest: Some(dest.to_string()),
    }
}

fn print(arg: &str) -> Instruction {
    Instruction {
        op: Operation::Print,
        args: vec![arg.to_string()],
        ty: None,
        value: None,
        dest: None,
    }
}

#[test]
fn test_single_pass_dce() {
    // Given
    let block = vec![
        constant(1, "a"),
        constant(2, "b"),
        constant(2, "c"),
        binary(Operation::Add, "a", "b", "sum"),
        print("sum"),
    ];

    // When
    let optimized_block = single_pass_dce(block);

    // Then
    let expected_block = vec![
        constant(1, "a"),
        constant(2, "b"),
        binary(Operation::Add, "a", "b", "sum"),
        print("sum"),
    ];

    assert_eq!(optimized_block, expected_block);
}

#[test]
fn test_reassignment_single_pass_dce() {
    // Given
    let block = vec![constant(1, "a"), constant(2, "a"), print("a")];

    // When
    let optimized_block = single_pass_dce(block);

    // Then
    let expected_block = vec![constant(2, "a"), print("a")];

    assert_eq!(optimized_block, expected_block);
}

#[test]
fn test_multi_pass_dce() {
    // Given
    let block = vec![
        constant(1, "a"),
        constant(2, "b"),
        constant(2, "c"),
        constant(4, "d"),
        binary(Operation::Add, "c", "d", "sum1"),
        binary(Operation::Add, "a", "b", "sum2"),
        print("sum2"),
    ];

    // When
    let optimized_block = multi_pass_dce(block);

    // Then
    let expected_block = vec![
        constant(1, "a"),
        constant(2, "b"),
        binary(Operation::Add, "a", "b", "sum2"),
        print("sum2"),
    ];

    assert_eq!(optimized_block, expected_block);
}

#[test]
fn test_reassignment_multi_pass_dce() {
    // Given
    let block = vec![
        constant(1, "a"),
        constant(2, "b"),
        binary(Operation::Add, "a", "b", "c"),
        constant(3, "b"),
        binary(Operation::Add, "a", "b", "d"),
        print("d"),
    ];

    // When
    let optimized_block = multi_pass_dce(block);

    // Then
    let expected_block = vec![
        constant(1, "a"),
        constant(3, "b"),
        binary(Operation::Add, "a", "b", "d"),
        print("d"),
    ];

    assert_eq!(optimized_block, expected_block);
}

#[test]
fn single_pass_needs_a_second_pass_for_chains() {
    // `sum1` is never read, so the first pass drops it; only then do `c`
    // and `d` become dead.
    let block = vec![
        constant(2, "c"),
        constant(4, "d"),
        binary(Operation::Add, "c", "d", "sum1"),
        print("c"),
    ];
    let once = single_pass_dce(block.clone());
    assert_eq!(
        once,
        vec![constant(2, "c"), constant(4, "d"), print("c")]
    );
    let twice = single_pass_dce(once);
    assert_eq!(twice, vec![constant(2, "c"), print("c")]);
    assert_eq!(multi_pass_dce(block), vec![constant(2, "c"), print("c")]);
}

#[test]
fn multi_pass_dce_is_idempotent() {
    let block = vec![
        constant(1, "a"),
        constant(2, "b"),
        constant(2, "c"),
        constant(4, "d"),
        binary(Operation::Add, "c", "d", "sum1"),
        binary(Operation::Mul, "a", "b", "sum2"),
        constant(9, "a"),
        print("sum2"),
    ];
    let once = multi_pass_dce(block);
    let twice = multi_pass_dce(once.clone());
    assert_eq!(once, twice);
    assert_eq!(single_pass_dce(once.clone()), once);
}

#[test]
fn dce_of_empty_block_is_empty() {
    assert_eq!(single_pass_dce(vec![]), vec![]);
    assert_eq!(multi_pass_dce(vec![]), vec![]);
}

#[test]
fn dce_keeps_instructions_without_destination() {
    let jump = Instruction {
        op: Operation::Jmp,
        args: vec![],
        ty: None,
        value: None,
        dest: None,
    };
    let branch = Instruction {
        op: Operation::Br,
        args: vec!["c".to_string(), "l".to_string(), "r".to_string()],
        ty: None,
        value: None,
        dest: None,
    };
    let block = vec![
        constant(1, "c"),
        print("c"),
        print("c"),
        jump.clone(),
        branch.clone(),
        jump.clone(),
    ];
    assert_eq!(multi_pass_dce(block.clone()), block);
}

#[test]
fn dce_drops_every_write_of_a_name_not_read_after_its_last_write() {
    // `a` is read, but written again afterwards and never read again: no
    // read of `a` is pending at the end, so both writes go.
    let block = vec![constant(1, "a"), print("a"), constant(2, "a")];
    assert_eq!(single_pass_dce(block), vec![print("a")]);
}

#[test]
fn dce_read_by_the_overwriting_instruction_comes_after_its_write() {
    // The second instruction writes `a` before its own read of `a` is
    // recorded, so the first write counts as overwritten unread.
    let block = vec![
        constant(1, "a"),
        binary(Operation::Add, "a", "a", "a"),
        print("a"),
    ];
    assert_eq!(
        single_pass_dce(block),
        vec![binary(Operation::Add, "a", "a", "a"), print("a")]
    );
}

#[test]
fn dce_keeps_a_write_that_is_read_before_it_is_overwritten() {
    let block = vec![
        constant(1, "a"),
        print("a"),
        constant(2, "a"),
        print("a"),
    ];
    assert_eq!(single_pass_dce(block.clone()), block);
}

/// Runs a block of valid instructions and gives what the prints saw.
fn seen(block: &[Instruction]) -> Vec<u64> {
    let mut env: Vec<(String, u64)> = Vec::new();
    let mut seen: Vec<u64> = Vec::new();
    for i in block {
        let read = |name: &String| -> u64 {
            env.iter()
                .rev()
                .find(|(n, _)| n == name)
                .map(|(_, v)| *v)
                .expect("unbound variable")
        };
        match i.op {
            Operation::Const => {
                let v = i.value.unwrap() as u64;
                env.push((i.dest.clone().unwrap(), v));
            }
            Operation::Add => {
                let v = read(&i.args[0]) + read(&i.args[1]);
                env.push((i.dest.clone().unwrap(), v));
            }
            Operation::Mul => {
                let v = read(&i.args[0]) * read(&i.args[1]);
                env.push((i.dest.clone().unwrap(), v));
            }
            Operation::Id => {
                let v = read(&i.args[0]);
                env.push((i.dest.clone().unwrap(), v));
            }
            Operation::Print => {
                let v = read(&i.args[0]);
                seen.push(v);
            }
            Operation::Br | Operation::Jmp => {}
        }
    }
    seen
}

#[test]
fn dce_keeps_what_the_prints_of_an_orderly_block_see() {
    let block = vec![
        constant(1, "a"),
        constant(2, "b"),
        constant(2, "c"),
        constant(4, "d"),
        binary(Operation::Add, "c", "d", "sum1"),
        binary(Operation::Mul, "a", "b", "unused"),
        binary(Operation::Add, "a", "b", "sum2"),
        print("sum2"),
        binary(Operation::Mul, "sum2", "sum2", "square"),
        print("square"),
    ];
    let once = single_pass_dce(block.clone());
    let all = multi_pass_dce(block.clone());
    assert_eq!(seen(&block), vec![3, 9]);
    assert_eq!(seen(&once), vec![3, 9]);
    assert_eq!(seen(&all), vec![3, 9]);
    assert_eq!(
        all,
        vec![
            constant(1, "a"),
            constant(2, "b"),
            binary(Operation::Add, "a", "b", "sum2"),
            print("sum2"),
            binary(Operation::Mul, "sum2", "sum2", "square"),
            print("square"),
        ]
    );
}
